use std::collections::BTreeMap;

use mckendree_lib::insert::{next_step, Step};
use mckendree_lib::quadkey::{BoundingBox, DbKey, DbValue};

/// Stores `bbox` in `store` by the probe protocol; returns the key used.
fn store_box(store: &mut BTreeMap<Vec<u8>, Vec<u8>>, bbox: &BoundingBox) -> Option<DbKey> {
    let mut key = DbKey::from_bbox(bbox);
    loop {
        let exists = store.contains_key(&key.to_bytes());
        match next_step(key, exists, bbox) {
            Step::Probe(k) => key = k,
            Step::Insert(k, v) => {
                store.insert(k.to_bytes(), v.to_bytes());
                return Some(k);
            }
            Step::Exhausted => return None,
        }
    }
}

#[test]
fn same_box_twice_gets_entities_zero_and_one() {
    let mut store = BTreeMap::new();
    let b = BoundingBox { x: 10, y: 10, w: 0, h: 0 };
    let k0 = store_box(&mut store, &b).unwrap();
    assert_eq!(k0.entity, 0);
    let k1 = store_box(&mut store, &b).unwrap();
    assert_eq!(k1.entity, 1);
    assert_eq!(k0.quadkey, k1.quadkey);
    assert_eq!(store.len(), 2);
    let v = DbValue { bbox: b, is_black: 0 }.to_bytes();
    assert_eq!(store.get(&k0.to_bytes()), Some(&v));
    assert_eq!(store.get(&k1.to_bytes()), Some(&v));
}

#[test]
fn free_key_is_inserted_at_once() {
    let b = BoundingBox { x: 1, y: 2, w: 3, h: 4 };
    let k = DbKey { quadkey: 77, entity: 5 };
    assert_eq!(next_step(k, false, &b), Step::Insert(k, DbValue { bbox: b, is_black: 0 }));
    assert_eq!(next_step(k, true, &b), Step::Probe(DbKey { quadkey: 77, entity: 6 }));
}

#[test]
fn last_entity_taken_is_exhausted() {
    let b = BoundingBox { x: 1, y: 2, w: 3, h: 4 };
    let k = DbKey { quadkey: 77, entity: u16::MAX };
    assert_eq!(next_step(k, true, &b), Step::Exhausted);
}

use vstd::prelude::*;
use crate::quadkey::{quadkey_of, BoundingBox, DbKey, DbValue};

verus! {

/// Largest entity counter of a key.
pub const MAX_ENTITY: u16 = 0xffff;

/// What the caller does next while storing a box: look up a key, store the
/// pair, or give up because every entity of the quadkey is taken.
#[derive(Clone, Copy, Debug, PartialEq, Eq, Structural)]
pub enum Step {
    Probe(DbKey),
    Insert(DbKey, DbValue),
    Exhausted,
}

/// The value stored for `b`.
pub open spec fn value_of(b: BoundingBox) -> DbValue {
    DbValue { bbox: b, is_black: 0 }
}

/// The key of `b` with entity counter `e`.
pub open spec fn key_at(b: BoundingBox, e: u16) -> DbKey {
    DbKey { quadkey: quadkey_of(b) as u64, entity: e }
}

/// The first key, from `key` upwards in entity, that `used` does not hold.
pub open spec fn first_free(used: Set<DbKey>, key: DbKey) -> Option<DbKey>
    decreases MAX_ENTITY - key.entity,
{
    if !used.contains(key) {
        Some(key)
    } else if key.entity >= MAX_ENTITY {
        None
    } else {
        first_free(used, DbKey { quadkey: key.quadkey, entity: (key.entity + 1) as u16 })
    }
}

/// The store after `b` was stored under the first free entity of its quadkey;
/// unchanged when none is free.
pub open spec fn store_box(store: Map<DbKey, DbValue>, b: BoundingBox) -> Map<DbKey, DbValue> {
    match first_free(store.dom(), key_at(b, 0)) {
        Some(k) => store.insert(k, value_of(b)),
        None => store,
    }
}

/// The step that follows a probe of `key` for `bbox` that answered `exists`.
/// Whatever set of keys the store holds, the key that the remaining steps
/// end on is the key that the probe of `key` would have ended on.
pub fn next_step(key: DbKey, exists: bool, bbox: &BoundingBox) -> (s: Step)
    ensures
        !exists ==> s == Step::Insert(key, value_of(*bbox)),
        exists && key.entity < MAX_ENTITY ==> s == Step::Probe(
            DbKey { quadkey: key.quadkey, entity: (key.entity + 1) as u16 },
        ),
        exists && key.entity == MAX_ENTITY ==> s == Step::Exhausted,
        forall|used: Set<DbKey>|
            used.contains(key) == exists ==> match s {
                Step::Probe(k) => #[trigger] first_free(used, key) == first_free(used, k),
                Step::Insert(k, _) => first_free(used, key) == Some(k),
                Step::Exhausted => first_free(used, key) == None::<DbKey>,
            },
{
    if !exists {
        Step::Insert(key, DbValue { bbox: *bbox, is_black: 0 })
    } else if key.entity < MAX_ENTITY {
        Step::Probe(DbKey { quadkey: key.quadkey, entity: key.entity + 1 })
    } else {
        Step::Exhausted
    }
}

/// Storing one box twice in an empty store gives two keys that differ only
/// in the entity counter, 0 and then 1, each holding the box.
pub proof fn lemma_collision_resolution(b: BoundingBox)
    ensures
        key_at(b, 0) != key_at(b, 1),
        key_at(b, 0).quadkey == key_at(b, 1).quadkey,
        store_box(Map::empty(), b) =~= map![key_at(b, 0) => value_of(b)],
        store_box(store_box(Map::empty(), b), b) =~= map![
            key_at(b, 0) => value_of(b),
            key_at(b, 1) => value_of(b),
        ],
{
    let k0 = key_at(b, 0);
    let k1 = key_at(b, 1);
    let s1 = store_box(Map::empty(), b);
    assert(first_free(Set::empty(), k0) == Some(k0));
    assert(s1 =~= map![k0 => value_of(b)]);
    assert(s1.dom() =~= set![k0]);
    assert(first_free(s1.dom(), k1) == Some(k1));
    assert(first_free(s1.dom(), k0) == Some(k1));
}

} // verus!

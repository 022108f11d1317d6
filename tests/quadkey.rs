use mckendree_lib::quadkey::{BoundingBox, DbKey, DbValue, MAX_COORD};

fn bb(x: u32, y: u32, w: u32, h: u32) -> BoundingBox {
    BoundingBox { x, y, w, h }
}

#[test]
fn bbox_to_quad_key_and_back() {
    let mut rng = rand::thread_rng();
    let max = MAX_COORD + 1;
    for i in 0..10000 {
        let bbox = BoundingBox::mk_random(&mut rng, if i > 9000 { max } else { max / 1024 });
        let key = DbKey::from_bbox(&bbox);
        let key_box = key.to_bbox();
        assert!(key_box.contains(&bbox), "#{}: {:?} not in {:?}", i, bbox, key_box);
    }
}

#[test]
fn point_at_origin_gets_finest_zoom() {
    let key = DbKey::from_bbox(&bb(0, 0, 0, 0));
    assert_eq!(key.quadkey, 29);
    assert_eq!(key.entity, 0);
    assert_eq!(key.to_bbox(), bb(0, 0, 0, 0));
}

#[test]
fn full_grid_gets_zoom_zero() {
    let key = DbKey::from_bbox(&bb(0, 0, MAX_COORD, MAX_COORD));
    assert_eq!(key.quadkey, 0);
    assert_eq!(key.to_bbox(), bb(0, 0, 536870911, 536870911));
}

#[test]
fn small_box_decodes_to_enclosing_cell() {
    let b = bb(5, 5, 3, 3);
    let key = DbKey::from_bbox(&b);
    assert_eq!(key.quadkey & 63, 25);
    let cell = key.to_bbox();
    assert!(cell.contains(&b));
    assert_eq!(cell, bb(0, 0, 15, 15));
}

#[test]
fn code_bits_interleave_x_before_y() {
    // x in the right half, y in the top half: first pair of bits is 1, 0.
    let key = DbKey::from_bbox(&bb(1 << 28, 0, 0, (1 << 28) - 1));
    assert_eq!(key.quadkey, (0b10u64 << 62) + 1);
    assert_eq!(key.to_bbox(), bb(1 << 28, 0, (1 << 28) - 1, (1 << 28) - 1));
    // Unit cell at the far corner: all 58 code bits set.
    let key = DbKey::from_bbox(&bb(MAX_COORD, MAX_COORD, 0, 0));
    assert_eq!(key.quadkey, (((1u64 << 58) - 1) << 6) + 29);
    assert_eq!(key.to_bbox(), bb(MAX_COORD, MAX_COORD, 0, 0));
}

#[test]
fn decoded_cells_are_square() {
    for k in [0u64, 1, 29, 0xffff_ffff_ffff_ffc0 + 29, 0x8000_0000_0000_0003, 0x1234_5678_9abc_de05] {
        let c = DbKey { quadkey: k, entity: 0 }.to_bbox();
        assert_eq!(c.w, c.h);
        assert!(c.x as u64 + c.w as u64 <= MAX_COORD as u64);
    }
    let c = DbKey { quadkey: 0x8000_0000_0000_0003, entity: 0 }.to_bbox();
    assert_eq!(c, bb(1 << 28, 0, (1 << 26) - 1, (1 << 26) - 1));
}

#[test]
fn inner_box_has_finer_zoom_and_shares_prefix() {
    let outer = bb(1000, 2000, 300_000, 300_000);
    let inner = bb(1500, 2500, 10, 20);
    assert!(outer.contains(&inner));
    let ko = DbKey::from_bbox(&outer).quadkey;
    let ki = DbKey::from_bbox(&inner).quadkey;
    let zo = ko & 63;
    let zi = ki & 63;
    assert!(zo <= zi);
    let s = 64 - 2 * zo;
    assert_eq!(ko.checked_shr(s as u32).unwrap_or(0), ki.checked_shr(s as u32).unwrap_or(0));
    // A cell and one of its children.
    let parent = DbKey::from_bbox(&bb(1 << 27, 1 << 27, (1 << 27) - 1, (1 << 27) - 1)).quadkey;
    let child = DbKey::from_bbox(&bb(3 << 26, 1 << 27, (1 << 26) - 1, (1 << 26) - 1)).quadkey;
    assert_eq!(parent & 63, 2);
    assert_eq!(child & 63, 3);
    assert_eq!(parent >> 60, child >> 60);
}

#[test]
fn contains_compares_both_axes() {
    let a = bb(10, 10, 10, 10);
    assert!(a.contains(&a));
    assert!(a.contains(&bb(12, 15, 8, 5)));
    assert!(!a.contains(&bb(9, 15, 1, 1)));
    assert!(!a.contains(&bb(12, 15, 9, 1)));
    assert!(!a.contains(&bb(12, 15, 1, 6)));
    assert!(!a.contains(&bb(12, 9, 1, 1)));
}

#[test]
fn clamped_keeps_box_on_grid() {
    assert_eq!(BoundingBox::clamped(MAX_COORD - 5, 7, 100, 3), bb(MAX_COORD - 5, 7, 5, 3));
    assert_eq!(BoundingBox::clamped(4, MAX_COORD, 2, 9), bb(4, MAX_COORD, 2, 0));
    assert_eq!(BoundingBox::clamped(0, 0, u32::MAX, u32::MAX), bb(0, 0, MAX_COORD, MAX_COORD));
}

#[test]
fn random_boxes_stay_on_grid() {
    let mut rng = rand::thread_rng();
    for _ in 0..1000 {
        let b = BoundingBox::mk_random(&mut rng, 50);
        assert!(b.w < 50 && b.h < 50);
        assert!(b.x as u64 + b.w as u64 <= MAX_COORD as u64);
        assert!(b.y as u64 + b.h as u64 <= MAX_COORD as u64);
    }
}

#[test]
fn key_bytes_are_big_endian() {
    let k = DbKey { quadkey: 0x0102_0304_0506_0708, entity: 0x090a };
    assert_eq!(k.to_bytes(), vec![1, 2, 3, 4, 5, 6, 7, 8, 9, 10]);
    let lo = DbKey { quadkey: 0x00ff, entity: 0xffff }.to_bytes();
    let hi = DbKey { quadkey: 0x0100, entity: 0 }.to_bytes();
    assert!(lo < hi);
    let e1 = DbKey { quadkey: 0x00ff, entity: 1 }.to_bytes();
    let e2 = DbKey { quadkey: 0x00ff, entity: 0x0100 }.to_bytes();
    assert!(e1 < e2 && e2 < lo);
}

#[test]
fn value_bytes_are_little_endian() {
    let v = DbValue { bbox: bb(0x0403_0201, 5, 0x0100, 0xff), is_black: 7 };
    assert_eq!(
        v.to_bytes(),
        vec![1, 2, 3, 4, 5, 0, 0, 0, 0, 1, 0, 0, 0xff, 0, 0, 0, 7]
    );
}

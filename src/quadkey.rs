use vstd::prelude::*;
use rand::distributions::{Distribution, Uniform};
use vstd::arithmetic::power2::*;
use vstd::bits::*;
use vstd::arithmetic::div_mod::{
    lemma_fundamental_div_mod, lemma_fundamental_div_mod_converse, lemma_multiply_divide_lt,
};

verus! {

/// Largest coordinate of the grid: the grid has `MAX_COORD + 1 == 2^29` cells per side.
pub const MAX_COORD: u32 = 0x1fff_ffff;

/// Number of quadtree levels below the whole grid.
pub const LEVELS: u32 = 29;

/// The closed rectangle `[x, x + w] × [y, y + h]`.
#[derive(Clone, Copy, Debug, PartialEq, Eq, Structural)]
pub struct BoundingBox {
    pub x: u32,
    pub y: u32,
    pub w: u32,
    pub h: u32,
}

impl BoundingBox {
    /// The box lies on the grid.
    pub open spec fn valid(self) -> bool {
        self.x + self.w <= MAX_COORD && self.y + self.h <= MAX_COORD
    }

    /// `self` is a superset of `o` on both axes.
    pub open spec fn contains_spec(self, o: BoundingBox) -> bool {
        &&& self.x <= o.x
        &&& self.y <= o.y
        &&& self.x + self.w >= o.x + o.w
        &&& self.y + self.h >= o.y + o.h
    }

    /// Whether `bbox` lies inside `self`.
    pub fn contains(&self, bbox: &BoundingBox) -> (r: bool)
        ensures
            r == self.contains_spec(*bbox),
    {
        self.x <= bbox.x && self.y <= bbox.y && self.x as u64 + self.w as u64 >= bbox.x as u64
            + bbox.w as u64 && self.y as u64 + self.h as u64 >= bbox.y as u64 + bbox.h as u64
    }
}

#[verifier::external_type_specification]
#[verifier::external_body]
pub struct ExThreadRng(rand::rngs::ThreadRng);

/// Relies on rand's `Uniform::new(0, high)` and `Distribution::sample`: the
/// value drawn lies in `[0, high)`. `Uniform::new` panics when `high == 0`.
#[verifier::external_body]
fn sample_below(rng: &mut rand::rngs::ThreadRng, high: u32) -> (r: u32)
    requires
        0 < high,
    ensures
        r < high,
{
    Uniform::new(0, high).sample(rng)
}

impl BoundingBox {
    /// The box at `(x, y)` of size `w × h`, each size cut down so that the box
    /// stays on the grid.
    pub fn clamped(x: u32, y: u32, w: u32, h: u32) -> (r: BoundingBox)
        requires
            x <= MAX_COORD,
            y <= MAX_COORD,
        ensures
            r.x == x,
            r.y == y,
            r.w == (if x + w > MAX_COORD { MAX_COORD - x } else { w as int }),
            r.h == (if y + h > MAX_COORD { MAX_COORD - y } else { h as int }),
            r.valid(),
    {
        let w = if w > MAX_COORD - x { MAX_COORD - x } else { w };
        let h = if h > MAX_COORD - y { MAX_COORD - y } else { h };
        BoundingBox { x, y, w, h }
    }

    /// A box at a random grid position, with a random width and height below
    /// `max_size`, cut down to stay on the grid.
    pub fn mk_random(rng: &mut rand::rngs::ThreadRng, max_size: u32) -> (r: BoundingBox)
        requires
            0 < max_size,
        ensures
            r.valid(),
            r.w < max_size,
            r.h < max_size,
    {
        let max: u32 = MAX_COORD + 1;
        let x = sample_below(rng, max);
        let y = sample_below(rng, max);
        let w = sample_below(rng, max_size);
        let h = sample_below(rng, max_size);
        BoundingBox::clamped(x, y, w, h)
    }
}

/// Index, along one axis, of the cell of zoom `z` that holds coordinate `v`.
pub open spec fn cell(v: int, z: nat) -> int {
    v / pow2((LEVELS - z) as nat) as int
}

/// Both corners of `b` fall in one cell of zoom `z`.
pub open spec fn same_cell(b: BoundingBox, z: nat) -> bool {
    &&& cell(b.x as int, z) == cell(b.x + b.w, z)
    &&& cell(b.y as int, z) == cell(b.y + b.h, z)
}

/// Descends from zoom `z` while both corners of `b` stay in one cell.
pub open spec fn descend(b: BoundingBox, z: nat) -> nat
    decreases LEVELS - z,
{
    if z < LEVELS && same_cell(b, z + 1) {
        descend(b, z + 1)
    } else {
        z
    }
}

/// Zoom of the smallest quadtree cell that holds `b`.
pub open spec fn zoom_of(b: BoundingBox) -> nat {
    descend(b, 0)
}

/// Z-order code of the cell `(cx, cy)` at zoom `z`: `2 z` bits, the x bit before
/// the y bit at each level, the coarsest level first.
pub open spec fn morton(cx: int, cy: int, z: nat) -> int
    decreases z,
{
    if z == 0 {
        0
    } else {
        morton(cx / 2, cy / 2, (z - 1) as nat) * 4 + (cx % 2) * 2 + cy % 2
    }
}

/// The quadkey of `b`: the code of its smallest enclosing cell in the high
/// `2 z` bits, the zoom `z` in the low bits.
pub open spec fn quadkey_of(b: BoundingBox) -> int {
    let z = zoom_of(b);
    morton(cell(b.x as int, z), cell(b.y as int, z), z) * pow2((64 - 2 * z) as nat) + z
}

/// A quadkey whose low six bits hold a zoom of at most 29.
pub open spec fn key_ok(k: int) -> bool {
    0 <= k && k % 64 <= LEVELS
}

/// Zoom stored in the low six bits of a quadkey.
pub open spec fn key_zoom(k: int) -> nat {
    (k % 64) as nat
}

/// The `2 z`-bit code stored in the high bits of a quadkey of zoom `z`.
pub open spec fn key_code(k: int) -> int {
    k / pow2((64 - 2 * key_zoom(k)) as nat) as int
}

/// The x index held in the odd-numbered bits (counting from the low end) of
/// the `2 z`-bit code `c`.
pub open spec fn unmix_x(c: int, z: nat) -> int
    decreases z,
{
    if z == 0 {
        0
    } else {
        unmix_x(c / 4, (z - 1) as nat) * 2 + (c / 2) % 2
    }
}

/// The y index held in the even-numbered bits of the `2 z`-bit code `c`.
pub open spec fn unmix_y(c: int, z: nat) -> int
    decreases z,
{
    if z == 0 {
        0
    } else {
        unmix_y(c / 4, (z - 1) as nat) * 2 + c % 2
    }
}

/// Side, in grid units, of the cell that quadkey `k` names.
pub open spec fn key_side(k: int) -> int {
    pow2((LEVELS - key_zoom(k)) as nat) as int
}

/// Lowest x coordinate of the cell that quadkey `k` names.
pub open spec fn key_x(k: int) -> int {
    unmix_x(key_code(k), key_zoom(k)) * key_side(k)
}

/// Lowest y coordinate of the cell that quadkey `k` names.
pub open spec fn key_y(k: int) -> int {
    unmix_y(key_code(k), key_zoom(k)) * key_side(k)
}

/// The square cell that quadkey `k` names, as a box.
pub open spec fn key_box(k: int) -> BoundingBox {
    BoundingBox {
        x: key_x(k) as u32,
        y: key_y(k) as u32,
        w: (key_side(k) - 1) as u32,
        h: (key_side(k) - 1) as u32,
    }
}

/// A stored key: the quadkey, and a counter that tells apart the boxes that
/// share it.
#[derive(Clone, Copy, Debug, PartialEq, Eq, Structural)]
pub struct DbKey {
    pub quadkey: u64,
    pub entity: u16,
}

/// A stored value: the box itself and a byte left to the caller.
#[derive(Clone, Copy, Debug, PartialEq, Eq, Structural)]
pub struct DbValue {
    pub bbox: BoundingBox,
    pub is_black: u8,
}

impl DbKey {
    /// The key of the smallest quadtree cell that holds `bbox`, with entity 0.
    pub fn from_bbox(bbox: &BoundingBox) -> (k: DbKey)
        requires
            bbox.valid(),
        ensures
            k.quadkey == quadkey_of(*bbox),
            k.entity == 0,
    {
        let x1 = bbox.x;
        let y1 = bbox.y;
        let x2 = x1 + bbox.w;
        let y2 = y1 + bbox.h;
        let ghost b = *bbox;
        let mut code: u64 = 0;
        let mut zoom: u32 = 0;
        proof {
            lemma_top_cell(x1);
            lemma_top_cell(x2);
            lemma_top_cell(y1);
            lemma_top_cell(y2);
            lemma_descend_ge(b, 0);
        }
        while zoom < LEVELS
            invariant
                zoom <= LEVELS,
                x2 == b.x + b.w,
                y2 == b.y + b.h,
                x1 == b.x,
                y1 == b.y,
                same_cell(b, zoom as nat),
                descend(b, zoom as nat) == zoom_of(b),
                code as int == morton(cell(x1 as int, zoom as nat), cell(y1 as int, zoom as nat), zoom as nat),
            ensures
                zoom <= LEVELS,
                zoom == zoom_of(b),
                code as int == morton(cell(x1 as int, zoom as nat), cell(y1 as int, zoom as nat), zoom as nat),
            decreases LEVELS - zoom,
        {
            let shift: u32 = 28 - zoom;
            proof {
                lemma_cell_is_shift(x1, zoom as nat);
                lemma_cell_is_shift(x2, zoom as nat);
                lemma_cell_is_shift(y1, zoom as nat);
                lemma_cell_is_shift(y2, zoom as nat);
                lemma_cell_is_shift(x1, zoom as nat + 1);
                lemma_cell_is_shift(x2, zoom as nat + 1);
                lemma_cell_is_shift(y1, zoom as nat + 1);
                lemma_cell_is_shift(y2, zoom as nat + 1);
                lemma_next_bit(x1, x2, shift, (shift + 1) as u32);
                lemma_next_bit(y1, y2, shift, (shift + 1) as u32);
            }
            let x1_b = ((x1 >> shift) & 1) == 1;
            let y1_b = ((y1 >> shift) & 1) == 1;
            let x2_b = ((x2 >> shift) & 1) == 1;
            let y2_b = ((y2 >> shift) & 1) == 1;
            if x1_b != x2_b || y1_b != y2_b {
                break;
            }
            proof {
                lemma_morton_bound(cell(x1 as int, zoom as nat), cell(y1 as int, zoom as nat), zoom as nat);
                lemma_pow2_bound_for_code(zoom as nat);
                lemma2_to64_rest();
            }
            code = code * 4;
            if x1_b {
                code = code + 2;
            }
            if y1_b {
                code = code + 1;
            }
            zoom = zoom + 1;
        }
        proof {
            lemma_morton_bound(cell(x1 as int, zoom as nat), cell(y1 as int, zoom as nat), zoom as nat);
        }
        let key = pack(code, zoom);
        DbKey { quadkey: key, entity: 0 }
    }

    /// The square cell that the quadkey names.
    pub fn to_bbox(&self) -> (r: BoundingBox)
        requires
            key_ok(self.quadkey as int),
        ensures
            r.x == key_x(self.quadkey as int),
            r.y == key_y(self.quadkey as int),
            r.w == key_side(self.quadkey as int) - 1,
            r.h == key_side(self.quadkey as int) - 1,
            r == key_box(self.quadkey as int),
            r.valid(),
    {
        let k = self.quadkey;
        assert(k & 63 == k % 64) by (bit_vector);
        let zoom: u32 = (k & 63) as u32;
        let mut x: u32 = 0;
        let mut y: u32 = 0;
        let mut bit: u32 = 0;
        proof {
            lemma2_to64();
        }
        while bit < zoom
            invariant
                bit <= zoom <= LEVELS,
                zoom == key_zoom(k as int),
                x == unmix_x(k as int / pow2((64 - 2 * bit) as nat) as int, bit as nat),
                y == unmix_y(k as int / pow2((64 - 2 * bit) as nat) as int, bit as nat),
                x < pow2(bit as nat),
                y < pow2(bit as nat),
            decreases zoom - bit,
        {
            let c: u64 = k >> ((62 - 2 * bit) as u64);
            proof {
                lemma_u64_shr_is_div(k, (62 - 2 * bit) as u64);
                lemma_code_step(k as int, bit as nat);
                assert((c >> 1u64) & 1 == (c / 2) % 2) by (bit_vector);
                assert(c & 1 == c % 2) by (bit_vector);
                lemma_pow2_unfold(bit as nat + 1);
                lemma_u32_pow2_no_overflow(bit as nat + 1);
            }
            x = x * 2 + ((c >> 1u64) & 1) as u32;
            y = y * 2 + (c & 1) as u32;
            bit = bit + 1;
        }
        let s: u32 = LEVELS - zoom;
        proof {
            lemma_u32_pow2_no_overflow(s as nat);
            lemma_pow2_adds(zoom as nat, s as nat);
            lemma_fits_grid(x as int, zoom as nat);
            lemma_fits_grid(y as int, zoom as nat);
            lemma_u32_shl_is_mul(x, s);
            lemma_u32_shl_is_mul(y, s);
            lemma_u32_shl_is_mul(1, s);
            lemma_u64_shr_is_div(k, 0);
        }
        let side: u32 = 1u32 << s;
        let r = BoundingBox { x: x << s, y: y << s, w: side - 1, h: side - 1 };
        r
    }
}

proof fn lemma_pow2_bound_for_code(z: nat)
    requires
        z < LEVELS,
    ensures
        pow2(2 * z) * 4 <= pow2(58),
{
    lemma_pow2_adds(2 * z, 2);
    lemma_pow2_adds(2 * z + 2, (56 - 2 * z) as nat);
    lemma_pow2_pos((56 - 2 * z) as nat);
    lemma2_to64();
    assert(pow2(2 * z) * 4 <= pow2(2 * z) * 4 * pow2((56 - 2 * z) as nat)) by (nonlinear_arith)
        requires
            pow2((56 - 2 * z) as nat) >= 1,
    ;
}

/// Puts the `2 zoom`-bit `code` in the high bits of a word and `zoom` in the low bits.
fn pack(code: u64, zoom: u32) -> (k: u64)
    requires
        zoom <= LEVELS,
        code < pow2(2 * zoom as nat),
    ensures
        k == code * pow2((64 - 2 * zoom) as nat) + zoom,
{
    let s: u32 = 64 - 2 * zoom;
    if zoom == 0 {
        proof {
            lemma2_to64();
        }
        0
    } else {
        proof {
            lemma_pack_fits(code as int, zoom as nat);
            lemma_u64_shl_is_mul(code, s as u64);
        }
        (code << (s as u64)) + zoom as u64
    }
}

proof fn lemma_pack_fits(code: int, z: nat)
    requires
        0 < z <= 29,
        0 <= code < pow2(2 * z),
    ensures
        code * pow2((64 - 2 * z) as nat) + z <= u64::MAX,
{
    let p = pow2((64 - 2 * z) as nat);
    lemma_pow2_adds(2 * z, (64 - 2 * z) as nat);
    lemma_pow2_adds(6, (58 - 2 * z) as nat);
    lemma_pow2_pos((58 - 2 * z) as nat);
    lemma2_to64();
    lemma2_to64_rest();
    assert(code * p <= (pow2(2 * z) - 1) * p) by (nonlinear_arith)
        requires
            code <= pow2(2 * z) - 1,
            p > 0,
    ;
    assert((pow2(2 * z) - 1) * p == pow2(2 * z) * p - p) by (nonlinear_arith);
}

proof fn lemma_code_step(k: int, bit: nat)
    requires
        0 <= k,
        bit < 31,
    ensures
        (k / pow2((62 - 2 * bit) as nat) as int) / 4 == k / pow2((64 - 2 * bit) as nat) as int,
{
    lemma_pow2_pos((62 - 2 * bit) as nat);
    lemma_pow2_adds((62 - 2 * bit) as nat, 2);
    lemma2_to64();
    vstd::arithmetic::div_mod::lemma_div_denominator(k, pow2((62 - 2 * bit) as nat) as int, 4);
}

/// A cell index below `2^z`, scaled to zoom `z`'s cell side, stays on the grid
/// together with that side.
proof fn lemma_fits_grid(c: int, z: nat)
    requires
        z <= LEVELS,
        0 <= c < pow2(z),
    ensures
        c * pow2((LEVELS - z) as nat) + pow2((LEVELS - z) as nat) - 1 <= MAX_COORD,
{
    let p = pow2((LEVELS - z) as nat);
    lemma_pow2_adds(z, (LEVELS - z) as nat);
    lemma2_to64();
    assert(c * p + p <= pow2(z) * p) by (nonlinear_arith)
        requires
            c + 1 <= pow2(z),
            p >= 0,
    ;
}

/// Every box on the grid lies inside the cell that its key names.
pub proof fn lemma_round_trip_contains(b: BoundingBox)
    requires
        b.valid(),
    ensures
        0 <= quadkey_of(b) <= u64::MAX,
        key_ok(quadkey_of(b)),
        key_box(quadkey_of(b)).contains_spec(b),
{
    let z = zoom_of(b);
    let cx = cell(b.x as int, z);
    let cy = cell(b.y as int, z);
    let m = morton(cx, cy, z);
    let side = pow2((LEVELS - z) as nat) as int;
    lemma_top_cell(b.x);
    lemma_top_cell(b.y);
    lemma_top_cell((b.x + b.w) as u32);
    lemma_top_cell((b.y + b.h) as u32);
    lemma_descend_ge(b, 0);
    lemma_descend_same(b, 0);
    lemma_morton_bound(cx, cy, z);
    lemma_key_fields(m, z);
    lemma_pow2_pos((LEVELS - z) as nat);
    lemma_cell_below(b.x, z);
    lemma_cell_below(b.y, z);
    lemma_unmix_morton(cx, cy, z);
    lemma_fundamental_div_mod(b.x as int, side);
    lemma_fundamental_div_mod(b.y as int, side);
    lemma_fundamental_div_mod(b.x + b.w, side);
    lemma_fundamental_div_mod(b.y + b.h, side);
    lemma_fits_grid(cx, z);
    lemma_fits_grid(cy, z);
    vstd::arithmetic::mul::lemma_mul_is_commutative(side, cx);
    vstd::arithmetic::mul::lemma_mul_is_commutative(side, cy);
}

/// Every cell that a key names is a square.
pub proof fn lemma_decoded_cell_is_square(k: u64)
    requires
        key_ok(k as int),
    ensures
        key_box(k as int).w == key_box(k as int).h,
{
}

/// The cell that a box's key names is the finest that holds the box: both
/// corners share a cell at its zoom, and at no finer zoom.
pub proof fn lemma_zoom_is_finest(b: BoundingBox)
    requires
        b.valid(),
    ensures
        zoom_of(b) <= LEVELS,
        same_cell(b, zoom_of(b)),
        forall|z: nat| zoom_of(b) < z <= LEVELS ==> !#[trigger] same_cell(b, z),
{
    lemma_top_cell(b.x);
    lemma_top_cell(b.y);
    lemma_top_cell((b.x + b.w) as u32);
    lemma_top_cell((b.y + b.h) as u32);
    lemma_descend_ge(b, 0);
    lemma_descend_same(b, 0);
    lemma_descend_stops(b, 0);
    assert forall|z: nat| zoom_of(b) < z <= LEVELS implies !#[trigger] same_cell(b, z) by {
        lemma_split_stays_split(b, zoom_of(b) + 1, z);
    }
}

/// Descending stops at the last zoom, or where the corners part.
proof fn lemma_descend_stops(b: BoundingBox, z: nat)
    requires
        z <= LEVELS,
    ensures
        descend(b, z) == LEVELS || !same_cell(b, descend(b, z) + 1),
    decreases LEVELS - z,
{
    if z < LEVELS && same_cell(b, z + 1) {
        lemma_descend_stops(b, z + 1);
    }
}

/// Corners in different cells at zoom `z` are in different cells at every
/// finer zoom.
proof fn lemma_split_stays_split(b: BoundingBox, z: nat, z2: nat)
    requires
        b.valid(),
        z <= z2 <= LEVELS,
        !same_cell(b, z),
    ensures
        !same_cell(b, z2),
{
    let d = (z2 - z) as nat;
    assert(z + d == z2);
    lemma_cell_coarser(b.x, z, d);
    lemma_cell_coarser(b.y, z, d);
    lemma_cell_coarser((b.x + b.w) as u32, z, d);
    lemma_cell_coarser((b.y + b.h) as u32, z, d);
}

/// A box inside another box gets a zoom at least as fine as the outer box.
pub proof fn lemma_zoom_monotonic(a: BoundingBox, b: BoundingBox)
    requires
        a.valid(),
        b.valid(),
        a.contains_spec(b),
    ensures
        zoom_of(a) <= zoom_of(b),
{
    lemma_descend_monotonic(a, b, 0);
}

/// The key of a box inside another box starts with the outer box's key: the
/// high `2 z` bits agree, where `z` is the outer box's zoom. In particular the
/// key of a quadtree cell is a prefix of the keys of all its descendants.
pub proof fn lemma_key_prefix(a: BoundingBox, b: BoundingBox)
    requires
        a.valid(),
        b.valid(),
        a.contains_spec(b),
    ensures
        quadkey_of(a) / pow2((64 - 2 * zoom_of(a)) as nat) as int == quadkey_of(b) / pow2(
            (64 - 2 * zoom_of(a)) as nat,
        ) as int,
{
    let za = zoom_of(a);
    let zb = zoom_of(b);
    let d = (zb - za) as nat;
    lemma_zoom_monotonic(a, b);
    lemma_descend_ge(a, 0);
    lemma_descend_ge(b, 0);
    lemma_top_cell(a.x);
    lemma_top_cell(a.y);
    lemma_top_cell((a.x + a.w) as u32);
    lemma_top_cell((a.y + a.h) as u32);
    lemma_descend_same(a, 0);
    let ma = morton(cell(a.x as int, za), cell(a.y as int, za), za);
    let bx = cell(b.x as int, zb);
    let by = cell(b.y as int, zb);
    let mb = morton(bx, by, zb);
    lemma_cell_below(a.x, za);
    lemma_cell_below(a.y, za);
    lemma_cell_below(b.x, zb);
    lemma_cell_below(b.y, zb);
    lemma_morton_bound(cell(a.x as int, za), cell(a.y as int, za), za);
    lemma_morton_bound(bx, by, zb);
    lemma_key_fields(ma, za);
    lemma_key_fields(mb, zb);
    let pb = pow2((64 - 2 * zb) as nat) as int;
    let qb = quadkey_of(b);
    // qb / 2^(64 - 2 za) == (qb / 2^(64 - 2 zb)) / 4^d
    lemma_pow2_adds((64 - 2 * zb) as nat, 2 * d);
    lemma_pow2_pos((64 - 2 * zb) as nat);
    lemma_pow2_pos(2 * d);
    vstd::arithmetic::div_mod::lemma_div_denominator(qb, pb, pow2(2 * d) as int);
    lemma_morton_prefix(bx, by, za, d);
    lemma_cell_coarser(b.x, za, d);
    lemma_cell_coarser(b.y, za, d);
    lemma_cell_between(a.x as int, b.x as int, a.x + a.w, za);
    lemma_cell_between(a.y as int, b.y as int, a.y + a.h, za);
}

/// Halving a cell index `d` times gives the index of the cell `d` levels up.
proof fn lemma_cell_coarser(v: u32, z: nat, d: nat)
    requires
        z + d <= LEVELS,
    ensures
        cell(v as int, z + d) / pow2(d) as int == cell(v as int, z),
{
    lemma_pow2_pos((LEVELS - z - d) as nat);
    lemma_pow2_pos(d);
    lemma_pow2_adds((LEVELS - z - d) as nat, d);
    vstd::arithmetic::div_mod::lemma_div_denominator(
        v as int,
        pow2((LEVELS - z - d) as nat) as int,
        pow2(d) as int,
    );
}

/// A coordinate between two coordinates of one cell lies in that cell.
proof fn lemma_cell_between(lo: int, v: int, hi: int, z: nat)
    requires
        0 <= lo <= v <= hi,
        cell(lo, z) == cell(hi, z),
    ensures
        cell(v, z) == cell(lo, z),
{
    lemma_pow2_pos((LEVELS - z) as nat);
    vstd::arithmetic::div_mod::lemma_div_is_ordered(lo, v, pow2((LEVELS - z) as nat) as int);
    vstd::arithmetic::div_mod::lemma_div_is_ordered(v, hi, pow2((LEVELS - z) as nat) as int);
}

/// Dropping the last `d` levels of a Z-order code gives the code of the
/// cell `d` levels up.
proof fn lemma_morton_prefix(cx: int, cy: int, z: nat, d: nat)
    requires
        0 <= cx,
        0 <= cy,
    ensures
        morton(cx, cy, z + d) / pow2(2 * d) as int == morton(
            cx / pow2(d) as int,
            cy / pow2(d) as int,
            z,
        ),
    decreases d,
{
    reveal(pow2);
    if d == 0 {
        lemma2_to64();
        vstd::arithmetic::div_mod::lemma_div_basics(cx);
        vstd::arithmetic::div_mod::lemma_div_basics(cy);
        vstd::arithmetic::div_mod::lemma_div_basics(morton(cx, cy, z));
    } else {
        let m = morton(cx / 2, cy / 2, (z + d - 1) as nat);
        lemma_morton_bound(cx / 2, cy / 2, (z + d - 1) as nat);
        lemma_fundamental_div_mod_converse(
            morton(cx, cy, z + d),
            4,
            m,
            (cx % 2) * 2 + cy % 2,
        );
        lemma_pow2_adds(2, 2 * (d - 1) as nat);
        lemma_pow2_pos(2 * (d - 1) as nat);
        lemma2_to64();
        vstd::arithmetic::div_mod::lemma_div_denominator(
            morton(cx, cy, z + d),
            4,
            pow2(2 * (d - 1) as nat) as int,
        );
        assert(pow2(2 * d) == 4 * pow2(2 * (d - 1) as nat));
        lemma_morton_prefix(cx / 2, cy / 2, z, (d - 1) as nat);
        lemma_pow2_unfold(d);
        lemma_pow2_pos((d - 1) as nat);
        vstd::arithmetic::div_mod::lemma_div_denominator(cx, 2, pow2((d - 1) as nat) as int);
        vstd::arithmetic::div_mod::lemma_div_denominator(cy, 2, pow2((d - 1) as nat) as int);
        assert(z + d - 1 == z + (d - 1) as nat);
    }
}

/// A box inside another box descends at least as far from any zoom.
proof fn lemma_descend_monotonic(a: BoundingBox, b: BoundingBox, z: nat)
    requires
        z <= LEVELS,
        a.contains_spec(b),
    ensures
        descend(a, z) <= descend(b, z),
    decreases LEVELS - z,
{
    lemma_descend_ge(b, z);
    if z < LEVELS && same_cell(a, z + 1) {
        lemma_cell_between(a.x as int, b.x as int, a.x + a.w, z + 1);
        lemma_cell_between(a.x as int, b.x + b.w, a.x + a.w, z + 1);
        lemma_cell_between(a.y as int, b.y as int, a.y + a.h, z + 1);
        lemma_cell_between(a.y as int, b.y + b.h, a.y + a.h, z + 1);
        lemma_descend_monotonic(a, b, z + 1);
    }
}

/// The low six bits and the high bits of a packed key give back zoom and code.
proof fn lemma_key_fields(m: int, z: nat)
    requires
        z <= LEVELS,
        0 <= m < pow2(2 * z),
    ensures
        0 <= m * pow2((64 - 2 * z) as nat) + z <= u64::MAX,
        key_zoom(m * pow2((64 - 2 * z) as nat) + z) == z,
        key_code(m * pow2((64 - 2 * z) as nat) + z) == m,
{
    let p = pow2((64 - 2 * z) as nat) as int;
    let k = m * p + z;
    let q = pow2((58 - 2 * z) as nat) as int;
    lemma_pow2_adds(6, (58 - 2 * z) as nat);
    lemma_pow2_pos((58 - 2 * z) as nat);
    lemma2_to64();
    assert(p >= 64) by (nonlinear_arith)
        requires
            p == 64 * q,
            q >= 1,
    ;
    if z > 0 {
        lemma_pack_fits(m, z);
    } else {
        assert(m == 0);
        assert(k == 0);
    }
    assert(k == (m * q) * 64 + z) by (nonlinear_arith)
        requires
            k == m * p + z,
            p == 64 * q,
    ;
    assert(m * q >= 0) by (nonlinear_arith)
        requires
            m >= 0,
            q >= 1,
    ;
    lemma_fundamental_div_mod_converse(k, 64, m * q, z as int);
    lemma_fundamental_div_mod_converse(k, p, m, z as int);
}

/// Descending keeps both corners in one cell.
proof fn lemma_descend_same(b: BoundingBox, z: nat)
    requires
        z <= LEVELS,
        same_cell(b, z),
    ensures
        same_cell(b, descend(b, z)),
    decreases LEVELS - z,
{
    if z < LEVELS && same_cell(b, z + 1) {
        lemma_descend_same(b, z + 1);
    }
}

/// The cell index of a grid coordinate at zoom `z` is below `2^z`.
proof fn lemma_cell_below(v: u32, z: nat)
    requires
        v <= MAX_COORD,
        z <= LEVELS,
    ensures
        0 <= cell(v as int, z) < pow2(z),
{
    let p = pow2((LEVELS - z) as nat) as int;
    lemma_pow2_adds((LEVELS - z) as nat, z);
    lemma_pow2_pos((LEVELS - z) as nat);
    lemma2_to64();
    lemma_multiply_divide_lt(v as int, p, pow2(z) as int);
    vstd::arithmetic::div_mod::lemma_div_pos_is_pos(v as int, p);
}

/// Unmixing a Z-order code gives back both cell indices.
proof fn lemma_unmix_morton(cx: int, cy: int, z: nat)
    requires
        0 <= cx < pow2(z),
        0 <= cy < pow2(z),
    ensures
        unmix_x(morton(cx, cy, z), z) == cx,
        unmix_y(morton(cx, cy, z), z) == cy,
    decreases z,
{
    reveal(pow2);
    if z > 0 {
        let m = morton(cx / 2, cy / 2, (z - 1) as nat);
        let c = morton(cx, cy, z);
        lemma_pow2_unfold(z);
        lemma_multiply_divide_lt(cx, 2, pow2((z - 1) as nat) as int);
        lemma_multiply_divide_lt(cy, 2, pow2((z - 1) as nat) as int);
        lemma_unmix_morton(cx / 2, cy / 2, (z - 1) as nat);
        lemma_morton_bound(cx / 2, cy / 2, (z - 1) as nat);
        lemma_fundamental_div_mod_converse(c, 4, m, (cx % 2) * 2 + cy % 2);
        lemma_fundamental_div_mod_converse(c, 2, m * 2 + cx % 2, cy % 2);
        lemma_fundamental_div_mod_converse(m * 2 + cx % 2, 2, m, cx % 2);
    } else {
        lemma2_to64();
    }
}

proof fn lemma_cell_is_shift(v: u32, z: nat)
    requires
        z <= LEVELS,
    ensures
        (v >> ((LEVELS - z) as u32)) as int == cell(v as int, z),
{
    lemma_u32_shr_is_div(v, (LEVELS - z) as u32);
}

proof fn lemma_next_bit(a: u32, b: u32, s: u32, t: u32)
    requires
        s < 29,
        t == s + 1,
        a >> t == b >> t,
    ensures
        (((a >> s) & 1) == ((b >> s) & 1)) == ((a >> s) == (b >> s)),
        ((a >> s) & 1) == (a >> s) % 2,
        ((b >> s) & 1) == (b >> s) % 2,
        (a >> s) / 2 == a >> t,
{
    assert((((a >> s) & 1) == ((b >> s) & 1)) == ((a >> s) == (b >> s))) by (bit_vector)
        requires
            s < 29,
            t == s + 1,
            a >> t == b >> t,
    ;
    assert(((a >> s) & 1) == (a >> s) % 2) by (bit_vector);
    assert(((b >> s) & 1) == (b >> s) % 2) by (bit_vector);
    assert((a >> s) / 2 == a >> t) by (bit_vector)
        requires
            s < 29,
            t == s + 1,
    ;
}

proof fn lemma_morton_bound(cx: int, cy: int, z: nat)
    ensures
        0 <= morton(cx, cy, z) < pow2(2 * z),
    decreases z,
{
    reveal(pow2);
    if z > 0 {
        lemma_morton_bound(cx / 2, cy / 2, (z - 1) as nat);
        lemma_pow2_adds(2 * (z - 1) as nat, 2);
        lemma2_to64();
    } else {
        lemma2_to64();
    }
}

proof fn lemma_descend_ge(b: BoundingBox, z: nat)
    requires
        z <= LEVELS,
    ensures
        z <= descend(b, z) <= LEVELS,
    decreases LEVELS - z,
{
    if z < LEVELS && same_cell(b, z + 1) {
        lemma_descend_ge(b, z + 1);
    }
}

proof fn lemma_top_cell(v: u32)
    requires
        v <= MAX_COORD,
    ensures
        cell(v as int, 0) == 0,
{
    lemma_cell_is_shift(v, 0);
    assert(v >> 29u32 == 0) by (bit_vector)
        requires
            v <= 0x1fff_ffff,
    ;
}

} // verus!

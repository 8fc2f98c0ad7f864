//! Chunk keying: the unit of subscription and therefore the unit of cost.
//! `CHUNK_SIZE` is declared exactly once, here.

use vstd::prelude::*;
use super::collision::Rect;

verus! {

/// Tiles per chunk edge, on a single floor.
pub const CHUNK_SIZE: i32 = 32;

/// Bit widths of `chunk_key`'s three packed fields. 24+24+8 = 56 of 64
/// bits; the remaining 8 are reserved and always zero.
pub const CHUNK_X_BITS: u64 = 24;
pub const CHUNK_Y_BITS: u64 = 24;
pub const FLOOR_BITS: u64 = 8;
pub const CHUNK_X_MASK: u64 = 0xff_ffff;
pub const CHUNK_Y_MASK: u64 = 0xff_ffff;
pub const FLOOR_MASK: u64 = 0xff;

/// The chunk coordinate of world coordinate `v`: floor division, so
/// negative coordinates chunk the same way positive ones do.
pub open spec fn spec_chunk_coord(v: int) -> int {
    v / 32
}

fn chunk_coord(v: i32) -> (c: i32)
    ensures
        c == spec_chunk_coord(v as int),
{
    assert(i32::MIN <= v / 32 <= i32::MAX) by (nonlinear_arith)
        requires
            i32::MIN <= v <= i32::MAX,
    ;
    match v.checked_div_euclid(CHUNK_SIZE) {
        Some(c) => c,
        None => 0,
    }
}

/// `chunk_key`'s bit layout: `[63:56] reserved=0 | [55:32] chunk_x (24-bit
/// two's complement) | [31:8] chunk_y (24-bit two's complement) | [7:0]
/// floor (8-bit two's complement)`.
pub open spec fn spec_pack(chunk_x: i32, chunk_y: i32, floor: i8) -> u64 {
    let cx = (chunk_x as i64 as u64) & CHUNK_X_MASK;
    let cy = (chunk_y as i64 as u64) & CHUNK_Y_MASK;
    let f = (floor as i64 as u64) & FLOOR_MASK;
    (cx << 32u64) | (cy << 8u64) | f
}

fn pack(chunk_x: i32, chunk_y: i32, floor: i8) -> (k: u64)
    ensures
        k == spec_pack(chunk_x, chunk_y, floor),
{
    let cx = (chunk_x as i64 as u64) & CHUNK_X_MASK;
    let cy = (chunk_y as i64 as u64) & CHUNK_Y_MASK;
    let f = (floor as i64 as u64) & FLOOR_MASK;
    (cx << 32u64) | (cy << 8u64) | f
}

/// The chunk key of world cell `(x, y, floor)`.
pub open spec fn spec_chunk_key(x: int, y: int, floor: i8) -> u64 {
    spec_pack(spec_chunk_coord(x) as i32, spec_chunk_coord(y) as i32, floor)
}

/// The chunk key for world cell `(x, y, floor)`: every spatially addressed
/// table carries this as a plain indexed column.
pub fn chunk_key(x: i32, y: i32, floor: i8) -> (k: u64)
    ensures
        k == spec_chunk_key(x as int, y as int, floor),
{
    pack(chunk_coord(x), chunk_coord(y), floor)
}

/// Sign-extends the low `bits`-wide two's complement field of `value`.
pub open spec fn spec_sign_extend(value: u64, bits: u64) -> i32 {
    (((value << ((64 - bits) as u64)) as i64) >> ((64 - bits) as u64)) as i32
}

fn sign_extend(value: u64, bits: u64) -> (r: i32)
    requires
        0 < bits <= 32,
    ensures
        r == spec_sign_extend(value, bits),
{
    let shift = 64 - bits;
    (((value << shift) as i64) >> shift) as i32
}

/// What [`unpack_chunk_key`] reads back from `key`.
pub open spec fn spec_unpack(key: u64) -> (i32, i32, i8) {
    (
        spec_sign_extend((key >> 32u64) & CHUNK_X_MASK, 24),
        spec_sign_extend((key >> 8u64) & CHUNK_Y_MASK, 24),
        (key & FLOOR_MASK) as u8 as i8,
    )
}

/// Inverse of [`chunk_key`]'s packing: the chunk coordinates and floor it
/// encodes.
pub fn unpack_chunk_key(key: u64) -> (r: (i32, i32, i8))
    ensures
        r == spec_unpack(key),
{
    let cx = sign_extend((key >> 32u64) & CHUNK_X_MASK, CHUNK_X_BITS);
    let cy = sign_extend((key >> 8u64) & CHUNK_Y_MASK, CHUNK_Y_BITS);
    let floor = (key & FLOOR_MASK) as u8 as i8;
    (cx, cy, floor)
}

/// The chunk-aligned end (exclusive) of the chunk containing `v`.
pub open spec fn spec_chunk_end(v: int) -> int {
    (v / 32) * 32 + 32
}

fn chunk_end(v: i32) -> (e: i64)
    ensures
        e == spec_chunk_end(v as int),
        v < e <= v + 32,
{
    let start = match (v as i64).checked_div_euclid(CHUNK_SIZE as i64) {
        Some(q) => q,
        None => 0,
    };
    assert(v - 32 < (v / 32) * 32 <= v) by (nonlinear_arith);
    start * 32 + 32
}

/// Whether `rect` lies entirely inside the single chunk
/// `chunk_key(rect.x0, rect.y0, floor)` names.
pub open spec fn spec_within_one_chunk(rect: Rect, floor: i8) -> bool {
    let key = spec_chunk_key(rect.x0 as int, rect.y0 as int, floor);
    &&& rect.spec_is_valid()
    &&& spec_chunk_key(rect.x1 - 1, rect.y0 as int, floor) == key
    &&& spec_chunk_key(rect.x0 as int, rect.y1 - 1, floor) == key
    &&& spec_chunk_key(rect.x1 - 1, rect.y1 - 1, floor) == key
}

/// Whether `rect` lies entirely inside the single chunk `chunk_key(rect.x0,
/// rect.y0, floor)` names -- the containment rule an ownership area must
/// satisfy.
pub fn rect_is_within_one_chunk(rect: Rect, floor: i8) -> (b: bool)
    ensures
        b == spec_within_one_chunk(rect, floor),
{
    if !rect.is_valid() {
        return false;
    }
    let key = chunk_key(rect.x0, rect.y0, floor);
    chunk_key(rect.x1 - 1, rect.y0, floor) == key && chunk_key(rect.x0, rect.y1 - 1, floor) == key
        && chunk_key(rect.x1 - 1, rect.y1 - 1, floor) == key
}

/// `p` lies in one chunk on both axes and inside `rect`.
pub open spec fn piece_ok(p: Rect, rect: Rect) -> bool {
    &&& p.spec_is_valid()
    &&& rect.x0 <= p.x0 && p.x1 <= rect.x1
    &&& rect.y0 <= p.y0 && p.y1 <= rect.y1
    &&& spec_chunk_coord(p.x0 as int) == spec_chunk_coord(p.x1 - 1)
    &&& spec_chunk_coord(p.y0 as int) == spec_chunk_coord(p.y1 - 1)
}

/// `pieces` partitions `rect` into chunk-aligned pieces, each paired with
/// the key of the chunk it lies in.
pub open spec fn partitions(pieces: Seq<(Rect, u64)>, rect: Rect, floor: i8) -> bool {
    &&& forall|i: int|
        0 <= i < pieces.len() ==> piece_ok(#[trigger] pieces[i].0, rect) && pieces[i].1
            == spec_chunk_key(pieces[i].0.x0 as int, pieces[i].0.y0 as int, floor)
    &&& forall|x: int, y: int|
        rect.spec_contains(x, y) ==> exists|i: int|
            0 <= i < pieces.len() && (#[trigger] pieces[i]).0.spec_contains(x, y)
    &&& forall|i: int, j: int|
        0 <= i < j < pieces.len() ==> !(#[trigger] pieces[i]).0.spec_overlaps(
            (#[trigger] pieces[j]).0,
        )
}

/// Splits `rect` into pieces aligned to chunk boundaries on `floor`, each
/// paired with the chunk key that names it. The pieces partition `rect`
/// exactly; an invalid `rect` gives no pieces.
pub fn clip_rect_to_chunks(rect: Rect, floor: i8) -> (pieces: Vec<(Rect, u64)>)
    ensures
        !rect.spec_is_valid() ==> pieces.len() == 0,
        rect.spec_is_valid() ==> partitions(pieces@, rect, floor),
{
    let mut pieces: Vec<(Rect, u64)> = Vec::new();
    if !rect.is_valid() {
        return pieces;
    }
    let mut y = rect.y0;
    while y < rect.y1
        invariant
            rect.spec_is_valid(),
            rect.y0 <= y <= rect.y1,
            forall|i: int|
                0 <= i < pieces.len() ==> piece_ok(#[trigger] pieces@[i].0, rect)
                    && pieces@[i].1 == spec_chunk_key(
                    pieces@[i].0.x0 as int,
                    pieces@[i].0.y0 as int,
                    floor,
                ) && pieces@[i].0.y1 <= y,
            forall|xx: int, yy: int|
                rect.spec_contains(xx, yy) && yy < y ==> exists|i: int|
                    0 <= i < pieces.len() && (#[trigger] pieces@[i]).0.spec_contains(xx, yy),
            forall|i: int, j: int|
                0 <= i < j < pieces.len() ==> !(#[trigger] pieces@[i]).0.spec_overlaps(
                    (#[trigger] pieces@[j]).0,
                ),
        decreases rect.y1 - y,
    {
        let ye = chunk_end(y);
        let y_end: i32 = if ye < rect.y1 as i64 { ye as i32 } else { rect.y1 };
        assert(spec_chunk_coord(y as int) == spec_chunk_coord(y_end - 1)) by (nonlinear_arith)
            requires
                y < y_end <= (y / 32) * 32 + 32,
        ;
        let ghost start = pieces.len();
        let mut x = rect.x0;
        while x < rect.x1
            invariant
                rect.spec_is_valid(),
                rect.y0 <= y < y_end <= rect.y1,
                spec_chunk_coord(y as int) == spec_chunk_coord(y_end - 1),
                rect.x0 <= x <= rect.x1,
                start <= pieces.len(),
                forall|i: int|
                    0 <= i < pieces.len() ==> piece_ok(#[trigger] pieces@[i].0, rect)
                        && pieces@[i].1 == spec_chunk_key(
                        pieces@[i].0.x0 as int,
                        pieces@[i].0.y0 as int,
                        floor,
                    ),
                forall|i: int| 0 <= i < start ==> (#[trigger] pieces@[i]).0.y1 <= y,
                forall|i: int|
                    start <= i < pieces.len() ==> (#[trigger] pieces@[i]).0.y0 == y
                        && pieces@[i].0.y1 == y_end && pieces@[i].0.x1 <= x,
                forall|xx: int, yy: int|
                    rect.spec_contains(xx, yy) && (yy < y || (y <= yy < y_end && xx < x))
                        ==> exists|i: int|
                        0 <= i < pieces.len() && (#[trigger] pieces@[i]).0.spec_contains(xx, yy),
                forall|i: int, j: int|
                    0 <= i < j < pieces.len() ==> !(#[trigger] pieces@[i]).0.spec_overlaps(
                        (#[trigger] pieces@[j]).0,
                    ),
            decreases rect.x1 - x,
        {
            let xe = chunk_end(x);
            let x_end: i32 = if xe < rect.x1 as i64 { xe as i32 } else { rect.x1 };
            assert(spec_chunk_coord(x as int) == spec_chunk_coord(x_end - 1)) by (nonlinear_arith)
                requires
                    x < x_end <= (x / 32) * 32 + 32,
            ;
            let piece = Rect { x0: x, y0: y, x1: x_end, y1: y_end };
            let key = chunk_key(x, y, floor);
            let ghost before = pieces@;
            pieces.push((piece, key));
            proof {
                let n = pieces.len() - 1;
                assert(pieces@[n as int] == (piece, key));
                assert forall|i: int, j: int|
                    0 <= i < j < pieces.len() implies !(#[trigger] pieces@[i]).0.spec_overlaps(
                        (#[trigger] pieces@[j]).0,
                    ) by {
                    if j == n {
                        assert(pieces@[i] == before[i]);
                        if i < start {
                            assert(before[i].0.y1 <= y);
                        } else {
                            assert(before[i].0.x1 <= x);
                        }
                    } else {
                        assert(pieces@[i] == before[i] && pieces@[j] == before[j]);
                    }
                }
                assert forall|xx: int, yy: int|
                    rect.spec_contains(xx, yy) && (yy < y || (y <= yy < y_end && xx < x_end))
                        implies exists|i: int|
                        0 <= i < pieces.len() && (#[trigger] pieces@[i]).0.spec_contains(xx, yy) by {
                    if yy < y || (y <= yy < y_end && xx < x) {
                        let i = choose|i: int|
                            0 <= i < before.len() && (#[trigger] before[i]).0.spec_contains(xx, yy);
                        assert(pieces@[i] == before[i]);
                    } else {
                        assert(pieces@[n as int].0.spec_contains(xx, yy));
                    }
                }
            }
            x = x_end;
        }
        proof {
            assert forall|xx: int, yy: int|
                rect.spec_contains(xx, yy) && yy < y_end implies exists|i: int|
                    0 <= i < pieces.len() && (#[trigger] pieces@[i]).0.spec_contains(xx, yy) by {
                assert(yy < y || (y <= yy < y_end && xx < x));
            }
            assert forall|i: int| 0 <= i < pieces.len() implies (#[trigger] pieces@[i]).0.y1 <= y_end by {
                if i < start {
                    assert(pieces@[i].0.y1 <= y);
                }
            }
        }
        y = y_end;
    }
    pieces
}


/// Unpacking a packed key reads back the chunk coordinates and floor it
/// was packed from, for coordinates that fit the 24-bit fields.
proof fn lemma_unpack_pack(cx: i32, cy: i32, f: i8)
    requires
        -0x80_0000 <= cx < 0x80_0000,
        -0x80_0000 <= cy < 0x80_0000,
    ensures
        spec_unpack(spec_pack(cx, cy, f)) == (cx, cy, f),
{
    let k = spec_pack(cx, cy, f);
    assert(k == ((((cx as i64 as u64) & 0xff_ffffu64) << 32u64) | (((cy as i64 as u64) & 0xff_ffffu64) << 8u64) | ((
    f as i64 as u64) & 0xffu64)));
    assert(((((((((cx as i64 as u64) & 0xff_ffffu64) << 32u64) | (((cy as i64 as u64) & 0xff_ffffu64) << 8u64) | ((
    f as i64 as u64) & 0xffu64)) >> 32u64) & 0xff_ffffu64) << 40u64) as i64 >> 40u64) as i32 == cx) by (bit_vector)
        requires
            -0x80_0000 <= cx < 0x80_0000,
    ;
    assert(((((((((cx as i64 as u64) & 0xff_ffffu64) << 32u64) | (((cy as i64 as u64) & 0xff_ffffu64) << 8u64) | ((
    f as i64 as u64) & 0xffu64)) >> 8u64) & 0xff_ffffu64) << 40u64) as i64 >> 40u64) as i32 == cy) by (bit_vector)
        requires
            -0x80_0000 <= cy < 0x80_0000,
    ;
    assert((((((cx as i64 as u64) & 0xff_ffffu64) << 32u64) | (((cy as i64 as u64) & 0xff_ffffu64) << 8u64) | ((
    f as i64 as u64) & 0xffu64)) & 0xffu64) as u8 as i8 == f) by (bit_vector);
}

/// Law: a chunk key names its cell's chunk and floor -- unpacking the key
/// of world cell `(x, y, floor)` gives back `(x div 32, y div 32, floor)`
/// (floor division), for every coordinate whose chunk fits the key's
/// 24-bit fields. So cells on different floors, or in different chunks,
/// never share a key.
pub proof fn lemma_chunk_key_round_trip(x: int, y: int, floor: i8)
    requires
        -0x1000_0000 <= x < 0x1000_0000,
        -0x1000_0000 <= y < 0x1000_0000,
    ensures
        spec_unpack(spec_chunk_key(x, y, floor)) == ((x / 32) as i32, (y / 32) as i32, floor),
{
    assert(-0x80_0000 <= x / 32 < 0x80_0000);
    assert(-0x80_0000 <= y / 32 < 0x80_0000);
    lemma_unpack_pack((x / 32) as i32, (y / 32) as i32, floor);
}

/// Law: cells on different floors never share a chunk key.
pub proof fn lemma_chunk_key_floor_apart(x1: int, y1: int, f1: i8, x2: int, y2: int, f2: i8)
    requires
        -0x1000_0000 <= x1 < 0x1000_0000,
        -0x1000_0000 <= y1 < 0x1000_0000,
        -0x1000_0000 <= x2 < 0x1000_0000,
        -0x1000_0000 <= y2 < 0x1000_0000,
        f1 != f2,
    ensures
        spec_chunk_key(x1, y1, f1) != spec_chunk_key(x2, y2, f2),
{
    lemma_chunk_key_round_trip(x1, y1, f1);
    lemma_chunk_key_round_trip(x2, y2, f2);
}

} // verus!

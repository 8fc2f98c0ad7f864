//! The dense one-bit-per-cell storage shared by the collision grid and the
//! walkability grid: bit `i` lives in word `i / 64` at position `i % 64`.

use vstd::prelude::*;
use super::collision::{Rect, spec_cell_index, cell_index, lemma_cell_index_bounds, lemma_cell_index_injective};

verus! {

/// Bit `i` of a word sequence.
pub open spec fn bit(words: Seq<u64>, i: int) -> bool {
    (words[i / 64] >> ((i % 64) as u64)) & 1u64 == 1u64
}

/// The number of words that hold `count` bits.
pub open spec fn spec_words_for(count: int) -> int {
    (count + 63) / 64
}

pub proof fn lemma_bit_set(w: u64, b: u64, k: u64)
    requires
        b < 64,
        k < 64,
    ensures
        ((w | (1u64 << b)) >> k) & 1u64 == (if k == b {
            1u64
        } else {
            (w >> k) & 1u64
        }),
{
    assert(((w | (1u64 << b)) >> k) & 1u64 == (if k == b {
        1u64
    } else {
        (w >> k) & 1u64
    })) by (bit_vector)
        requires
            b < 64,
            k < 64,
    ;
}

pub proof fn lemma_bit_zero(k: u64)
    requires
        k < 64,
    ensures
        (0u64 >> k) & 1u64 == 0u64,
{
    assert((0u64 >> k) & 1u64 == 0u64) by (bit_vector);
}

/// The number of words that hold `count` bits.
pub fn words_for(count: u64) -> (n: usize)
    requires
        count <= 0x1_0000_0000,
    ensures
        n == spec_words_for(count as int),
{
    ((count + 63) / 64) as usize
}

/// A word vector of `n` zeroes.
pub fn zero_words(n: usize) -> (v: Vec<u64>)
    ensures
        v.len() == n,
        forall|i: int| 0 <= i < n * 64 ==> !bit(v@, i),
{
    let mut v: Vec<u64> = Vec::new();
    let mut k: usize = 0;
    while k < n
        invariant
            k <= n,
            v.len() == k,
            forall|j: int| 0 <= j < k ==> v@[j] == 0u64,
        decreases n - k,
    {
        v.push(0u64);
        k += 1;
    }
    assert forall|i: int| 0 <= i < n * 64 implies !bit(v@, i) by {
        assert(0 <= i / 64 < n) by (nonlinear_arith)
            requires
                0 <= i < n * 64,
        ;
        lemma_bit_zero((i % 64) as u64);
    }
    v
}

/// Reads bit `idx`.
pub fn get_bit(words: &Vec<u64>, idx: usize) -> (b: bool)
    requires
        idx / 64 < words.len(),
    ensures
        b == bit(words@, idx as int),
{
    (words[idx / 64] >> ((idx % 64) as u64)) & 1u64 == 1u64
}

/// Sets bit `idx`, leaving every other bit unchanged.
pub fn set_bit(words: &mut Vec<u64>, idx: usize)
    requires
        idx / 64 < old(words).len(),
    ensures
        final(words).len() == old(words).len(),
        bit(final(words)@, idx as int),
        forall|i: int|
            0 <= i < old(words).len() * 64 && i != idx ==> bit(final(words)@, i) == bit(
                old(words)@,
                i,
            ),
{
    let w = idx / 64;
    let b = (idx % 64) as u64;
    let old_word = words[w];
    words.set(w, old_word | (1u64 << b));
    proof {
        lemma_bit_set(old_word, b, b);
        assert forall|i: int| 0 <= i < old(words).len() * 64 && i != idx implies bit(words@, i) == bit(old(words)@, i) by {
            let q = i / 64;
            let len = old(words).len() as int;
            assert(q < len) by (nonlinear_arith)
                requires
                    0 <= i < len * 64,
                    q == i / 64,
            ;
            let r = i % 64;
            assert(0 <= r < 64);
            if q == w {
                lemma_bit_set(old_word, b, r as u64);
                assert(i == 64 * q + r);
                assert(idx == 64 * (w as int) + (b as int));
                assert(r != b);
                assert(words@[q] == old_word | (1u64 << b));
            } else {
                assert(words@[q] == old(words)@[q]);
            }
        }
    }
}

/// Whether `c` (a collider, clipped to nothing in particular) covers cell
/// `(x, y)`.
pub open spec fn covers(c: Rect, x: int, y: int) -> bool {
    c.spec_contains(x, y)
}

/// Whether some rect of `cs` covers `(x, y)`.
pub open spec fn any_covers(cs: Seq<Rect>, x: int, y: int) -> bool {
    exists|k: int| 0 <= k < cs.len() && covers(#[trigger] cs[k], x, y)
}

/// The bounds a dense grid may cover: valid, and no more cells than
/// `max_cells`.
pub open spec fn grid_bounds_ok(bounds: Rect, max_cells: int) -> bool {
    &&& bounds.spec_is_valid()
    &&& bounds.spec_width() * bounds.spec_height() <= max_cells
}

/// Whether `words` holds, for every cell of `bounds`, exactly whether
/// `pred` holds there.
pub open spec fn grid_matches(words: Seq<u64>, bounds: Rect, pred: spec_fn(int, int) -> bool) -> bool {
    forall|x: int, y: int|
        #![trigger spec_cell_index(bounds, x, y)]
        bounds.spec_contains(x, y) ==> bit(words, spec_cell_index(bounds, x, y).unwrap())
            == pred(x, y)
}

/// Stamps every rect of `colliders` (clipped to `bounds`) into a fresh
/// zeroed grid over `bounds`.
pub fn stamp(bounds: Rect, count: u64, colliders: &[Rect]) -> (words: Vec<u64>)
    requires
        bounds.spec_is_valid(),
        count == bounds.spec_width() * bounds.spec_height(),
        count <= 0x1_0000_0000,
    ensures
        words.len() == spec_words_for(count as int),
        grid_matches(words@, bounds, |x: int, y: int| any_covers(colliders@, x, y)),
{
    let n = words_for(count);
    let mut words = zero_words(n);
    assert(count <= n * 64) by (nonlinear_arith)
        requires
            n == (count + 63) / 64,
    ;
    proof {
        assert(colliders@.take(0) =~= Seq::<Rect>::empty());
        assert forall|xx: int, yy: int|
            #![trigger spec_cell_index(bounds, xx, yy)]
            bounds.spec_contains(xx, yy) implies bit(words@, spec_cell_index(bounds, xx, yy).unwrap())
                == any_covers(colliders@.take(0), xx, yy) by {
            lemma_cell_index_bounds(bounds, xx, yy);
        }
    }
    let mut ci: usize = 0;
    while ci < colliders.len()
        invariant
            bounds.spec_is_valid(),
            count == bounds.spec_width() * bounds.spec_height(),
            count <= n * 64,
            count <= 0x1_0000_0000,
            words.len() == n,
            0 <= ci <= colliders.len(),
            grid_matches(words@, bounds, |x: int, y: int| any_covers(colliders@.take(ci as int), x, y)),
        decreases colliders.len() - ci,
    {
        let c = colliders[ci];
        let x0 = if c.x0 > bounds.x0 { c.x0 } else { bounds.x0 };
        let y0 = if c.y0 > bounds.y0 { c.y0 } else { bounds.y0 };
        let x1 = if c.x1 < bounds.x1 { c.x1 } else { bounds.x1 };
        let y1 = if c.y1 < bounds.y1 { c.y1 } else { bounds.y1 };
        let ghost prefix = colliders@.take(ci as int);
        let mut y = y0;
        while y < y1
            invariant
                bounds.spec_is_valid(),
                count == bounds.spec_width() * bounds.spec_height(),
                count <= n * 64,
                count <= 0x1_0000_0000,
                words.len() == n,
                c == colliders@[ci as int],
                x0 == if c.x0 > bounds.x0 { c.x0 } else { bounds.x0 },
                y0 == if c.y0 > bounds.y0 { c.y0 } else { bounds.y0 },
                x1 == if c.x1 < bounds.x1 { c.x1 } else { bounds.x1 },
                y1 == if c.y1 < bounds.y1 { c.y1 } else { bounds.y1 },
                y0 <= y,
                y <= y1 || y1 < y0,
                forall|xx: int, yy: int|
                    #![trigger spec_cell_index(bounds, xx, yy)]
                    bounds.spec_contains(xx, yy) ==> bit(words@, spec_cell_index(bounds, xx, yy).unwrap())
                        == (any_covers(prefix, xx, yy) || (covers(c, xx, yy) && yy < y)),
            decreases y1 - y,
        {
            let mut x = x0;
            while x < x1
                invariant
                    bounds.spec_is_valid(),
                    count == bounds.spec_width() * bounds.spec_height(),
                    count <= n * 64,
                    count <= 0x1_0000_0000,
                    words.len() == n,
                    c == colliders@[ci as int],
                    x0 == if c.x0 > bounds.x0 { c.x0 } else { bounds.x0 },
                    y0 == if c.y0 > bounds.y0 { c.y0 } else { bounds.y0 },
                    x1 == if c.x1 < bounds.x1 { c.x1 } else { bounds.x1 },
                    y1 == if c.y1 < bounds.y1 { c.y1 } else { bounds.y1 },
                    y0 <= y < y1,
                    x0 <= x,
                    x <= x1 || x1 < x0,
                    forall|xx: int, yy: int|
                        #![trigger spec_cell_index(bounds, xx, yy)]
                        bounds.spec_contains(xx, yy) ==> bit(words@, spec_cell_index(bounds, xx, yy).unwrap())
                            == (any_covers(prefix, xx, yy) || (covers(c, xx, yy) && (yy < y || (yy == y
                            && xx < x)))),
                decreases x1 - x,
            {
                proof {
                    lemma_cell_index_bounds(bounds, x as int, y as int);
                }
                let idx = cell_index(bounds, x, y);
                match idx {
                    Some(i) => {
                        proof {
                            assert(i < count);
                            assert(i / 64 < n) by (nonlinear_arith)
                                requires
                                    i < count,
                                    count <= n * 64,
                                    count <= 0x1_0000_0000,
                            ;
                        }
                        let ghost before = words@;
                        set_bit(&mut words, i);
                        proof {
                            assert forall|xx: int, yy: int|
                                #![trigger spec_cell_index(bounds, xx, yy)]
                                bounds.spec_contains(xx, yy) implies bit(words@, spec_cell_index(bounds, xx, yy).unwrap())
                                    == (any_covers(prefix, xx, yy) || (covers(c, xx, yy) && (yy < y || (yy == y
                                    && xx < x + 1)))) by {
                                lemma_cell_index_bounds(bounds, xx, yy);
                                if xx != x || yy != y {
                                    lemma_cell_index_injective(bounds, xx, yy, x as int, y as int);
                                    assert(spec_cell_index(bounds, xx, yy).unwrap() < n * 64);
                                }
                            }
                        }
                    },
                    None => {},
                }
                x = x + 1;
            }
            proof {
                assert forall|xx: int, yy: int|
                    #![trigger spec_cell_index(bounds, xx, yy)]
                    bounds.spec_contains(xx, yy) implies bit(words@, spec_cell_index(bounds, xx, yy).unwrap())
                        == (any_covers(prefix, xx, yy) || (covers(c, xx, yy) && yy < y + 1)) by {
                    if yy == y && covers(c, xx, yy) {
                        assert(xx < x);
                    }
                }
            }
            y = y + 1;
        }
        proof {
            let next = colliders@.take(ci + 1);
            assert(next =~= prefix.push(c));
            assert forall|xx: int, yy: int|
                #![trigger spec_cell_index(bounds, xx, yy)]
                bounds.spec_contains(xx, yy) implies bit(words@, spec_cell_index(bounds, xx, yy).unwrap())
                    == any_covers(next, xx, yy) by {
                if any_covers(prefix, xx, yy) {
                    let k = choose|k: int| 0 <= k < prefix.len() && covers(#[trigger] prefix[k], xx, yy);
                    assert(next[k] == prefix[k]);
                }
                if covers(c, xx, yy) {
                    assert(yy < y);
                    assert(next[ci as int] == c);
                }
                if any_covers(next, xx, yy) {
                    let k = choose|k: int| 0 <= k < next.len() && covers(#[trigger] next[k], xx, yy);
                    if k < ci {
                        assert(prefix[k] == next[k]);
                    }
                }
            }
        }
        ci += 1;
    }
    assert(colliders@.take(colliders@.len() as int) =~= colliders@);
    words
}

} // verus!

//! Why the tiles never outgrow the board.
//!
//! A tile of `2^e` is made of two tiles of `2^(e-1)`, and while the second of
//! them is being made the first one takes up a cell. Followed down to the
//! tiles that appear on their own, 2 and 4, this says that a board of 16 cells
//! can hold at most `18 - e` tiles of `2^e` or more. This module states that
//! bound for a line of the board beside the other cells, and proves that a
//! line keeps to it while it collapses.

use vstd::prelude::*;
use vstd::arithmetic::power2::{pow2, lemma_pow2_pos, lemma_pow2_strictly_increases, lemma_pow2_unfold};
use crate::merge::{collapse, merged, pass, settle, toward_end, toward_start, lemma_live_at_most_len, lemma_collapse_shape};

verus! {

/// The largest exponent for which the bound leaves no cell at all: no tile
/// reaches `2^18`.
pub open spec fn top_exponent() -> nat {
    18
}

/// `v` is a power of two, at least 2.
pub open spec fn is_tile(v: int) -> bool {
    exists|k: nat| 1 <= k && v == #[trigger] pow2(k)
}

/// Every value of the line is a gap or a tile.
pub open spec fn tiles_or_gaps(line: Seq<int>) -> bool {
    forall|i: int| 0 <= i < line.len() ==> (#[trigger] line[i]) == 0 || is_tile(line[i])
}

/// 1 if `v` is at least `t`, else 0.
pub open spec fn reach(v: int, t: int) -> int {
    if v >= t {
        1
    } else {
        0
    }
}

/// How many values of the line are at least `t`.
pub open spec fn count(line: Seq<int>, t: int) -> int
    decreases line.len(),
{
    if line.len() == 0 {
        0
    } else {
        count(line.drop_last(), t) + reach(line.last(), t)
    }
}

/// The line and the other cells together keep to the bound: for each
/// exponent `e` from 1 to 18, at most `18 - e` of their values are `2^e` or
/// more.
pub open spec fn fits_beside(line: Seq<int>, others: Seq<int>) -> bool {
    forall|e: nat|
        1 <= e <= top_exponent() ==> count(line, #[trigger] pow2(e) as int) + count(
            others,
            pow2(e) as int,
        ) + e <= top_exponent()
}

/// The count of a line is that of its first value plus that of the rest.
pub proof fn lemma_count_first(line: Seq<int>, t: int)
    requires
        line.len() > 0,
    ensures
        count(line, t) == reach(line.first(), t) + count(line.drop_first(), t),
    decreases line.len(),
{
    if line.len() == 1 {
        assert(line.drop_last() =~= line.drop_first());
    } else {
        lemma_count_first(line.drop_last(), t);
        assert(line.drop_last().drop_first() =~= line.drop_first().drop_last());
    }
}

/// The count of two lines put together is the sum of their counts.
pub proof fn lemma_count_concat(a: Seq<int>, b: Seq<int>, t: int)
    ensures
        count(a + b, t) == count(a, t) + count(b, t),
    decreases b.len(),
{
    if b.len() == 0 {
        assert(a + b =~= a);
    } else {
        lemma_count_concat(a, b.drop_last(), t);
        assert((a + b).drop_last() =~= a + b.drop_last());
    }
}

/// Reading a line backwards does not change its count.
pub proof fn lemma_count_reverse(line: Seq<int>, t: int)
    ensures
        count(line.reverse(), t) == count(line, t),
    decreases line.len(),
{
    if line.len() > 0 {
        let back = line.reverse();
        lemma_count_first(back, t);
        assert(back.drop_first() =~= line.drop_last().reverse());
        lemma_count_reverse(line.drop_last(), t);
    }
}

/// The count lies between 0 and the length of the line, and a higher
/// threshold is reached by no more values than a lower one.
pub proof fn lemma_count_bounds(line: Seq<int>, low: int, high: int)
    requires
        low <= high,
    ensures
        0 <= count(line, high) <= count(line, low) <= line.len(),
    decreases line.len(),
{
    if line.len() > 0 {
        lemma_count_bounds(line.drop_last(), low, high);
    }
}

/// A value of the line that reaches the threshold is counted.
pub proof fn lemma_count_has(line: Seq<int>, i: int, t: int)
    requires
        0 <= i < line.len(),
        line[i] >= t,
    ensures
        count(line, t) >= 1,
    decreases line.len(),
{
    lemma_count_bounds(line.drop_last(), t, t);
    if i < line.len() - 1 {
        lemma_count_has(line.drop_last(), i, t);
    }
}

/// Gaps are not counted for a threshold above zero.
pub proof fn lemma_count_gaps(n: nat, t: int)
    requires
        t > 0,
    ensures
        count(Seq::new(n, |i: int| 0int), t) == 0,
    decreases n,
{
    if n > 0 {
        lemma_count_gaps((n - 1) as nat, t);
        assert(Seq::new(n, |i: int| 0int).drop_last() =~= Seq::new((n - 1) as nat, |i: int| 0int));
    }
}

/// Powers of two in the order of their exponents.
pub proof fn lemma_pow2_order(d: nat, e: nat)
    requires
        d <= e,
    ensures
        0 < pow2(d) <= pow2(e),
{
    lemma_pow2_pos(d);
    if d < e {
        lemma_pow2_strictly_increases(d, e);
    }
}

/// While a line collapses by one pass, beside the same other cells, it keeps
/// to the bound, and all that is left of it are tiles.
pub proof fn lemma_pass_room(line: Seq<int>, others: Seq<int>)
    requires
        tiles_or_gaps(line),
        fits_beside(line, others),
    ensures
        forall|i: int| 0 <= i < pass(line).len() ==> is_tile(#[trigger] pass(line)[i]),
        fits_beside(pass(line), others),
    decreases line.len(),
{
    if line.len() == 0 {
        assert(pass(line) =~= line);
    } else {
        let tail = line.drop_first();
        let v = line.first();
        let rest = pass(tail);
        let beside = others.push(v);
        assert(beside.drop_last() =~= others);
        assert(tiles_or_gaps(tail)) by {
            assert forall|i: int| 0 <= i < tail.len() implies (#[trigger] tail[i]) == 0 || is_tile(
                tail[i],
            ) by {
                assert(tail[i] == line[i + 1]);
            }
        }
        assert(fits_beside(tail, beside)) by {
            assert forall|e: nat| 1 <= e <= top_exponent() implies count(
                tail,
                #[trigger] pow2(e) as int,
            ) + count(beside, pow2(e) as int) + e <= top_exponent() by {
                lemma_count_first(line, pow2(e) as int);
            }
        }
        lemma_pass_room(tail, beside);
        let next = pass(line);
        assert(v == line[0]);
        if v == 0 {
            assert forall|e: nat| 1 <= e <= top_exponent() implies count(
                next,
                #[trigger] pow2(e) as int,
            ) + count(others, pow2(e) as int) + e <= top_exponent() by {
                lemma_pow2_pos(e);
            }
        } else if rest.len() > 0 && rest.last() == v {
            let k = choose|k: nat| 1 <= k && v == #[trigger] pow2(k);
            lemma_pow2_unfold(k + 1);
            assert(next.drop_last() =~= rest.drop_last());
            assert(next.last() == 2 * v);
            assert forall|i: int| 0 <= i < next.len() implies is_tile(#[trigger] next[i]) by {
                if i < next.len() - 1 {
                    assert(next[i] == rest[i]);
                } else {
                    assert(next[i] == pow2(k + 1));
                }
            }
            assert forall|e: nat| 1 <= e <= top_exponent() implies count(
                next,
                #[trigger] pow2(e) as int,
            ) + count(others, pow2(e) as int) + e <= top_exponent() by {
                let t = pow2(e) as int;
                if e <= k {
                    lemma_pow2_order(e, k);
                } else if e == k + 1 {
                    let below = pow2(k) as int;
                    lemma_pow2_order(k, e);
                    lemma_count_bounds(rest.drop_last(), below, t);
                    lemma_count_bounds(others, below, t);
                    assert(count(rest, below) + count(beside, below) + k <= top_exponent());
                } else {
                    lemma_pow2_order(k + 2, e);
                    lemma_pow2_unfold(k + 2);
                }
            }
        } else {
            assert(next.drop_last() =~= rest);
            assert forall|i: int| 0 <= i < next.len() implies is_tile(#[trigger] next[i]) by {
                if i < next.len() - 1 {
                    assert(next[i] == rest[i]);
                }
            }
        }
    }
}

/// A collapsing line keeps to the bound beside the same other cells, and all
/// that is left of it are tiles.
pub proof fn lemma_collapse_room(line: Seq<int>, others: Seq<int>)
    requires
        tiles_or_gaps(line),
        fits_beside(line, others),
    ensures
        forall|i: int| 0 <= i < collapse(line).len() ==> is_tile(#[trigger] collapse(line)[i]),
        fits_beside(collapse(line), others),
    decreases line.len(),
{
    lemma_pass_room(line, others);
    if merged(line) {
        let once = pass(line);
        let again = once.reverse();
        lemma_live_at_most_len(line);
        assert(tiles_or_gaps(again)) by {
            assert forall|i: int| 0 <= i < again.len() implies (#[trigger] again[i]) == 0
                || is_tile(again[i]) by {
                assert(again[i] == once[once.len() - 1 - i]);
            }
        }
        assert(fits_beside(again, others)) by {
            assert forall|e: nat| 1 <= e <= top_exponent() implies count(
                again,
                #[trigger] pow2(e) as int,
            ) + count(others, pow2(e) as int) + e <= top_exponent() by {
                lemma_count_reverse(once, pow2(e) as int);
            }
        }
        lemma_collapse_room(again, others);
    }
}

/// No tile of a line that keeps to the bound is above `2^17`.
pub proof fn lemma_room_caps(line: Seq<int>, others: Seq<int>)
    requires
        tiles_or_gaps(line),
        fits_beside(line, others),
    ensures
        forall|i: int| 0 <= i < line.len() ==> 0 <= #[trigger] line[i] <= 131072,
{
    assert forall|i: int| 0 <= i < line.len() implies 0 <= #[trigger] line[i] <= 131072 by {
        if line[i] != 0 {
            let k = choose|k: nat| 1 <= k && line[i] == #[trigger] pow2(k);
            lemma_pow2_pos(k);
            if k >= 18 {
                lemma_pow2_order(18, k);
                lemma_count_has(line, i, pow2(18) as int);
                lemma_count_bounds(others, pow2(18) as int, pow2(18) as int);
                assert(false);
            }
            lemma_pow2_order(k, 17);
            vstd::arithmetic::power2::lemma2_to64();
        }
    }
}

/// A line that slides to either of its ends keeps its length, consists of
/// tiles and gaps again, and keeps to the bound beside the same other cells.
pub proof fn lemma_slide_room(line: Seq<int>, others: Seq<int>)
    requires
        tiles_or_gaps(line),
        fits_beside(line, others),
    ensures
        toward_end(line).len() == line.len(),
        toward_start(line).len() == line.len(),
        tiles_or_gaps(toward_end(line)),
        tiles_or_gaps(toward_start(line)),
        fits_beside(toward_end(line), others),
        fits_beside(toward_start(line), others),
{
    lemma_settle_room(line, others);
    let flat = settle(line);
    let back = line.reverse();
    assert(tiles_or_gaps(toward_end(line))) by {
        assert forall|i: int| 0 <= i < flat.reverse().len() implies (#[trigger] flat.reverse()[i])
            == 0 || is_tile(flat.reverse()[i]) by {
            assert(flat.reverse()[i] == flat[flat.len() - 1 - i]);
        }
    }
    assert(fits_beside(toward_end(line), others)) by {
        assert forall|e: nat| 1 <= e <= top_exponent() implies count(
            flat.reverse(),
            #[trigger] pow2(e) as int,
        ) + count(others, pow2(e) as int) + e <= top_exponent() by {
            lemma_count_reverse(flat, pow2(e) as int);
        }
    }
    assert(tiles_or_gaps(back)) by {
        assert forall|i: int| 0 <= i < back.len() implies (#[trigger] back[i]) == 0 || is_tile(
            back[i],
        ) by {
            assert(back[i] == line[line.len() - 1 - i]);
        }
    }
    assert(fits_beside(back, others)) by {
        assert forall|e: nat| 1 <= e <= top_exponent() implies count(
            back,
            #[trigger] pow2(e) as int,
        ) + count(others, pow2(e) as int) + e <= top_exponent() by {
            lemma_count_reverse(line, pow2(e) as int);
        }
    }
    lemma_settle_room(back, others);
}

/// A settled line has the length of the line it came from, consists of tiles
/// and gaps, and keeps to the bound beside the same other cells.
pub proof fn lemma_settle_room(line: Seq<int>, others: Seq<int>)
    requires
        tiles_or_gaps(line),
        fits_beside(line, others),
    ensures
        settle(line).len() == line.len(),
        tiles_or_gaps(settle(line)),
        fits_beside(settle(line), others),
{
    let left = collapse(line);
    let gaps = Seq::new((line.len() - left.len()) as nat, |i: int| 0int);
    lemma_collapse_shape(line);
    lemma_collapse_room(line, others);
    assert forall|i: int| 0 <= i < settle(line).len() implies (#[trigger] settle(line)[i]) == 0
        || is_tile(settle(line)[i]) by {
        if i < left.len() {
            assert(settle(line)[i] == left[i]);
        }
    }
    assert forall|e: nat| 1 <= e <= top_exponent() implies count(
        settle(line),
        #[trigger] pow2(e) as int,
    ) + count(others, pow2(e) as int) + e <= top_exponent() by {
        lemma_pow2_pos(e);
        lemma_count_concat(left, gaps, pow2(e) as int);
        lemma_count_gaps(gaps.len(), pow2(e) as int);
    }
}

/// Four lines together keep to the bound: for each exponent `e` from 1 to
/// 18, at most `18 - e` of their values are `2^e` or more.
pub open spec fn fit_four(a: Seq<int>, b: Seq<int>, c: Seq<int>, d: Seq<int>) -> bool {
    forall|e: nat|
        1 <= e <= top_exponent() ==> count(a, #[trigger] pow2(e) as int) + count(b, pow2(e) as int)
            + count(c, pow2(e) as int) + count(d, pow2(e) as int) + e <= top_exponent()
}

/// The count of a line of four, value by value.
pub proof fn lemma_count_four(line: Seq<int>, t: int)
    requires
        line.len() == 4,
    ensures
        count(line, t) == reach(line[0], t) + reach(line[1], t) + reach(line[2], t) + reach(
            line[3],
            t,
        ),
{
    reveal_with_fuel(count, 5);
    assert(line.drop_last().drop_last().drop_last().drop_last().len() == 0);
}

/// Of four lines that keep to the bound together, the first may slide to
/// either of its ends: the four still keep to it.
pub proof fn lemma_slide_four(a: Seq<int>, b: Seq<int>, c: Seq<int>, d: Seq<int>)
    requires
        tiles_or_gaps(a),
        fit_four(a, b, c, d),
    ensures
        toward_end(a).len() == a.len(),
        toward_start(a).len() == a.len(),
        tiles_or_gaps(toward_end(a)),
        tiles_or_gaps(toward_start(a)),
        fit_four(toward_end(a), b, c, d),
        fit_four(toward_start(a), b, c, d),
        forall|i: int| 0 <= i < collapse(a).len() ==> 0 <= #[trigger] collapse(a)[i] <= 131072,
        forall|i: int|
            0 <= i < collapse(a.reverse()).len() ==> 0 <= #[trigger] collapse(a.reverse())[i]
                <= 131072,
{
    let others = b + c + d;
    assert forall|t: int| count(others, t) == count(b, t) + count(c, t) + count(d, t) by {
        lemma_count_concat(b, c, t);
        lemma_count_concat(b + c, d, t);
    }
    assert(fits_beside(a, others));
    lemma_slide_room(a, others);
    lemma_collapse_room(a, others);
    assert(tiles_or_gaps(collapse(a)));
    lemma_room_caps(collapse(a), others);
    let back = a.reverse();
    assert(tiles_or_gaps(back)) by {
        assert forall|i: int| 0 <= i < back.len() implies (#[trigger] back[i]) == 0 || is_tile(
            back[i],
        ) by {
            assert(back[i] == a[a.len() - 1 - i]);
        }
    }
    assert(fits_beside(back, others)) by {
        assert forall|e: nat| 1 <= e <= top_exponent() implies count(
            back,
            #[trigger] pow2(e) as int,
        ) + count(others, pow2(e) as int) + e <= top_exponent() by {
            lemma_count_reverse(a, pow2(e) as int);
        }
    }
    lemma_collapse_room(back, others);
    assert(tiles_or_gaps(collapse(back)));
    lemma_room_caps(collapse(back), others);
}

/// Of four lines that keep to the bound together, no value of the first is
/// above `2^17`.
pub proof fn lemma_four_caps(a: Seq<int>, b: Seq<int>, c: Seq<int>, d: Seq<int>)
    requires
        tiles_or_gaps(a),
        fit_four(a, b, c, d),
    ensures
        forall|i: int| 0 <= i < a.len() ==> 0 <= #[trigger] a[i] <= 131072,
{
    let others = b + c + d;
    assert forall|t: int| count(others, t) == count(b, t) + count(c, t) + count(d, t) by {
        lemma_count_concat(b, c, t);
        lemma_count_concat(b + c, d, t);
    }
    assert(fits_beside(a, others));
    lemma_room_caps(a, others);
}

} // verus!

//! The merge engine: how one line of tiles collapses when it is pushed
//! against a wall.
//!
//! A line is scanned from its last value to its first, so the last value is
//! the one next to the wall. The engine reports the tiles that are left in the
//! order in which they came to rest: wall first.

use vstd::prelude::*;

verus! {

/// The values of a line as mathematical integers.
pub open spec fn ints(cells: Seq<i32>) -> Seq<int> {
    cells.map_values(|v: i32| v as int)
}

/// No value of the line is negative.
pub open spec fn nonneg(line: Seq<int>) -> bool {
    forall|i: int| 0 <= i < line.len() ==> 0 <= #[trigger] line[i]
}

/// No value of the line is above `cap`.
pub open spec fn within(line: Seq<int>, cap: int) -> bool {
    forall|i: int| 0 <= i < line.len() ==> #[trigger] line[i] <= cap
}

/// The sum of the values of a line.
pub open spec fn total(line: Seq<int>) -> int
    decreases line.len(),
{
    if line.len() == 0 {
        0
    } else {
        total(line.drop_last()) + line.last()
    }
}

/// How many values of a line are tiles, that is, not zero.
pub open spec fn live(line: Seq<int>) -> nat
    decreases line.len(),
{
    if line.len() == 0 {
        0
    } else {
        live(line.drop_first()) + if line.first() != 0 {
            1nat
        } else {
            0nat
        }
    }
}

/// The tiles at rest after one more value has arrived: a gap changes
/// nothing, a value equal to the tile that arrived last doubles that tile, and
/// any other value comes to rest behind it.
pub open spec fn absorb(rest: Seq<int>, v: int) -> Seq<int> {
    if v == 0 {
        rest
    } else if rest.len() > 0 && rest.last() == v {
        rest.drop_last().push(2 * v)
    } else {
        rest.push(v)
    }
}

/// One pass over a line, from its last value to its first. The result lists
/// the tiles at rest, wall first.
pub open spec fn pass(line: Seq<int>) -> Seq<int>
    decreases line.len(),
{
    if line.len() == 0 {
        Seq::empty()
    } else {
        absorb(pass(line.drop_first()), line.first())
    }
}

/// A pass over the line merges at least one pair: fewer tiles are at rest
/// than went in.
pub open spec fn merged(line: Seq<int>) -> bool {
    pass(line).len() < live(line)
}

/// The line after as many passes as it takes until a pass merges nothing.
/// Each pass after the first runs over the result of the one before, turned
/// back into scan order. The result lists the tiles wall first.
pub open spec fn collapse(line: Seq<int>) -> Seq<int>
    decreases line.len(),
    via collapse_shrinks
{
    if merged(line) {
        collapse(pass(line).reverse())
    } else {
        pass(line)
    }
}

/// The collapsed line filled up with gaps behind the tiles, to the length the
/// line had.
pub open spec fn settle(line: Seq<int>) -> Seq<int> {
    collapse(line) + Seq::new((line.len() - collapse(line).len()) as nat, |i: int| 0int)
}

/// The line after its tiles have slid towards its last place.
pub open spec fn toward_end(line: Seq<int>) -> Seq<int> {
    settle(line).reverse()
}

/// The line after its tiles have slid towards its first place.
pub open spec fn toward_start(line: Seq<int>) -> Seq<int> {
    settle(line.reverse())
}

/// The line after its tiles have slid towards its last place, if `to_end`,
/// or towards its first place, if not.
pub open spec fn shift(line: Seq<int>, to_end: bool) -> Seq<int> {
    if to_end {
        toward_end(line)
    } else {
        toward_start(line)
    }
}

#[via_fn]
proof fn collapse_shrinks(line: Seq<int>) {
    lemma_live_at_most_len(line);
}

/// A line has no more tiles than it has values.
pub proof fn lemma_live_at_most_len(line: Seq<int>)
    ensures
        live(line) <= line.len(),
    decreases line.len(),
{
    if line.len() > 0 {
        lemma_live_at_most_len(line.drop_first());
    }
}

/// A pass leaves no more tiles than went in, and none of them is a gap.
pub proof fn lemma_pass_shape(line: Seq<int>)
    ensures
        pass(line).len() <= live(line),
        forall|i: int| 0 <= i < pass(line).len() ==> #[trigger] pass(line)[i] != 0,
    decreases line.len(),
{
    if line.len() > 0 {
        lemma_pass_shape(line.drop_first());
    }
}

/// Whether a pass merges anything is decided value by value: it does if it
/// did so on the values behind the first, or if the first value meets its
/// equal.
pub proof fn lemma_merged_step(line: Seq<int>)
    requires
        line.len() > 0,
    ensures
        merged(line) == (merged(line.drop_first()) || (line.first() != 0 && pass(
            line.drop_first(),
        ).len() > 0 && pass(line.drop_first()).last() == line.first())),
{
    lemma_pass_shape(line.drop_first());
}

/// A pass keeps the values non-negative.
pub proof fn lemma_pass_nonneg(line: Seq<int>)
    requires
        nonneg(line),
    ensures
        nonneg(pass(line)),
    decreases line.len(),
{
    if line.len() > 0 {
        let tail = line.drop_first();
        assert(nonneg(tail)) by {
            assert forall|i: int| 0 <= i < tail.len() implies 0 <= #[trigger] tail[i] by {
                assert(tail[i] == line[i + 1]);
            }
        }
        lemma_pass_nonneg(tail);
        assert(0 <= line[0]);
    }
}

/// Taking in one more value never lowers a tile at rest, and the value taken
/// in is itself no larger than some tile at rest: a cap on the result is a cap
/// on what went in.
pub proof fn lemma_absorb_within(rest: Seq<int>, v: int, cap: int)
    requires
        nonneg(rest),
        0 <= v,
        0 <= cap,
        within(absorb(rest, v), cap),
    ensures
        within(rest, cap),
        v <= cap,
{
    let next = absorb(rest, v);
    if v == 0 {
    } else if rest.len() > 0 && rest.last() == v {
        assert(next[next.len() - 1] == 2 * v);
        assert forall|i: int| 0 <= i < rest.len() implies #[trigger] rest[i] <= cap by {
            if i < rest.len() - 1 {
                assert(next[i] == rest[i]);
            }
        }
    } else {
        assert(next[next.len() - 1] == v);
        assert forall|i: int| 0 <= i < rest.len() implies #[trigger] rest[i] <= cap by {
            assert(next[i] == rest[i]);
        }
    }
}

/// A cap on the result of a pass is a cap on the result of the pass over any
/// tail of the line, and on the line itself.
pub proof fn lemma_pass_within(line: Seq<int>, from: int, cap: int)
    requires
        nonneg(line),
        0 <= cap,
        within(pass(line), cap),
        0 <= from <= line.len(),
    ensures
        within(pass(line.subrange(from, line.len() as int)), cap),
        within(line, cap),
    decreases line.len(),
{
    if line.len() == 0 {
        assert(line.subrange(from, line.len() as int) =~= line);
    } else {
        let tail = line.drop_first();
        assert(nonneg(tail)) by {
            assert forall|i: int| 0 <= i < tail.len() implies 0 <= #[trigger] tail[i] by {
                assert(tail[i] == line[i + 1]);
            }
        }
        lemma_pass_nonneg(tail);
        assert(0 <= line[0]);
        lemma_absorb_within(pass(tail), line.first(), cap);
        if from == 0 {
            assert(line.subrange(from, line.len() as int) =~= line);
            lemma_pass_within(tail, 0, cap);
        } else {
            lemma_pass_within(tail, from - 1, cap);
            assert(tail.subrange(from - 1, tail.len() as int) =~= line.subrange(
                from,
                line.len() as int,
            ));
        }
        assert forall|i: int| 0 <= i < line.len() implies #[trigger] line[i] <= cap by {
            if i > 0 {
                assert(tail[i - 1] == line[i]);
            }
        }
    }
}

/// A cap on the collapsed line is a cap on every pass on the way to it.
pub proof fn lemma_collapse_within(line: Seq<int>, cap: int)
    requires
        nonneg(line),
        0 <= cap,
        within(collapse(line), cap),
    ensures
        within(pass(line), cap),
    decreases line.len(),
{
    if merged(line) {
        let again = pass(line).reverse();
        lemma_live_at_most_len(line);
        lemma_pass_nonneg(line);
        assert(nonneg(again));
        lemma_collapse_within(again, cap);
        lemma_pass_within(again, 0, cap);
        assert forall|i: int| 0 <= i < pass(line).len() implies #[trigger] pass(line)[i]
            <= cap by {
            assert(again[pass(line).len() - 1 - i] == pass(line)[i]);
        }
    }
}

/// The total of a line is its first value plus the total of the rest.
pub proof fn lemma_total_first(line: Seq<int>)
    requires
        line.len() > 0,
    ensures
        total(line) == line.first() + total(line.drop_first()),
    decreases line.len(),
{
    if line.len() == 1 {
        assert(line.drop_last() =~= line.drop_first());
    } else {
        lemma_total_first(line.drop_last());
        assert(line.drop_last().drop_first() =~= line.drop_first().drop_last());
    }
}

/// Reading a line backwards does not change its total.
pub proof fn lemma_total_reverse(line: Seq<int>)
    ensures
        total(line.reverse()) == total(line),
    decreases line.len(),
{
    if line.len() > 0 {
        let back = line.reverse();
        lemma_total_first(back);
        assert(back.drop_first() =~= line.drop_last().reverse());
        lemma_total_reverse(line.drop_last());
    }
}

/// A pass keeps the total of the line: a merge puts one tile of twice the
/// value in the place of two.
pub proof fn lemma_pass_total(line: Seq<int>)
    ensures
        total(pass(line)) == total(line),
    decreases line.len(),
{
    if line.len() > 0 {
        let tail = line.drop_first();
        let rest = pass(tail);
        let v = line.first();
        lemma_pass_total(tail);
        lemma_total_first(line);
        if v == 0 {
        } else if rest.len() > 0 && rest.last() == v {
            assert(rest.drop_last().push(2 * v).drop_last() =~= rest.drop_last());
        } else {
            assert(rest.push(v).drop_last() =~= rest);
        }
    }
}

/// Collapsing a line keeps its total.
pub proof fn lemma_collapse_total(line: Seq<int>)
    ensures
        total(collapse(line)) == total(line),
    decreases line.len(),
{
    lemma_pass_total(line);
    if merged(line) {
        lemma_live_at_most_len(line);
        lemma_total_reverse(pass(line));
        lemma_collapse_total(pass(line).reverse());
    }
}

/// The collapsed line holds no gap, no more tiles than the line had, and no
/// negative value where the line had none.
pub proof fn lemma_collapse_shape(line: Seq<int>)
    ensures
        collapse(line).len() <= live(line) <= line.len(),
        forall|i: int| 0 <= i < collapse(line).len() ==> #[trigger] collapse(line)[i] != 0,
        nonneg(line) ==> nonneg(collapse(line)),
    decreases line.len(),
{
    lemma_live_at_most_len(line);
    lemma_pass_shape(line);
    if nonneg(line) {
        lemma_pass_nonneg(line);
    }
    if merged(line) {
        let again = pass(line).reverse();
        lemma_collapse_shape(again);
        lemma_live_at_most_len(again);
    }
}

/// The total of two lines put together is the sum of their totals.
pub proof fn lemma_total_concat(a: Seq<int>, b: Seq<int>)
    ensures
        total(a + b) == total(a) + total(b),
    decreases b.len(),
{
    if b.len() == 0 {
        assert(a + b =~= a);
    } else {
        lemma_total_concat(a, b.drop_last());
        assert((a + b).drop_last() =~= a + b.drop_last());
    }
}

/// Gaps add nothing to a total.
pub proof fn lemma_total_gaps(n: nat)
    ensures
        total(Seq::new(n, |i: int| 0int)) == 0,
    decreases n,
{
    if n > 0 {
        lemma_total_gaps((n - 1) as nat);
        assert(Seq::new(n, |i: int| 0int).drop_last() =~= Seq::new((n - 1) as nat, |i: int| 0int));
    }
}

/// The total of a line of four is the sum of its four values.
pub proof fn lemma_total_four(line: Seq<int>)
    requires
        line.len() == 4,
    ensures
        total(line) == line[0] + line[1] + line[2] + line[3],
{
    reveal_with_fuel(total, 5);
    assert(line.drop_last().drop_last().drop_last().drop_last().len() == 0);
}

/// Whichever way the tiles of a line slide, the line keeps its length and its
/// total: a merge puts one tile in the place of two of half its value, and
/// nothing else changes a value.
pub proof fn lemma_slide_total(line: Seq<int>)
    ensures
        settle(line).len() == line.len(),
        toward_end(line).len() == line.len(),
        toward_start(line).len() == line.len(),
        total(settle(line)) == total(line),
        total(toward_end(line)) == total(line),
        total(toward_start(line)) == total(line),
{
    let back = line.reverse();
    lemma_collapse_shape(line);
    lemma_collapse_shape(back);
    lemma_collapse_total(line);
    lemma_collapse_total(back);
    lemma_total_concat(
        collapse(line),
        Seq::new((line.len() - collapse(line).len()) as nat, |i: int| 0int),
    );
    lemma_total_gaps((line.len() - collapse(line).len()) as nat);
    lemma_total_concat(
        collapse(back),
        Seq::new((back.len() - collapse(back).len()) as nat, |i: int| 0int),
    );
    lemma_total_gaps((back.len() - collapse(back).len()) as nat);
    lemma_total_reverse(settle(line));
    lemma_total_reverse(line);
}

/// No value of a line without negative values is above the total of the
/// line.
pub proof fn lemma_total_bounds(line: Seq<int>)
    requires
        nonneg(line),
    ensures
        0 <= total(line),
        within(line, total(line)),
    decreases line.len(),
{
    if line.len() > 0 {
        let front = line.drop_last();
        assert(nonneg(front)) by {
            assert forall|i: int| 0 <= i < front.len() implies 0 <= #[trigger] front[i] by {
                assert(front[i] == line[i]);
            }
        }
        lemma_total_bounds(front);
        assert(0 <= line[line.len() - 1]);
        assert forall|i: int| 0 <= i < line.len() implies #[trigger] line[i] <= total(line) by {
            if i < line.len() - 1 {
                assert(front[i] == line[i]);
            }
        }
    }
}

/// A line without negative values whose total is at most `cap` collapses
/// without any value coming out above `cap`, in every pass.
pub proof fn lemma_total_caps(line: Seq<int>, cap: int)
    requires
        nonneg(line),
        total(line) <= cap,
    ensures
        within(pass(line), cap),
        within(collapse(line), cap),
{
    lemma_pass_nonneg(line);
    lemma_pass_total(line);
    lemma_total_bounds(pass(line));
    lemma_collapse_shape(line);
    lemma_collapse_total(line);
    lemma_total_bounds(collapse(line));
}

/// The line is full and no two values next to each other are equal.
pub open spec fn packed(line: Seq<int>) -> bool {
    &&& forall|i: int| 0 <= i < line.len() ==> #[trigger] line[i] != 0
    &&& forall|i: int| 0 <= i < line.len() - 1 ==> #[trigger] line[i] != line[i + 1]
}

/// A pass over a full line without equal neighbours merges nothing and
/// leaves every tile at rest where it was.
pub proof fn lemma_packed_pass(line: Seq<int>)
    requires
        packed(line),
    ensures
        pass(line) == line.reverse(),
        live(line) == line.len(),
        !merged(line),
    decreases line.len(),
{
    if line.len() == 0 {
        assert(pass(line) =~= line.reverse());
    } else {
        let tail = line.drop_first();
        assert(packed(tail)) by {
            assert forall|i: int| 0 <= i < tail.len() implies #[trigger] tail[i] != 0 by {
                assert(tail[i] == line[i + 1]);
            }
            assert forall|i: int| 0 <= i < tail.len() - 1 implies #[trigger] tail[i] != tail[i
                + 1] by {
                assert(tail[i] == line[i + 1]);
                assert(tail[i + 1] == line[i + 2]);
            }
        }
        lemma_packed_pass(tail);
        assert(line[0] != 0);
        if tail.len() > 0 {
            assert(tail.reverse().last() == tail[0]);
            assert(tail[0] == line[1]);
            assert(line[0] != line[1]);
        }
        assert(pass(line) =~= line.reverse());
    }
}

/// Nothing moves in a full line without equal neighbours, whichever way it
/// is pushed.
pub proof fn lemma_packed_stays(line: Seq<int>)
    requires
        packed(line),
    ensures
        toward_end(line) == line,
        toward_start(line) == line,
        shift(line, true) == line,
        shift(line, false) == line,
{
    let back = line.reverse();
    assert(packed(back)) by {
        assert forall|i: int| 0 <= i < back.len() implies #[trigger] back[i] != 0 by {
            assert(back[i] == line[line.len() - 1 - i]);
        }
        assert forall|i: int| 0 <= i < back.len() - 1 implies #[trigger] back[i] != back[i
            + 1] by {
            assert(back[i] == line[line.len() - 1 - i]);
            assert(back[i + 1] == line[line.len() - 2 - i]);
            assert(line[line.len() - 2 - i] != line[line.len() - 2 - i + 1]);
        }
    }
    lemma_packed_pass(line);
    lemma_packed_pass(back);
    assert(settle(line) =~= back);
    assert(settle(back) =~= back.reverse());
    assert(back.reverse() =~= line);
}

/// The values of `cells` in the opposite order.
pub fn reversed(cells: &Vec<i32>) -> (out: Vec<i32>)
    ensures
        out@ == cells@.reverse(),
{
    let mut out: Vec<i32> = Vec::new();
    let mut i: usize = cells.len();
    while i > 0
        invariant
            i <= cells.len(),
            out.len() == cells.len() - i,
            forall|j: int| 0 <= j < out.len() ==> out[j] == cells[cells.len() - 1 - j],
        decreases i,
    {
        i -= 1;
        out.push(cells[i]);
    }
    assert(out@ =~= cells@.reverse());
    out
}

/// Runs one pass over `line`, from its last value to its first, and says
/// whether any pair merged.
pub fn merge_pass(line: &Vec<i32>) -> (out: (Vec<i32>, bool))
    requires
        nonneg(ints(line@)),
        within(pass(ints(line@)), i32::MAX as int),
    ensures
        ints(out.0@) == pass(ints(line@)),
        out.1 == merged(ints(line@)),
{
    let ghost whole = ints(line@);
    let mut rest: Vec<i32> = Vec::new();
    let mut changed = false;
    let mut i: usize = line.len();
    proof {
        assert(whole.subrange(i as int, whole.len() as int) =~= Seq::<int>::empty());
        assert(ints(rest@) =~= Seq::<int>::empty());
    }
    while i > 0
        invariant
            i <= line.len(),
            whole == ints(line@),
            nonneg(whole),
            within(pass(whole), i32::MAX as int),
            ints(rest@) == pass(whole.subrange(i as int, whole.len() as int)),
            changed == merged(whole.subrange(i as int, whole.len() as int)),
        decreases i,
    {
        let ghost behind = whole.subrange(i as int, whole.len() as int);
        i -= 1;
        let curr = line[i];
        let n = rest.len();
        proof {
            let here = whole.subrange(i as int, whole.len() as int);
            assert(here.drop_first() =~= behind);
            assert(here.first() == curr as int);
            lemma_merged_step(here);
            lemma_pass_within(whole, i as int, i32::MAX as int);
            if n > 0 {
                assert(ints(rest@)[n - 1] == rest[n - 1] as int);
            }
            if curr != 0 && n > 0 && rest[n - 1] == curr {
                let next = pass(here);
                assert(next[next.len() - 1] == 2 * curr);
            }
        }
        if curr != 0 {
            if n > 0 && rest[n - 1] == curr {
                rest[n - 1] = curr * 2;
                changed = true;
                proof {
                    assert(ints(rest@) =~= pass(behind).drop_last().push(2 * (curr as int)));
                }
            } else {
                rest.push(curr);
                proof {
                    assert(ints(rest@) =~= pass(behind).push(curr as int));
                }
            }
        }
    }
    proof {
        assert(whole.subrange(0, whole.len() as int) =~= whole);
    }
    (rest, changed)
}

/// Collapses a line: passes run until one of them merges nothing. The line is
/// scanned from its last value to its first; the result lists the tiles that
/// are left, the one scanned first in front, without the gaps.
pub fn sum(arr: Vec<i32>) -> (res: Vec<i32>)
    requires
        nonneg(ints(arr@)),
        within(collapse(ints(arr@)), i32::MAX as int),
    ensures
        ints(res@) == collapse(ints(arr@)),
{
    let mut line = arr;
    loop
        invariant
            nonneg(ints(line@)),
            collapse(ints(line@)) == collapse(ints(arr@)),
            within(collapse(ints(arr@)), i32::MAX as int),
        decreases line.len(),
    {
        proof {
            lemma_collapse_within(ints(line@), i32::MAX as int);
            lemma_pass_nonneg(ints(line@));
            lemma_live_at_most_len(ints(line@));
        }
        let (rest, changed) = merge_pass(&line);
        if !changed {
            return rest;
        }
        line = reversed(&rest);
        proof {
            assert(ints(line@) =~= ints(rest@).reverse());
        }
    }
}

} // verus!

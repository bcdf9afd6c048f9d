//! The order of a ladder, as mathematics.
//!
//! A ladder shows the best quotes first: on the bid side the highest price,
//! on the ask side the lowest. Quotes at one price keep the order in which
//! they arrived. `ranked` is that arrangement of a sequence of levels, and
//! `ladder` is its top. The lemmas say what the definitions amount to: the
//! arrangement is in price order, holds the same levels, and never lets a
//! level overtake another at the same price.

use vstd::prelude::*;
use crate::number::Double;
use crate::ticker::QuoteLevelView;

verus! {

/// The two sides of a book.
#[derive(Clone, Copy, Debug, PartialEq, Eq, Structural)]
pub enum Side {
    Bid,
    Ask,
}

/// The number of levels that a ladder shows on each side.
pub const LADDER_DEPTH: usize = 5;

/// Whether price `a` is strictly better than price `b` on a side: a bid is
/// better the higher it is, an ask the lower.
pub open spec fn better(side: Side, a: Double, b: Double) -> bool {
    match side {
        Side::Bid => a.rank() > b.rank(),
        Side::Ask => a.rank() < b.rank(),
    }
}

/// Whether price `a` is at least as good as price `b` on a side.
pub open spec fn no_worse(side: Side, a: Double, b: Double) -> bool {
    !better(side, b, a)
}

/// Whether the levels stand best first: on the bid side no price is higher
/// than one before it, on the ask side none is lower.
pub open spec fn in_price_order(side: Side, levels: Seq<QuoteLevelView>) -> bool {
    forall|i: int, j: int|
        0 <= i <= j < levels.len() ==> no_worse(
            side,
            (#[trigger] levels[i]).price,
            (#[trigger] levels[j]).price,
        )
}

/// The levels with `level` put in behind every level that is at least as
/// good, reading from the end.
pub open spec fn insert_ranked(
    side: Side,
    levels: Seq<QuoteLevelView>,
    level: QuoteLevelView,
) -> Seq<QuoteLevelView>
    decreases levels.len(),
{
    if levels.len() == 0 || no_worse(side, levels.last().price, level.price) {
        levels.push(level)
    } else {
        insert_ranked(side, levels.drop_last(), level).push(levels.last())
    }
}

/// The levels arranged best first, levels at one price in the order in which
/// they stand in `levels`.
pub open spec fn ranked(side: Side, levels: Seq<QuoteLevelView>) -> Seq<QuoteLevelView>
    decreases levels.len(),
{
    if levels.len() == 0 {
        levels
    } else {
        insert_ranked(side, ranked(side, levels.drop_last()), levels.last())
    }
}

/// The top of the book: the first `LADDER_DEPTH` of the ranked levels, or all
/// of them where there are fewer.
pub open spec fn ladder(side: Side, levels: Seq<QuoteLevelView>) -> Seq<QuoteLevelView> {
    let all = ranked(side, levels);
    if all.len() <= LADDER_DEPTH {
        all
    } else {
        all.take(LADDER_DEPTH as int)
    }
}

/// The levels at one price, in the order in which they stand. Two prices
/// are one where their ranks are equal.
pub open spec fn at_price(levels: Seq<QuoteLevelView>, rank: int) -> Seq<QuoteLevelView> {
    levels.filter(|l: QuoteLevelView| l.price.rank() == rank)
}

/// Where `insert_ranked` puts a level: at the position behind which every
/// level is strictly worse and before which the nearest one is not.
pub proof fn lemma_insert_ranked_at(
    side: Side,
    levels: Seq<QuoteLevelView>,
    level: QuoteLevelView,
    pos: int,
)
    requires
        0 <= pos <= levels.len(),
        forall|j: int| pos <= j < levels.len() ==> better(side, level.price, (#[trigger] levels[j]).price),
        pos > 0 ==> no_worse(side, levels[pos - 1].price, level.price),
    ensures
        insert_ranked(side, levels, level) == levels.insert(pos, level),
    decreases levels.len(),
{
    if pos != levels.len() {
        let front = levels.drop_last();
        lemma_insert_ranked_at(side, front, level, pos);
    }
}

/// The position at which `insert_ranked` puts a level.
pub open spec fn insertion_point(side: Side, levels: Seq<QuoteLevelView>, level: QuoteLevelView) -> int
    decreases levels.len(),
{
    if levels.len() == 0 || no_worse(side, levels.last().price, level.price) {
        levels.len() as int
    } else {
        insertion_point(side, levels.drop_last(), level)
    }
}

/// `insert_ranked` is an insertion at `insertion_point`: every level behind
/// that point is strictly worse than the new one, and the level before it is
/// at least as good.
pub proof fn lemma_insertion_point(side: Side, levels: Seq<QuoteLevelView>, level: QuoteLevelView)
    ensures
        0 <= insertion_point(side, levels, level) <= levels.len(),
        forall|j: int|
            insertion_point(side, levels, level) <= j < levels.len() ==> better(
                side,
                level.price,
                (#[trigger] levels[j]).price,
            ),
        insertion_point(side, levels, level) > 0 ==> no_worse(
            side,
            levels[insertion_point(side, levels, level) - 1].price,
            level.price,
        ),
        insert_ranked(side, levels, level) == levels.insert(
            insertion_point(side, levels, level),
            level,
        ),
    decreases levels.len(),
{
    let pos = insertion_point(side, levels, level);
    if !(levels.len() == 0 || no_worse(side, levels.last().price, level.price)) {
        let front = levels.drop_last();
        lemma_insertion_point(side, front, level);
        assert forall|j: int| pos <= j < levels.len() implies better(
            side,
            level.price,
            (#[trigger] levels[j]).price,
        ) by {
            if j < front.len() {
                assert(levels[j] == front[j]);
            }
        }
    }
    lemma_insert_ranked_at(side, levels, level, pos);
}

/// Putting a level into levels that stand in price order leaves them in
/// price order, one longer.
pub proof fn lemma_insert_keeps_order(side: Side, levels: Seq<QuoteLevelView>, level: QuoteLevelView)
    requires
        in_price_order(side, levels),
    ensures
        in_price_order(side, insert_ranked(side, levels, level)),
        insert_ranked(side, levels, level).len() == levels.len() + 1,
{
    lemma_insertion_point(side, levels, level);
}

/// The ranked levels stand in price order, and there are as many of them as
/// there were.
pub proof fn lemma_ranked_in_order(side: Side, levels: Seq<QuoteLevelView>)
    ensures
        in_price_order(side, ranked(side, levels)),
        ranked(side, levels).len() == levels.len(),
    decreases levels.len(),
{
    if levels.len() > 0 {
        lemma_ranked_in_order(side, levels.drop_last());
        lemma_insert_keeps_order(side, ranked(side, levels.drop_last()), levels.last());
    }
}

/// Ranking rearranges: every level occurs in the ranked sequence as often as
/// in the given one.
pub proof fn lemma_ranked_permutes(side: Side, levels: Seq<QuoteLevelView>)
    ensures
        ranked(side, levels).to_multiset() == levels.to_multiset(),
    decreases levels.len(),
{
    broadcast use vstd::seq_lib::group_to_multiset_ensures;

    if levels.len() > 0 {
        let front = levels.drop_last();
        lemma_ranked_permutes(side, front);
        lemma_insertion_point(side, ranked(side, front), levels.last());
        assert(front.push(levels.last()) =~= levels);
    }
}

/// Ranking is stable: the levels at any one price stand in the ranked
/// sequence in the order in which they stood in the given one.
pub proof fn lemma_ranked_stable(side: Side, levels: Seq<QuoteLevelView>, rank: int)
    ensures
        at_price(ranked(side, levels), rank) == at_price(levels, rank),
    decreases levels.len(),
{
    let pred = |l: QuoteLevelView| l.price.rank() == rank;
    if levels.len() > 0 {
        let front = levels.drop_last();
        let last = levels.last();
        let sorted = ranked(side, front);
        lemma_ranked_stable(side, front, rank);
        lemma_insertion_point(side, sorted, last);
        let pos = insertion_point(side, sorted, last);
        let head = sorted.take(pos);
        let tail = sorted.skip(pos);
        assert(sorted =~= head + tail);
        Seq::filter_distributes_over_add(head, tail, pred);
        Seq::filter_distributes_over_add(head.push(last), tail, pred);
        Seq::lemma_filter_push(head, last, pred);
        assert(front.push(last) =~= levels);
        Seq::lemma_filter_push(front, last, pred);
        if pred(last) {
            tail.lemma_all_neg_filter_empty(pred);
            assert(head.filter(pred).push(last) + tail.filter(pred) =~= head.filter(pred).push(
                last,
            ));
        }
    }
}

/// Levels without a level at some price have none of that price to show.
proof fn lemma_none_at_price(levels: Seq<QuoteLevelView>, rank: int)
    requires
        forall|i: int| 0 <= i < levels.len() ==> (#[trigger] levels[i]).price.rank() != rank,
    ensures
        at_price(levels, rank).len() == 0,
{
    let pred = |l: QuoteLevelView| l.price.rank() == rank;
    levels.lemma_all_neg_filter_empty(pred);
}

/// Price order and the order within each price leave no choice: two
/// arrangements that both stand in price order and show, at every price, the
/// same levels in the same order are one arrangement.
pub proof fn lemma_order_leaves_no_choice(
    side: Side,
    one: Seq<QuoteLevelView>,
    other: Seq<QuoteLevelView>,
)
    requires
        in_price_order(side, one),
        in_price_order(side, other),
        forall|rank: int| at_price(one, rank) == at_price(other, rank),
    ensures
        one == other,
    decreases one.len(),
{
    if one.len() == 0 {
        if other.len() > 0 {
            let rank = other.last().price.rank();
            let pred = |l: QuoteLevelView| l.price.rank() == rank;
            assert(other.drop_last().push(other.last()) =~= other);
            Seq::lemma_filter_push(other.drop_last(), other.last(), pred);
            lemma_none_at_price(one, rank);
        }
    } else {
        let x = one.last();
        let rank = x.price.rank();
        let pred = |l: QuoteLevelView| l.price.rank() == rank;
        let front = one.drop_last();
        assert(front.push(x) =~= one);
        Seq::lemma_filter_push(front, x, pred);
        assert(at_price(one, rank) == at_price(other, rank));
        if other.len() == 0 {
            lemma_none_at_price(other, rank);
        }
        let y = other.last();
        let back = other.drop_last();
        assert(back.push(y) =~= other);
        if y.price.rank() != rank {
            // One of the two last levels is strictly behind every level of
            // the other arrangement, where none stands at its price.
            let high = y.price.rank();
            let pred_high = |l: QuoteLevelView| l.price.rank() == high;
            Seq::lemma_filter_push(back, y, pred_high);
            if better(side, x.price, y.price) {
                lemma_none_at_price(one, high);
            } else {
                lemma_none_at_price(other, rank);
            }
        }
        Seq::lemma_filter_push(back, y, pred);
        assert(at_price(front, rank).push(x).last() == x);
        assert(at_price(front, rank).push(x).drop_last() =~= at_price(front, rank));
        assert forall|k: int| at_price(front, k) == at_price(back, k) by {
            let pred_k = |l: QuoteLevelView| l.price.rank() == k;
            Seq::lemma_filter_push(front, x, pred_k);
            Seq::lemma_filter_push(back, y, pred_k);
            assert(at_price(one, k) == at_price(other, k));
        }
        lemma_order_leaves_no_choice(side, front, back);
    }
}

/// The ranked levels are the one arrangement of the levels that stands in
/// price order and keeps, at every price, the order in which the levels were
/// given.
pub proof fn lemma_ranked_unique(side: Side, levels: Seq<QuoteLevelView>, other: Seq<QuoteLevelView>)
    requires
        in_price_order(side, other),
        forall|rank: int| at_price(other, rank) == at_price(levels, rank),
    ensures
        other == ranked(side, levels),
{
    lemma_ranked_in_order(side, levels);
    assert forall|rank: int| at_price(other, rank) == at_price(ranked(side, levels), rank) by {
        lemma_ranked_stable(side, levels, rank);
    }
    lemma_order_leaves_no_choice(side, other, ranked(side, levels));
}

/// A ladder is the front of the ranked levels. It is never longer than its
/// depth nor than the levels it was made from, and it stands in price order.
pub proof fn lemma_ladder_shape(side: Side, levels: Seq<QuoteLevelView>)
    ensures
        ladder(side, levels).len() <= LADDER_DEPTH,
        ladder(side, levels).len() <= levels.len(),
        ladder(side, levels).len() == if levels.len() <= LADDER_DEPTH {
            levels.len()
        } else {
            LADDER_DEPTH as nat
        },
        in_price_order(side, ladder(side, levels)),
        ladder(side, levels).is_prefix_of(ranked(side, levels)),
{
    lemma_ranked_in_order(side, levels);
}

/// Price order in plain terms: bids in price order never rise from one to
/// the next, asks never fall.
pub proof fn lemma_price_order_by_rank(side: Side, levels: Seq<QuoteLevelView>, i: int, j: int)
    requires
        in_price_order(side, levels),
        0 <= i <= j < levels.len(),
    ensures
        side == Side::Bid ==> levels[i].price.rank() >= levels[j].price.rank(),
        side == Side::Ask ==> levels[i].price.rank() <= levels[j].price.rank(),
{
}

} // verus!

use crate::types::Side;
use vstd::prelude::*;

verus! {

/// Whether a resting level at `level_price` is eligible to trade with an incoming
/// order on `side` limited at `limit`.
pub open spec fn crosses(side: Side, limit: u64, level_price: u64) -> bool {
    match side {
        Side::Bid => level_price <= limit,
        Side::Ask => level_price >= limit,
    }
}

/// The fills that an incoming order of `qty` on `side`, limited at `limit`, takes from
/// a ladder of `(price, depth)` levels listed best price first.
pub open spec fn greedy_fills(side: Side, limit: u64, levels: Seq<(u64, int)>, qty: int) -> Seq<
    (u64, u64),
>
    decreases levels.len(),
{
    if levels.len() == 0 || qty <= 0 || !crosses(side, limit, levels[0].0) {
        seq![]
    } else {
        let m = if levels[0].1 < qty {
            levels[0].1
        } else {
            qty
        };
        let rest = greedy_fills(side, limit, levels.drop_first(), qty - m);
        if m > 0 {
            seq![(m as u64, levels[0].0)] + rest
        } else {
            rest
        }
    }
}

/// What remains of a ladder listed best price first once an incoming order of `qty` on
/// `side`, limited at `limit`, has traded against it.
pub open spec fn greedy_left(side: Side, limit: u64, levels: Seq<(u64, int)>, qty: int) -> Seq<
    (u64, int),
>
    decreases levels.len(),
{
    if levels.len() == 0 || qty <= 0 || !crosses(side, limit, levels[0].0) {
        levels
    } else {
        let m = if levels[0].1 < qty {
            levels[0].1
        } else {
            qty
        };
        seq![(levels[0].0, levels[0].1 - m)] + greedy_left(side, limit, levels.drop_first(), qty - m)
    }
}

/// The depth listed for `price` in a ladder, or zero where the price has no level.
pub open spec fn depth_at(levels: Seq<(u64, int)>, price: u64) -> int {
    if exists|i: int| 0 <= i < levels.len() && levels[i].0 == price {
        levels[choose|i: int| 0 <= i < levels.len() && levels[i].0 == price].1
    } else {
        0
    }
}

/// Some level of the ladder holds liquidity.
pub open spec fn has_live(levels: Seq<(u64, int)>) -> bool {
    exists|i: int| 0 <= i < levels.len() && levels[i].1 > 0
}

/// `price` is the best price among the levels that hold liquidity: the highest for
/// bids, the lowest for asks.
pub open spec fn is_best_live(levels: Seq<(u64, int)>, side: Side, price: u64) -> bool {
    exists|i: int|
        0 <= i < levels.len() && levels[i].1 > 0 && levels[i].0 == price && forall|k: int|
            0 <= k < levels.len() && levels[k].1 > 0 ==> match side {
                Side::Bid => levels[k].0 <= price,
                Side::Ask => levels[k].0 >= price,
            }
}

/// An ascending ladder with `qty` more resting at `price`: the level at that price
/// deepened, or a new level put in its sorted place.
pub open spec fn ladder_add(levels: Seq<(u64, int)>, price: u64, qty: int) -> Seq<(u64, int)>
    decreases levels.len(),
{
    if qty == 0 {
        levels
    } else if levels.len() == 0 || levels[0].0 > price {
        seq![(price, qty)] + levels
    } else if levels[0].0 == price {
        seq![(price, levels[0].1 + qty)] + levels.drop_first()
    } else {
        seq![levels[0]] + ladder_add(levels.drop_first(), price, qty)
    }
}

pub(crate) proof fn lemma_ladder_add(levels: Seq<(u64, int)>, price: u64, qty: int, i: int)
    requires
        strictly_ascending(levels),
        qty != 0,
        0 <= i <= levels.len(),
        forall|k: int| 0 <= k < i ==> levels[k].0 < price,
        i < levels.len() ==> levels[i].0 >= price,
    ensures
        i < levels.len() && levels[i].0 == price ==> ladder_add(levels, price, qty)
            == levels.update(i, (price, levels[i].1 + qty)),
        !(i < levels.len() && levels[i].0 == price) ==> ladder_add(levels, price, qty)
            == levels.insert(i, (price, qty)),
    decreases i,
{
    if i == 0 {
        if levels.len() > 0 && levels[0].0 == price {
            assert(seq![(price, levels[0].1 + qty)] + levels.drop_first() =~= levels.update(0, (price, levels[0].1 + qty)));
        } else {
            assert(seq![(price, qty)] + levels =~= levels.insert(0, (price, qty)));
        }
    } else {
        let rest = levels.drop_first();
        lemma_ladder_add(rest, price, qty, i - 1);
        if i < levels.len() && levels[i].0 == price {
            assert(seq![levels[0]] + rest.update(i - 1, (price, rest[i - 1].1 + qty)) =~= levels.update(i, (price, levels[i].1 + qty)));
        } else {
            assert(seq![levels[0]] + rest.insert(i - 1, (price, qty)) =~= levels.insert(i, (price, qty)));
        }
    }
}

/// The prices of a ladder strictly increase along it.
pub open spec fn strictly_ascending(levels: Seq<(u64, int)>) -> bool {
    forall|a: int, b: int| 0 <= a < b < levels.len() ==> levels[a].0 < levels[b].0
}

/// Every bid level with liquidity is priced below every ask level with liquidity.
pub open spec fn not_crossed(bids: Seq<(u64, int)>, asks: Seq<(u64, int)>) -> bool {
    forall|i: int, k: int|
        0 <= i < bids.len() && 0 <= k < asks.len() && bids[i].1 > 0 && asks[k].1 > 0 ==> bids[i].0
            < asks[k].0
}

pub(crate) proof fn lemma_depth_at_update(l: Seq<(u64, int)>, i: int, d: int)
    requires
        forall|a: int, b: int| 0 <= a < b < l.len() ==> l[a].0 < l[b].0,
        0 <= i < l.len(),
    ensures
        forall|p: u64| #[trigger] depth_at(l.update(i, (l[i].0, d)), p) == if p == l[i].0 { d } else { depth_at(l, p) },
{
    let l1 = l.update(i, (l[i].0, d));
    assert forall|p: u64| #[trigger] depth_at(l1, p) == if p == l[i].0 { d } else { depth_at(l, p) } by {
        if exists|k: int| 0 <= k < l1.len() && l1[k].0 == p {
            let k = choose|k: int| 0 <= k < l1.len() && l1[k].0 == p;
            lemma_depth_at_index(l1, k);
            lemma_depth_at_index(l, k);
            if k != i {
                if k < i { assert(l[k].0 < l[i].0); } else { assert(l[i].0 < l[k].0); }
            }
        } else {
            assert(l1[i].0 == l[i].0);
            assert(!exists|k: int| 0 <= k < l.len() && l[k].0 == p) by {
                if exists|k: int| 0 <= k < l.len() && l[k].0 == p {
                    let k = choose|k: int| 0 <= k < l.len() && l[k].0 == p;
                    assert(l1[k].0 == p);
                }
            }
        }
    }
}

pub(crate) proof fn lemma_depth_at_index(l: Seq<(u64, int)>, i: int)
    requires
        forall|a: int, b: int| 0 <= a < b < l.len() ==> l[a].0 < l[b].0,
        0 <= i < l.len(),
    ensures
        depth_at(l, l[i].0) == l[i].1,
{
    let c = choose|k: int| 0 <= k < l.len() && l[k].0 == l[i].0;
    if c < i {
        assert(l[c].0 < l[i].0);
    } else if c > i {
        assert(l[i].0 < l[c].0);
    }
}

} // verus!

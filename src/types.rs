use vstd::prelude::*;

verus! {

/// The side of the market an order sits on.
#[derive(Debug, Clone, Copy, PartialEq, Eq, Structural)]
pub enum Side {
    Bid,
    Ask,
}

/// The other side of the market.
pub open spec fn opposite(s: Side) -> Side {
    match s {
        Side::Bid => Side::Ask,
        Side::Ask => Side::Bid,
    }
}

/// Where an incoming order stands once an add call has finished.
#[derive(Debug, Clone, Copy, PartialEq, Eq, Structural)]
pub enum OrderStatus {
    Uninitialized,
    Created,
    Filled,
    PartiallyFilled,
}

/// The outcome of one add call.
#[derive(Debug)]
pub struct FillResult {
    /// One `(quantity, price)` pair per price level traded against, best price first.
    pub filled_orders: Vec<(u64, u64)>,
    pub remaining_qty: u64,
    pub status: OrderStatus,
}

/// A resting unit of liquidity.
#[derive(Debug, Clone, Copy, PartialEq, Eq, Structural)]
pub struct Order {
    pub order_id: u64,
    pub qty: u64,
}

/// Total quantity of a queue of orders.
pub open spec fn qty_sum(q: Seq<Order>) -> int
    decreases q.len(),
{
    if q.len() == 0 {
        0
    } else {
        q[0].qty as int + qty_sum(q.drop_first())
    }
}

/// Total quantity of a sequence of `(quantity, price)` fills.
pub open spec fn filled_sum(f: Seq<(u64, u64)>) -> int
    decreases f.len(),
{
    if f.len() == 0 {
        0
    } else {
        filled_sum(f.drop_last()) + f.last().0 as int
    }
}

pub proof fn lemma_qty_sum_push(q: Seq<Order>, o: Order)
    ensures
        qty_sum(q.push(o)) == qty_sum(q) + o.qty,
    decreases q.len(),
{
    if q.len() > 0 {
        assert(q.push(o).drop_first() =~= q.drop_first().push(o));
        lemma_qty_sum_push(q.drop_first(), o);
    } else {
        assert(q.push(o).drop_first() =~= q);
        assert(qty_sum(q.push(o).drop_first()) == 0);
    }
}

impl FillResult {
    pub(crate) fn new() -> (r: Self)
        ensures
            r.filled_orders@.len() == 0,
            r.remaining_qty == u64::MAX,
            r.status == OrderStatus::Uninitialized,
    {
        FillResult { filled_orders: Vec::new(), remaining_qty: u64::MAX, status: OrderStatus::Uninitialized }
    }
}

} // verus!

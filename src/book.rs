use crate::id_source::random_order_id;
use crate::ladder::{
    crosses, depth_at, greedy_fills, greedy_left, has_live, is_best_live, lemma_depth_at_index, strictly_ascending,
    lemma_depth_at_update, not_crossed, ladder_add, lemma_ladder_add,
};
use crate::types::{filled_sum, opposite, lemma_qty_sum_push, qty_sum, FillResult, Order, OrderStatus, Side};
use std::collections::{HashMap, VecDeque};
use vstd::prelude::*;

verus! {

broadcast use vstd::std_specs::hash::group_hash_axioms;

pub open spec fn queue_has(q: Seq<Order>, id: u64) -> bool {
    exists|k: int| 0 <= k < q.len() && q[k].order_id == id
}

/// Quantity of the order `id` in a queue that holds it.
pub open spec fn qty_of(q: Seq<Order>, id: u64) -> int {
    q[choose|k: int| 0 <= k < q.len() && q[k].order_id == id].qty as int
}

proof fn lemma_qty_sum_remove(q: Seq<Order>, k: int)
    requires
        0 <= k < q.len(),
    ensures
        qty_sum(q.remove(k)) == qty_sum(q) - q[k].qty,
    decreases k,
{
    if k > 0 {
        assert(q.remove(k).drop_first() =~= q.drop_first().remove(k - 1));
        lemma_qty_sum_remove(q.drop_first(), k - 1);
    } else {
        assert(q.remove(0) =~= q.drop_first());
    }
}

proof fn lemma_qty_sum_nonneg(q: Seq<Order>)
    ensures
        qty_sum(q) >= 0,
    decreases q.len(),
{
    if q.len() > 0 {
        lemma_qty_sum_nonneg(q.drop_first());
    }
}

proof fn lemma_qty_sum_positive(q: Seq<Order>)
    requires
        forall|k: int| 0 <= k < q.len() ==> q[k].qty > 0,
    ensures
        qty_sum(q) > 0 <==> q.len() > 0,
    decreases q.len(),
{
    if q.len() > 0 {
        lemma_qty_sum_nonneg(q.drop_first());
    }
}

/// One side of the market: a sorted price index over an arena of FIFO queues.
/// A slot, once given to a price, keeps it for the life of the book.
pub struct HalfBook {
    s: Side,
    /// `(price, slot)` pairs in strictly ascending order of price. A sorted vector
    /// rather than a `BTreeMap`: vstd specifies only the ascending iterator of
    /// `BTreeMap`, while the bid side is swept from the highest price down, and the
    /// sweep mutates the queues between steps, which an open iterator would forbid.
    price_map: Vec<(u64, usize)>,
    price_levels: Vec<VecDeque<Order>>,
    /// For each slot, the position of its entry in `price_map`.
    slot_pos: Ghost<Seq<int>>,
}

impl HalfBook {
    pub closed spec fn side(&self) -> Side {
        self.s
    }

    pub closed spec fn num_slots(&self) -> int {
        self.price_levels@.len() as int
    }

    pub closed spec fn queue(&self, j: int) -> Seq<Order> {
        self.price_levels@[j]@
    }

    pub closed spec fn slot_price(&self, j: int) -> u64 {
        self.price_map@[self.slot_pos@[j]].0
    }

    /// The queue of the level at `price`, empty where the price has no level.
    pub closed spec fn queue_at_price(&self, price: u64) -> Seq<Order> {
        if exists|j: int| 0 <= j < self.num_slots() && self.slot_price(j) == price {
            self.queue(choose|j: int| 0 <= j < self.num_slots() && self.slot_price(j) == price)
        } else {
            Seq::empty()
        }
    }

    /// The levels as `(price, depth)` in ascending order of price.
    pub closed spec fn ladder(&self) -> Seq<(u64, int)> {
        Seq::new(
            self.price_map@.len(),
            |i: int| (self.price_map@[i].0, qty_sum(self.queue(self.price_map@[i].1 as int))),
        )
    }

    /// The position in the ladder of the `i`-th level in priority order.
    pub closed spec fn level_at_rank(&self, i: int) -> int {
        match self.s {
            Side::Ask => i,
            Side::Bid => self.price_map@.len() - 1 - i,
        }
    }

    /// The levels best price first: descending for bids, ascending for asks.
    pub closed spec fn best_first(&self) -> Seq<(u64, int)> {
        Seq::new(self.price_map@.len(), |i: int| self.ladder()[self.level_at_rank(i)])
    }

    pub closed spec fn wf(&self) -> bool {
        let pm = self.price_map@;
        let n = pm.len();
        &&& self.price_levels@.len() == n
        &&& self.slot_pos@.len() == n
        &&& forall|i: int, j: int| 0 <= i < j < n ==> pm[i].0 < pm[j].0
        &&& forall|i: int|
            0 <= i < n ==> (#[trigger] pm[i]).1 < n && self.slot_pos@[pm[i].1 as int] == i
        &&& forall|j: int|
            0 <= j < n ==> 0 <= #[trigger] self.slot_pos@[j] < n && pm[self.slot_pos@[j]].1 == j
        &&& forall|j: int, k: int|
            0 <= j < n && 0 <= k < self.queue(j).len() ==> (#[trigger] self.queue(j)[k]).qty > 0
    }

    /// Each resting order of this side is indexed at its own slot, each index entry of
    /// this side names a slot whose queue holds that order, and no queue holds an
    /// identifier twice.
    pub closed spec fn indexed(&self, loc: Map<u64, (Side, usize)>) -> bool {
        &&& forall|j: int, k: int|
            0 <= j < self.num_slots() && 0 <= k < self.queue(j).len() ==> loc.contains_key(
                (#[trigger] self.queue(j)[k]).order_id,
            ) && loc[self.queue(j)[k].order_id].0 == self.s
                && loc[self.queue(j)[k].order_id].1 as int == j
        &&& forall|id: u64|
            #[trigger] loc.contains_key(id) && loc[id].0 == self.s ==> (loc[id].1 as int)
                < self.num_slots() && queue_has(self.queue(loc[id].1 as int), id)
        &&& forall|j: int, k1: int, k2: int|
            0 <= j < self.num_slots() && 0 <= k1 < k2 < self.queue(j).len() ==> (#[trigger] self.queue(
                j,
            )[k1]).order_id != (#[trigger] self.queue(j)[k2]).order_id
    }

    pub fn new(s: Side) -> (r: Self)
        ensures
            r.wf(),
            r.side() == s,
            r.ladder().len() == 0,
            r.num_slots() == 0,
    {
        HalfBook { s, price_map: Vec::new(), price_levels: Vec::new(), slot_pos: Ghost(Seq::empty()) }
    }

    /// Position in the price index of the first entry whose price is not below `price`.
    fn lower_bound(&self, price: u64) -> (r: usize)
        requires
            self.wf(),
        ensures
            r <= self.price_map@.len(),
            forall|i: int| 0 <= i < r ==> self.price_map@[i].0 < price,
            r < self.price_map@.len() ==> self.price_map@[r as int].0 >= price,
    {
        let mut lo: usize = 0;
        let mut hi: usize = self.price_map.len();
        while lo < hi
            invariant
                self.wf(),
                lo <= hi <= self.price_map@.len(),
                forall|i: int| 0 <= i < lo ==> self.price_map@[i].0 < price,
                forall|i: int| hi <= i < self.price_map@.len() ==> self.price_map@[i].0 >= price,
            decreases hi - lo,
        {
            let mid = lo + (hi - lo) / 2;
            if self.price_map[mid].0 < price {
                lo = mid + 1;
            } else {
                hi = mid;
            }
        }
        lo
    }

    /// Total resting quantity at `price`, zero where the price has no level, and
    /// `u64::MAX` where the total does not fit.
    pub fn get_total_qty(&self, price: u64) -> (r: u64)
        requires
            self.wf(),
        ensures
            r == if depth_at(self.ladder(), price) <= u64::MAX {
                depth_at(self.ladder(), price)
            } else {
                u64::MAX as int
            },
    {
        let i = self.lower_bound(price);
        if i == self.price_map.len() || self.price_map[i].0 != price {
            proof {
                assert(!exists|k: int| 0 <= k < self.ladder().len() && self.ladder()[k].0 == price);
            }
            return 0;
        }
        proof {
            let l = self.ladder();
            assert(l[i as int].0 == price);
            let c = choose|k: int| 0 <= k < l.len() && l[k].0 == price;
            assert(c == i as int);
        }
        let slot = self.price_map[i].1;
        let q = &self.price_levels[slot];
        let mut total: u64 = 0;
        let mut k: usize = 0;
        while k < q.len()
            invariant
                q@ == self.queue(slot as int),
                k <= q@.len(),
                total == if qty_sum(q@.take(k as int)) <= u64::MAX {
                    qty_sum(q@.take(k as int))
                } else {
                    u64::MAX as int
                },
            decreases q@.len() - k,
        {
            proof {
                assert(q@.take(k + 1) =~= q@.take(k as int).push(q@[k as int]));
                lemma_qty_sum_push(q@.take(k as int), q@[k as int]);
                lemma_qty_sum_nonneg(q@.take(k as int));
            }
            total = total.saturating_add(q[k].qty);
            k += 1;
        }
        proof {
            assert(q@.take(k as int) =~= q@);
        }
        total
    }
}

/// `after` is `before` less some of its oldest orders, with at most the new front
/// order reduced in quantity.
pub open spec fn fifo_consumed(before: Seq<Order>, after: Seq<Order>) -> bool {
    exists|c: int|
        #![trigger before.skip(c)]
        0 <= c <= before.len() && (after == before.skip(c) || (c < before.len() && after.len()
            == before.len() - c && after.drop_first() == before.skip(c + 1) && after[0].order_id
            == before[c].order_id && 0 < after[0].qty < before[c].qty))
}

/// Trades an incoming quantity `rem` against the queue at `slot`, oldest order first.
/// Fully consumed orders leave the queue and the location index; the last order
/// touched may be left reduced. Returns the quantity traded.
fn match_at_price_level(
    book: &mut HalfBook,
    slot: usize,
    rem: &mut u64,
    loc: &mut HashMap<u64, (Side, usize)>,
) -> (matched: u64)
    requires
        old(book).wf(),
        old(book).indexed(old(loc)@),
        slot < old(book).num_slots(),
    ensures
        final(book).wf(),
        final(book).indexed(final(loc)@),
        final(book).price_map@ == old(book).price_map@,
        final(book).slot_pos@ == old(book).slot_pos@,
        final(book).s == old(book).s,
        final(book).num_slots() == old(book).num_slots(),
        forall|j: int| 0 <= j < old(book).num_slots() && j != slot ==> #[trigger] final(book).queue(j) == old(book).queue(j),
        final(book).queue(slot as int).len() > 0 ==> old(book).queue(slot as int).len() > 0,
        *final(rem) > 0 ==> final(book).queue(slot as int).len() == 0,
        matched == if qty_sum(old(book).queue(slot as int)) < *old(rem) {
            qty_sum(old(book).queue(slot as int))
        } else {
            *old(rem) as int
        },
        *final(rem) == *old(rem) - matched,
        qty_sum(final(book).queue(slot as int)) == qty_sum(old(book).queue(slot as int)) - matched,
        fifo_consumed(old(book).queue(slot as int), final(book).queue(slot as int)),
        forall|id: u64| #[trigger] final(loc)@.contains_key(id) ==> old(loc)@.contains_key(id) && final(loc)@[id] == old(loc)@[id],
        forall|id: u64| #[trigger] old(loc)@.contains_key(id) && old(loc)@[id].0 != old(book).s ==> final(loc)@.contains_key(id),
{
    let ghost b0 = *book;
    let ghost q0 = book.queue(slot as int);
    let ghost l0 = loc@;
    let ghost r0 = *rem;
    let ghost mut c: int = 0;
    let ghost mut cut: bool = false;
    proof {
        assert(q0.skip(0) =~= q0);
    }
    let mut matched: u64 = 0;
    while *rem > 0 && book.price_levels[slot].len() > 0
        invariant
            0 <= c <= q0.len(),
            !cut ==> book.queue(slot as int) == q0.skip(c),
            cut ==> *rem == 0 && c < q0.len() && book.queue(slot as int).len() == q0.len() - c
                && book.queue(slot as int).drop_first() == q0.skip(c + 1)
                && book.queue(slot as int)[0].order_id == q0[c].order_id
                && 0 < book.queue(slot as int)[0].qty < q0[c].qty,
            book.wf(),
            book.indexed(loc@),
            slot < book.num_slots(),
            book.price_map@ == b0.price_map@,
            book.slot_pos@ == b0.slot_pos@,
            book.s == b0.s,
            book.num_slots() == b0.num_slots(),
            forall|j: int| 0 <= j < b0.num_slots() && j != slot ==> #[trigger] book.queue(j) == b0.queue(j),
            book.queue(slot as int).len() > 0 ==> q0.len() > 0,
            matched + *rem == r0,
            matched + qty_sum(book.queue(slot as int)) == qty_sum(q0),
            forall|id: u64| #[trigger] loc@.contains_key(id) ==> l0.contains_key(id) && loc@[id] == l0[id],
            forall|id: u64| #[trigger] l0.contains_key(id) && l0[id].0 != b0.s ==> loc@.contains_key(id),
        decreases book.queue(slot as int).len() + *rem,
    {
        let ghost bq = *book;
        let ghost lq = loc@;
        let ghost q = book.queue(slot as int);
        let front = book.price_levels[slot][0];
        assert(front == q[0]);
        assert(front.qty > 0) by { assert(book.queue(slot as int)[0].qty > 0); }
        if front.qty <= *rem {
            *rem = *rem - front.qty;
            matched = matched + front.qty;
            book.price_levels[slot].pop_front();
            loc.remove(&front.order_id);
            proof {
                assert(q0.skip(c + 1) =~= q0.skip(c).drop_first());
                c = c + 1;
                assert(book.queue(slot as int) =~= q.drop_first());
                assert forall|j: int| 0 <= j < bq.num_slots() && j != slot implies #[trigger] book.queue(j) == bq.queue(j) by {
                    assert(book.price_levels@[j] == bq.price_levels@[j]);
                }
                assert forall|j: int, k: int| 0 <= j < book.num_slots() && 0 <= k < book.queue(j).len()
                    implies loc@.contains_key((#[trigger] book.queue(j)[k]).order_id)
                        && loc@[book.queue(j)[k].order_id].0 == book.s
                        && loc@[book.queue(j)[k].order_id].1 as int == j by {
                    assert(loc@ == lq.remove(front.order_id));
                    assert(lq[front.order_id].1 == slot) by {
                        assert(bq.queue(slot as int)[0] == front);
                    }
                    if j == slot {
                        assert(book.queue(j)[k] == bq.queue(j)[k + 1]);
                        assert(bq.queue(j)[0].order_id != bq.queue(j)[k + 1].order_id);
                        assert(lq.contains_key(bq.queue(j)[k + 1].order_id));
                    } else {
                        assert(book.queue(j)[k] == bq.queue(j)[k]);
                        assert(lq.contains_key(bq.queue(j)[k].order_id));
                    }
                }
                assert forall|id: u64| #[trigger] loc@.contains_key(id) && loc@[id].0 == book.s
                    implies (loc@[id].1 as int) < book.num_slots() && queue_has(book.queue(loc@[id].1 as int), id) by {
                    let j = lq[id].1 as int;
                    assert(lq.contains_key(id) && lq[id].0 == bq.s);
                    assert(queue_has(bq.queue(j), id));
                    let k = choose|k: int| 0 <= k < bq.queue(j).len() && bq.queue(j)[k].order_id == id;
                    if j == slot {
                        assert(k != 0);
                        assert(book.queue(j)[k - 1] == bq.queue(j)[k]);
                    } else {
                        assert(book.queue(j)[k] == bq.queue(j)[k]);
                    }
                }
                assert forall|j: int, k1: int, k2: int|
                    0 <= j < book.num_slots() && 0 <= k1 < k2 < book.queue(j).len()
                    implies (#[trigger] book.queue(j)[k1]).order_id != (#[trigger] book.queue(j)[k2]).order_id by {
                    if j == slot {
                        assert(book.queue(j)[k1] == bq.queue(j)[k1 + 1]);
                        assert(book.queue(j)[k2] == bq.queue(j)[k2 + 1]);
                    }
                }
                assert forall|j: int, k: int| 0 <= j < book.num_slots() && 0 <= k < book.queue(j).len()
                    implies (#[trigger] book.queue(j)[k]).qty > 0 by {
                    if j == slot {
                        assert(book.queue(j)[k] == bq.queue(j)[k + 1]);
                    }
                }
            }
        } else {
            let reduced = Order { order_id: front.order_id, qty: front.qty - *rem };
            matched = matched + *rem;
            *rem = 0;
            book.price_levels[slot].pop_front();
            book.price_levels[slot].push_front(reduced);
            proof {
                assert(q0.skip(c + 1) =~= q0.skip(c).drop_first());
                assert(q[0] == q0[c]);
                cut = true;
                assert(book.queue(slot as int) =~= q.update(0, reduced));
                assert(book.queue(slot as int).drop_first() =~= q.drop_first());
                assert forall|j: int| 0 <= j < bq.num_slots() && j != slot implies #[trigger] book.queue(j) == bq.queue(j) by {
                    assert(book.price_levels@[j] == bq.price_levels@[j]);
                }
                assert forall|j: int, k: int| 0 <= j < book.num_slots() && 0 <= k < book.queue(j).len()
                    implies (#[trigger] book.queue(j)[k]).order_id == bq.queue(j)[k].order_id by {
                    if j != slot {
                        assert(book.queue(j) == bq.queue(j));
                    }
                }
                assert forall|id: u64| #[trigger] loc@.contains_key(id) && loc@[id].0 == book.s
                    implies (loc@[id].1 as int) < book.num_slots() && queue_has(book.queue(loc@[id].1 as int), id) by {
                    let j = lq[id].1 as int;
                    assert(queue_has(bq.queue(j), id));
                    let k = choose|k: int| 0 <= k < bq.queue(j).len() && bq.queue(j)[k].order_id == id;
                    assert(book.queue(j)[k].order_id == bq.queue(j)[k].order_id);
                }
                assert forall|j: int, k: int| 0 <= j < book.num_slots() && 0 <= k < book.queue(j).len()
                    implies (#[trigger] book.queue(j)[k]).qty > 0 by {
                    if j != slot {
                        assert(book.queue(j) == bq.queue(j));
                    } else if k != 0 {
                        assert(book.queue(j)[k] == bq.queue(j)[k]);
                    }
                }
            }
        }
    }
    proof {
        let after = book.queue(slot as int);
        if cut {
            assert(after.drop_first() == q0.skip(c + 1));
            assert(q0.skip(c) == q0.skip(c));
        } else {
            assert(after == q0.skip(c));
        }
        assert(fifo_consumed(q0, after));
        lemma_qty_sum_nonneg(book.queue(slot as int));
        if book.queue(slot as int).len() == 0 {
            assert(qty_sum(book.queue(slot as int)) == 0);
        }
    }
    matched
}

proof fn lemma_best_first_one_level(b0: HalfBook, b1: HalfBook, slot: int, i: int)
    requires
        b0.wf(),
        b1.wf(),
        b1.price_map@ == b0.price_map@,
        b1.slot_pos@ == b0.slot_pos@,
        b1.s == b0.s,
        0 <= i < b0.price_map@.len(),
        b0.price_map@[b0.level_at_rank(i)].1 == slot,
        forall|j: int| 0 <= j < b0.num_slots() && j != slot ==> #[trigger] b1.queue(j) == b0.queue(j),
    ensures
        b1.best_first() =~= b0.best_first().update(i, (b0.price_map@[b0.level_at_rank(i)].0, qty_sum(b1.queue(slot)))),
{
    let n = b0.price_map@.len();
    let li = b0.level_at_rank(i);
    assert forall|r: int| 0 <= r < n implies #[trigger] b1.best_first()[r]
        == b0.best_first().update(i, (b0.price_map@[li].0, qty_sum(b1.queue(slot))))[r] by {
        let lr = b0.level_at_rank(r);
        let sr = b0.price_map@[lr].1 as int;
        assert(b0.price_map@[lr] == b0.price_map@[lr]);
        assert(b0.price_map@[li] == b0.price_map@[li]);
        if r != i {
            assert(lr != li);
            assert(b0.slot_pos@[sr] == lr);
            assert(b0.slot_pos@[slot] == li);
            assert(sr != slot);
        }
    }
}

/// Executable form of [`crosses`].
fn level_crosses(side: Side, limit: u64, level_price: u64) -> (r: bool)
    ensures
        r == crosses(side, limit, level_price),
{
    match side {
        Side::Bid => level_price <= limit,
        Side::Ask => level_price >= limit,
    }
}

/// The rank, in priority order, of the level held by `slot`.
spec fn rank_of_slot(book: HalfBook, j: int) -> int {
    match book.s {
        Side::Ask => book.slot_pos@[j],
        Side::Bid => book.price_map@.len() - 1 - book.slot_pos@[j],
    }
}

/// The crossing phase: walks `book`, which is the side opposite to `side`, best price
/// first, trading `qty` against every level that `limit` reaches.
/// Returns the fills and the quantity left over.
#[verifier::rlimit(60)]
fn match_against(
    book: &mut HalfBook,
    loc: &mut HashMap<u64, (Side, usize)>,
    side: Side,
    limit: u64,
    qty: u64,
) -> (r: (Vec<(u64, u64)>, u64))
    requires
        old(book).wf(),
        old(book).indexed(old(loc)@),
        old(book).s != side,
    ensures
        final(book).wf(),
        final(book).indexed(final(loc)@),
        final(book).price_map@ == old(book).price_map@,
        final(book).slot_pos@ == old(book).slot_pos@,
        final(book).s == old(book).s,
        final(book).num_slots() == old(book).num_slots(),
        r.0@ == greedy_fills(side, limit, old(book).best_first(), qty as int),
        final(book).best_first() == greedy_left(side, limit, old(book).best_first(), qty as int),
        forall|j: int| 0 <= j < old(book).num_slots() ==> #[trigger] fifo_consumed(old(book).queue(j), final(book).queue(j)),
        filled_sum(r.0@) + r.1 == qty,
        forall|j: int| 0 <= j < final(book).num_slots() && #[trigger] final(book).queue(j).len() > 0 ==> old(book).queue(j).len() > 0,
        r.1 > 0 ==> forall|j: int| 0 <= j < final(book).num_slots() && #[trigger] final(book).queue(j).len() > 0
            ==> !crosses(side, limit, final(book).slot_price(j)),
        forall|id: u64| #[trigger] final(loc)@.contains_key(id) ==> old(loc)@.contains_key(id) && final(loc)@[id] == old(loc)@[id],
        forall|id: u64| #[trigger] old(loc)@.contains_key(id) && old(loc)@[id].0 != old(book).s ==> final(loc)@.contains_key(id),
{
    let ghost b0 = *book;
    let ghost l0 = loc@;
    let ghost p0 = b0.best_first();
    let n = book.price_map.len();
    let mut fills: Vec<(u64, u64)> = Vec::new();
    let mut rem: u64 = qty;
    let mut i: usize = 0;
    proof {
        assert forall|j: int| 0 <= j < n implies #[trigger] fifo_consumed(b0.queue(j), book.queue(j)) by {
            assert(b0.queue(j).skip(0) =~= b0.queue(j));
        }
        assert(p0.skip(0) =~= p0);
        assert(book.best_first().take(0) + greedy_left(side, limit, p0, qty as int) =~= greedy_left(side, limit, p0, qty as int));
        assert(fills@ + greedy_fills(side, limit, p0, qty as int) =~= greedy_fills(side, limit, p0, qty as int));
    }
    loop
        invariant
            book.wf(),
            book.indexed(loc@),
            n == book.price_map@.len(),
            book.price_map@ == b0.price_map@,
            book.slot_pos@ == b0.slot_pos@,
            book.s == b0.s,
            book.s != side,
            book.num_slots() == b0.num_slots(),
            i <= n,
            p0 == b0.best_first(),
            fills@ + greedy_fills(side, limit, p0.skip(i as int), rem as int) == greedy_fills(side, limit, p0, qty as int),
            book.best_first().take(i as int) + greedy_left(side, limit, p0.skip(i as int), rem as int)
                == greedy_left(side, limit, p0, qty as int),
            book.best_first().skip(i as int) == p0.skip(i as int),
            forall|j: int| 0 <= j < n ==> #[trigger] fifo_consumed(b0.queue(j), book.queue(j)),
            book.best_first().len() == n,
            filled_sum(fills@) + rem == qty,
            forall|j: int| 0 <= j < n && rank_of_slot(b0, j) >= i ==> #[trigger] book.queue(j) == b0.queue(j),
            rem > 0 ==> forall|j: int| 0 <= j < n && rank_of_slot(b0, j) < i ==> #[trigger] book.queue(j).len() == 0,
            forall|j: int| 0 <= j < n && #[trigger] book.queue(j).len() > 0 ==> b0.queue(j).len() > 0,
            forall|id: u64| #[trigger] loc@.contains_key(id) ==> l0.contains_key(id) && loc@[id] == l0[id],
            forall|id: u64| #[trigger] l0.contains_key(id) && l0[id].0 != b0.s ==> loc@.contains_key(id),
        ensures
            greedy_fills(side, limit, p0.skip(i as int), rem as int) == Seq::<(u64, u64)>::empty(),
            greedy_left(side, limit, p0.skip(i as int), rem as int) == p0.skip(i as int),
            rem > 0 ==> i < n && !crosses(side, limit, p0[i as int].0) || i == n,
        decreases n - i,
    {
        if i == n || rem == 0 {
            break;
        }
        let lvl: usize = match book.s {
            Side::Ask => i,
            Side::Bid => n - 1 - i,
        };
        let level_price = book.price_map[lvl].0;
        proof {
            assert(p0[i as int].0 == level_price);
            assert(p0.skip(i as int)[0] == p0[i as int]);
        }
        if !level_crosses(side, limit, level_price) {
            break;
        }
        let slot = book.price_map[lvl].1;
        let ghost bq = *book;
        let ghost rq = rem;
        proof {
            assert(b0.price_map@[lvl as int] == book.price_map@[lvl as int]);
            assert(rank_of_slot(b0, slot as int) == i);
            assert(book.queue(slot as int) == b0.queue(slot as int));
            assert(p0[i as int] == (level_price, qty_sum(b0.queue(slot as int))));
            assert(p0.skip(i as int)[0] == p0[i as int]);
            assert(p0.skip(i as int).drop_first() =~= p0.skip(i + 1));
        }
        let m = match_at_price_level(book, slot, &mut rem, loc);
        proof {
            let d = qty_sum(bq.queue(slot as int));
            lemma_best_first_one_level(bq, *book, slot as int, i as int);
            assert(book.best_first().take(i + 1) =~= bq.best_first().take(i as int).push((level_price, d - m)));
            assert(book.best_first().skip(i + 1) =~= bq.best_first().skip(i + 1));
            assert(bq.best_first().skip(i + 1) =~= bq.best_first().skip(i as int).drop_first());
            assert(bq.best_first().take(i as int).push((level_price, d - m)) + greedy_left(side, limit, p0.skip(i + 1), rem as int)
                =~= bq.best_first().take(i as int) + (seq![(level_price, d - m)] + greedy_left(side, limit, p0.skip(i + 1), rem as int)));
        }
        let ghost before = fills@;
        if m != 0 {
            fills.push((m, level_price));
            proof {
                assert(before + (seq![(m, level_price)] + greedy_fills(side, limit, p0.skip(i + 1), rem as int))
                    =~= fills@ + greedy_fills(side, limit, p0.skip(i + 1), rem as int));
                assert(fills@.drop_last() =~= before);
            }
        }
        proof {
            assert forall|j: int| 0 <= j < n implies #[trigger] fifo_consumed(b0.queue(j), book.queue(j)) by {
                if j != slot {
                    assert(bq.queue(j) == book.queue(j));
                }
            }
            assert forall|j: int| 0 <= j < n && rank_of_slot(b0, j) >= i + 1 implies #[trigger] book.queue(j) == b0.queue(j) by {
                assert(j != slot);
                assert(bq.queue(j) == b0.queue(j));
            }
            if rem > 0 {
                assert forall|j: int| 0 <= j < n && rank_of_slot(b0, j) < i + 1 implies #[trigger] book.queue(j).len() == 0 by {
                    if j != slot {
                        assert(bq.queue(j).len() == 0);
                    }
                }
            }
            assert forall|j: int| 0 <= j < n && #[trigger] book.queue(j).len() > 0 implies b0.queue(j).len() > 0 by {
                if j != slot {
                    assert(bq.queue(j) == book.queue(j));
                }
            }
        }
        i = i + 1;
    }
    proof {
        assert(fills@ + Seq::<(u64, u64)>::empty() =~= fills@);
        assert(book.best_first() =~= book.best_first().take(i as int) + book.best_first().skip(i as int));
        if rem > 0 {
            assert forall|j: int| 0 <= j < n && #[trigger] book.queue(j).len() > 0
                implies !crosses(side, limit, book.slot_price(j)) by {
                let r = rank_of_slot(b0, j);
                assert(r >= i);
                assert(i < n);
                let pi = b0.slot_pos@[j];
                let lvl_i = match book.s { Side::Ask => i as int, Side::Bid => n - 1 - i };
                assert(p0[i as int].0 == book.price_map@[lvl_i].0);
                assert(!crosses(side, limit, book.price_map@[lvl_i].0));
                match book.s {
                    Side::Ask => {
                        assert(pi >= lvl_i);
                        if pi > lvl_i { assert(book.price_map@[lvl_i].0 < book.price_map@[pi].0); }
                    },
                    Side::Bid => {
                        assert(pi <= lvl_i);
                        if pi < lvl_i { assert(book.price_map@[pi].0 < book.price_map@[lvl_i].0); }
                    },
                }
            }
        }
    }
    (fills, rem)
}

/// The resting phase: puts a new order `id` of `qty` at `price` at the back of the
/// queue for that price, opening a slot where the price is new, and indexes it.
#[verifier::rlimit(100)]
fn rest_order(
    book: &mut HalfBook,
    loc: &mut HashMap<u64, (Side, usize)>,
    price: u64,
    qty: u64,
    id: u64,
)
    requires
        old(book).wf(),
        old(book).indexed(old(loc)@),
        !old(loc)@.contains_key(id),
        qty > 0,
    ensures
        final(book).wf(),
        final(book).indexed(final(loc)@),
        final(book).s == old(book).s,
        final(book).num_slots() >= old(book).num_slots(),
        exists|slot: usize| final(loc)@ == old(loc)@.insert(id, (old(book).s, slot)),
        final(loc)@.contains_key(id),
        (final(loc)@[id].1 as int) < final(book).num_slots(),
        final(book).slot_price(final(loc)@[id].1 as int) == price,
        final(book).queue(final(loc)@[id].1 as int) == (if (final(loc)@[id].1 as int) < old(book).num_slots() {
            old(book).queue(final(loc)@[id].1 as int)
        } else {
            Seq::<Order>::empty()
        }).push(Order { order_id: id, qty }),
        forall|j: int| 0 <= j < old(book).num_slots() && j != final(loc)@[id].1 as int ==> #[trigger] final(book).queue(j) == old(book).queue(j),
        forall|j: int| 0 <= j < old(book).num_slots() ==> #[trigger] final(book).slot_price(j) == old(book).slot_price(j),
        forall|j: int| 0 <= j < final(book).num_slots() && #[trigger] final(book).queue(j).len() > 0 ==>
            (j < old(book).num_slots() && old(book).queue(j).len() > 0) || final(book).slot_price(j) == price,
        forall|j: int| 0 <= j < final(book).num_slots() && final(book).slot_price(j) == price ==> #[trigger] final(book).queue(j).len() > 0,
        forall|p: u64| #[trigger] depth_at(final(book).ladder(), p) == depth_at(old(book).ladder(), p) + if p == price { qty as int } else { 0 },
        final(book).ladder() == ladder_add(old(book).ladder(), price, qty as int),
{
    let ghost b0 = *book;
    let ghost l0 = loc@;
    let order = Order { order_id: id, qty };
    let i = book.lower_bound(price);
    let n = book.price_map.len();
    proof {
        lemma_ladder_add(b0.ladder(), price, qty as int, i as int);
    }
    proof {
        assert forall|j: int, k: int| 0 <= j < b0.num_slots() && 0 <= k < b0.queue(j).len()
            implies (#[trigger] b0.queue(j)[k]).order_id != id by {
            assert(l0.contains_key(b0.queue(j)[k].order_id));
        }
    }
    if i < n && book.price_map[i].0 == price {
        let slot = book.price_map[i].1;
        book.price_levels[slot].push_back(order);
        loc.insert(id, (book.s, slot));
        proof {
            let q = b0.queue(slot as int);
            assert(book.queue(slot as int) == q.push(order));
            assert forall|j: int| 0 <= j < n && j != slot implies #[trigger] book.queue(j) == b0.queue(j) by {
                assert(book.price_levels@[j] == b0.price_levels@[j]);
            }
            lemma_qty_sum_push(q, order);
            assert(book.ladder() =~= b0.ladder().update(i as int, (price, qty_sum(q) + qty)));
            assert forall|p: u64| #[trigger] depth_at(book.ladder(), p) == depth_at(b0.ladder(), p) + if p == price { qty as int } else { 0 } by {
                let l = book.ladder();
                if exists|k: int| 0 <= k < l.len() && l[k].0 == p {
                    let k = choose|k: int| 0 <= k < l.len() && l[k].0 == p;
                    lemma_depth_at_index(l, k);
                    lemma_depth_at_index(b0.ladder(), k);
                    assert(l[i as int].0 == price);
                    if k != i {
                        assert(l[k] == b0.ladder()[k]);
                        if k < i { assert(l[k].0 < l[i as int].0); } else { assert(l[i as int].0 < l[k].0); }
                    }
                } else {
                    assert(l[i as int].0 == price);
                    assert(!exists|k: int| 0 <= k < b0.ladder().len() && b0.ladder()[k].0 == p) by {
                        if exists|k: int| 0 <= k < b0.ladder().len() && b0.ladder()[k].0 == p {
                            let k = choose|k: int| 0 <= k < b0.ladder().len() && b0.ladder()[k].0 == p;
                            assert(l[k].0 == p);
                        }
                    }
                }
            }
            assert forall|j: int, k: int| 0 <= j < book.num_slots() && 0 <= k < book.queue(j).len()
                implies (#[trigger] book.queue(j)[k]).qty > 0 by {
                if j != slot {
                    assert(book.queue(j) == b0.queue(j));
                } else if k < q.len() {
                    assert(book.queue(j)[k] == q[k]);
                }
            }
            assert forall|j: int, k: int| 0 <= j < book.num_slots() && 0 <= k < book.queue(j).len()
                implies loc@.contains_key((#[trigger] book.queue(j)[k]).order_id)
                    && loc@[book.queue(j)[k].order_id].0 == book.s
                    && loc@[book.queue(j)[k].order_id].1 as int == j by {
                if j != slot {
                    assert(book.queue(j) == b0.queue(j));
                } else if k < q.len() {
                    assert(book.queue(j)[k] == q[k]);
                }
            }
            assert forall|x: u64| #[trigger] loc@.contains_key(x) && loc@[x].0 == book.s
                implies (loc@[x].1 as int) < book.num_slots() && queue_has(book.queue(loc@[x].1 as int), x) by {
                if x == id {
                    assert(book.queue(slot as int)[q.len() as int] == order);
                } else {
                    let j = l0[x].1 as int;
                    assert(queue_has(b0.queue(j), x));
                    let k = choose|k: int| 0 <= k < b0.queue(j).len() && b0.queue(j)[k].order_id == x;
                    if j == slot {
                        assert(book.queue(j)[k] == q[k]);
                    } else {
                        assert(book.queue(j) == b0.queue(j));
                    }
                }
            }
            assert forall|j: int, k1: int, k2: int|
                0 <= j < book.num_slots() && 0 <= k1 < k2 < book.queue(j).len()
                implies (#[trigger] book.queue(j)[k1]).order_id != (#[trigger] book.queue(j)[k2]).order_id by {
                if j != slot {
                    assert(book.queue(j) == b0.queue(j));
                } else {
                    assert(book.queue(j)[k1] == q[k1]);
                    if k2 < q.len() {
                        assert(book.queue(j)[k2] == q[k2]);
                    }
                }
            }
            assert forall|j: int| 0 <= j < book.num_slots() && #[trigger] book.queue(j).len() > 0 implies
                (j < b0.num_slots() && b0.queue(j).len() > 0) || book.slot_price(j) == price by {
                if j != slot {
                    assert(book.queue(j) == b0.queue(j));
                }
            }
            assert forall|j: int| 0 <= j < book.num_slots() && book.slot_price(j) == price implies #[trigger] book.queue(j).len() > 0 by {
                if j != slot {
                    let pj = book.slot_pos@[j];
                    assert(pj != i);
                    if pj < i { assert(book.price_map@[pj].0 < book.price_map@[i as int].0); }
                    else { assert(book.price_map@[i as int].0 < book.price_map@[pj].0); }
                }
            }
            assert(loc@ == l0.insert(id, (b0.s, slot)));
        }
    } else {
        let mut q: VecDeque<Order> = VecDeque::new();
        q.push_back(order);
        book.price_levels.push(q);
        book.price_map.insert(i, (price, n));
        let ghost old_pos = b0.slot_pos@;
        book.slot_pos = Ghost(Seq::new((n + 1) as nat, |j: int|
            if j == n { i as int } else if old_pos[j] >= i { old_pos[j] + 1 } else { old_pos[j] }));
        loc.insert(id, (book.s, n));
        proof {
            let pm = book.price_map@;
            let pm0 = b0.price_map@;
            assert(pm =~= pm0.insert(i as int, (price, n)));
            assert forall|j: int| 0 <= j < n implies #[trigger] book.queue(j) == b0.queue(j) by {
                assert(book.price_levels@[j] == b0.price_levels@[j]);
            }
            assert(book.queue(n as int) =~= seq![order]);
            assert forall|a: int, c: int| 0 <= a < c < n + 1 implies pm[a].0 < pm[c].0 by {
                if a < i && c > i { assert(pm0[a].0 < pm0[c - 1].0 || c - 1 == a); }
            }
            assert forall|a: int| 0 <= a < n + 1 implies (#[trigger] pm[a]).1 < n + 1 && book.slot_pos@[pm[a].1 as int] == a by {
                if a < i { assert(pm[a] == pm0[a]); } else if a > i { assert(pm[a] == pm0[a - 1]); }
            }
            assert forall|j: int| 0 <= j < n + 1 implies 0 <= #[trigger] book.slot_pos@[j] < n + 1 && pm[book.slot_pos@[j]].1 == j by {
                if j < n {
                    assert(0 <= old_pos[j] < n);
                }
            }
            assert forall|j: int| 0 <= j < n implies #[trigger] book.slot_price(j) == b0.slot_price(j) by {
                assert(0 <= old_pos[j] < n);
            }
            assert(book.queue(n as int)[0] == order);
            assert(qty_sum(seq![order]) == qty) by {
                assert(seq![order].drop_first() =~= Seq::<Order>::empty());
                assert(qty_sum(Seq::<Order>::empty()) == 0);
                assert(qty_sum(seq![order]) == order.qty + qty_sum(seq![order].drop_first()));
            }
            assert(book.ladder() =~= b0.ladder().insert(i as int, (price, qty as int))) by {
                assert forall|a: int| 0 <= a < n + 1 implies #[trigger] book.ladder()[a] == b0.ladder().insert(i as int, (price, qty as int))[a] by {
                    if a < i { assert(pm[a] == pm0[a]); } else if a > i { assert(pm[a] == pm0[a - 1]); }
                }
            }
            assert forall|p: u64| #[trigger] depth_at(book.ladder(), p) == depth_at(b0.ladder(), p) + if p == price { qty as int } else { 0 } by {
                let l = book.ladder();
                let l0d = b0.ladder();
                if exists|k: int| 0 <= k < l.len() && l[k].0 == p {
                    let k = choose|k: int| 0 <= k < l.len() && l[k].0 == p;
                    lemma_depth_at_index(l, k);
                    if k < i {
                        lemma_depth_at_index(l0d, k);
                    } else if k > i {
                        lemma_depth_at_index(l0d, k - 1);
                    } else {
                        assert(!exists|c: int| 0 <= c < l0d.len() && l0d[c].0 == price) by {
                            if exists|c: int| 0 <= c < l0d.len() && l0d[c].0 == price {
                                let c = choose|c: int| 0 <= c < l0d.len() && l0d[c].0 == price;
                                if c < i { } else { assert(pm0[c].0 >= pm0[i as int].0); }
                            }
                        }
                    }
                } else {
                    assert(!exists|c: int| 0 <= c < l0d.len() && l0d[c].0 == p) by {
                        if exists|c: int| 0 <= c < l0d.len() && l0d[c].0 == p {
                            let c = choose|c: int| 0 <= c < l0d.len() && l0d[c].0 == p;
                            if c < i { assert(l[c].0 == p); } else { assert(l[c + 1].0 == p); }
                        }
                    }
                    assert(l[i as int].0 == price);
                }
            }
            assert forall|j: int, k: int| 0 <= j < book.num_slots() && 0 <= k < book.queue(j).len()
                implies (#[trigger] book.queue(j)[k]).qty > 0 by {
                if j < n { assert(book.queue(j) == b0.queue(j)); }
            }
            assert forall|j: int, k: int| 0 <= j < book.num_slots() && 0 <= k < book.queue(j).len()
                implies loc@.contains_key((#[trigger] book.queue(j)[k]).order_id)
                    && loc@[book.queue(j)[k].order_id].0 == book.s
                    && loc@[book.queue(j)[k].order_id].1 as int == j by {
                if j < n { assert(book.queue(j) == b0.queue(j)); }
            }
            assert forall|x: u64| #[trigger] loc@.contains_key(x) && loc@[x].0 == book.s
                implies (loc@[x].1 as int) < book.num_slots() && queue_has(book.queue(loc@[x].1 as int), x) by {
                if x != id {
                    let j = l0[x].1 as int;
                    assert(queue_has(b0.queue(j), x));
                    assert(book.queue(j) == b0.queue(j));
                }
            }
            assert forall|j: int, k1: int, k2: int|
                0 <= j < book.num_slots() && 0 <= k1 < k2 < book.queue(j).len()
                implies (#[trigger] book.queue(j)[k1]).order_id != (#[trigger] book.queue(j)[k2]).order_id by {
                if j < n { assert(book.queue(j) == b0.queue(j)); }
            }
            assert forall|j: int| 0 <= j < book.num_slots() && #[trigger] book.queue(j).len() > 0 implies
                (j < b0.num_slots() && b0.queue(j).len() > 0) || book.slot_price(j) == price by {
                if j < n { assert(book.queue(j) == b0.queue(j)); }
            }
            assert forall|j: int| 0 <= j < book.num_slots() && book.slot_price(j) == price implies #[trigger] book.queue(j).len() > 0 by {
                if j < n {
                    let pj = old_pos[j];
                    assert(pm0[pj].0 == book.slot_price(j));
                    if pj < i { } else { assert(pm0[pj].0 >= pm0[i as int].0); }
                }
            }
            assert(loc@ == l0.insert(id, (b0.s, n)));
            assert(Seq::<Order>::empty().push(order) =~= seq![order]);
            assert(book.slot_pos@[n as int] == i);
        }
    }
}

/// Takes the order `id`, which the index places at `slot` of this side, out of its
/// queue and out of the index.
fn remove_order(book: &mut HalfBook, loc: &mut HashMap<u64, (Side, usize)>, slot: usize, id: u64)
    requires
        old(book).wf(),
        old(book).indexed(old(loc)@),
        old(loc)@.contains_key(id),
        old(loc)@[id] == (old(book).s, slot),
    ensures
        final(book).wf(),
        final(book).indexed(final(loc)@),
        final(loc)@ == old(loc)@.remove(id),
        final(book).price_map@ == old(book).price_map@,
        final(book).slot_pos@ == old(book).slot_pos@,
        final(book).s == old(book).s,
        final(book).num_slots() == old(book).num_slots(),
        forall|j: int| 0 <= j < old(book).num_slots() && j != slot ==> #[trigger] final(book).queue(j) == old(book).queue(j),
        forall|j: int| 0 <= j < final(book).num_slots() && #[trigger] final(book).queue(j).len() > 0 ==> old(book).queue(j).len() > 0,
        forall|p: u64| #[trigger] depth_at(final(book).ladder(), p) == depth_at(old(book).ladder(), p)
            - if p == old(book).slot_price(slot as int) { qty_of(old(book).queue(slot as int), id) } else { 0 },
        exists|k: int| 0 <= k < old(book).queue(slot as int).len() && old(book).queue(slot as int)[k].order_id == id
            && final(book).queue(slot as int) == old(book).queue(slot as int).remove(k),
{
    let ghost b0 = *book;
    let ghost l0 = loc@;
    let ghost q = b0.queue(slot as int);
    assert(queue_has(q, id) && (slot as int) < b0.num_slots());
    let qr = &book.price_levels[slot];
    let len = qr.len();
    let mut k: usize = 0;
    while k < len && qr[k].order_id != id
        invariant
            qr@ == q,
            len == q.len(),
            k <= len,
            forall|j: int| 0 <= j < k ==> q[j].order_id != id,
        decreases len - k,
    {
        k += 1;
    }
    if k == len {
        proof {
            let w = choose|w: int| 0 <= w < q.len() && q[w].order_id == id;
            assert(q[w].order_id != id);
        }
        return;
    }
    book.price_levels[slot].remove(k);
    loc.remove(&id);
    proof {
        assert(book.queue(slot as int) == q.remove(k as int));
        assert forall|j: int| 0 <= j < b0.num_slots() && j != slot implies #[trigger] book.queue(j) == b0.queue(j) by {
            assert(book.price_levels@[j] == b0.price_levels@[j]);
        }
        assert forall|j: int, i: int| 0 <= j < book.num_slots() && 0 <= i < book.queue(j).len()
            implies (#[trigger] book.queue(j)[i]).qty > 0 by {
            if j == slot {
                if i < k { assert(book.queue(j)[i] == q[i]); } else { assert(book.queue(j)[i] == q[i + 1]); }
            }
        }
        assert forall|j: int, i: int| 0 <= j < book.num_slots() && 0 <= i < book.queue(j).len()
            implies loc@.contains_key((#[trigger] book.queue(j)[i]).order_id)
                && loc@[book.queue(j)[i].order_id].0 == book.s
                && loc@[book.queue(j)[i].order_id].1 as int == j by {
            if j == slot {
                if i < k {
                    assert(book.queue(j)[i] == q[i]);
                    assert(q[i].order_id != q[k as int].order_id);
                } else {
                    assert(book.queue(j)[i] == q[i + 1]);
                    assert(q[k as int].order_id != q[i + 1].order_id);
                }
            } else {
                assert(book.queue(j)[i] == b0.queue(j)[i]);
                assert(l0.contains_key(b0.queue(j)[i].order_id));
            }
        }
        assert forall|x: u64| #[trigger] loc@.contains_key(x) && loc@[x].0 == book.s
            implies (loc@[x].1 as int) < book.num_slots() && queue_has(book.queue(loc@[x].1 as int), x) by {
            let j = l0[x].1 as int;
            assert(l0.contains_key(x));
            assert(queue_has(b0.queue(j), x));
            let w = choose|w: int| 0 <= w < b0.queue(j).len() && b0.queue(j)[w].order_id == x;
            if j == slot {
                assert(w != k);
                if w < k { assert(book.queue(j)[w] == q[w]); } else { assert(book.queue(j)[w - 1] == q[w]); }
            } else {
                assert(book.queue(j)[w] == b0.queue(j)[w]);
            }
        }
        assert forall|j: int, i1: int, i2: int|
            0 <= j < book.num_slots() && 0 <= i1 < i2 < book.queue(j).len()
            implies (#[trigger] book.queue(j)[i1]).order_id != (#[trigger] book.queue(j)[i2]).order_id by {
            if j == slot {
                let a = if i1 < k { i1 } else { i1 + 1 };
                let c = if i2 < k { i2 } else { i2 + 1 };
                assert(book.queue(j)[i1] == q[a]);
                assert(book.queue(j)[i2] == q[c]);
            }
        }
        assert forall|j: int| 0 <= j < book.num_slots() && #[trigger] book.queue(j).len() > 0 implies b0.queue(j).len() > 0 by {
            if j != slot { assert(book.queue(j) == b0.queue(j)); }
        }
        let c = choose|c: int| 0 <= c < q.len() && q[c].order_id == id;
        if c != k {
            if c < k { assert(q[c].order_id != q[k as int].order_id); } else { assert(q[k as int].order_id != q[c].order_id); }
        }
        lemma_qty_sum_remove(q, k as int);
        let i = b0.slot_pos@[slot as int];
        let l = b0.ladder();
        assert(b0.price_map@[i].1 == slot);
        assert(book.ladder() =~= l.update(i, (l[i].0, qty_sum(q) - q[k as int].qty))) by {
            assert forall|a: int| 0 <= a < l.len() implies #[trigger] book.ladder()[a] == l.update(i, (l[i].0, qty_sum(q) - q[k as int].qty))[a] by {
                let sa = b0.price_map@[a].1 as int;
                assert(b0.price_map@[a] == b0.price_map@[a]);
                if a != i {
                    assert(sa != slot);
                    assert(book.queue(sa) == b0.queue(sa));
                }
            }
        }
        lemma_depth_at_update(l, i, qty_sum(q) - q[k as int].qty);
        assert(q[k as int].order_id == id);
    }
}

proof fn lemma_queue_at_slot(book: HalfBook, j: int)
    requires
        book.wf(),
        0 <= j < book.num_slots(),
    ensures
        book.queue_at_price(book.slot_price(j)) == book.queue(j),
{
    let p = book.slot_price(j);
    let c = choose|c: int| 0 <= c < book.num_slots() && book.slot_price(c) == p;
    let pc = book.slot_pos@[c];
    let pj = book.slot_pos@[j];
    assert(0 <= pc < book.num_slots() && 0 <= pj < book.num_slots());
    if pc < pj {
        assert(book.price_map@[pc].0 < book.price_map@[pj].0);
    } else if pj < pc {
        assert(book.price_map@[pj].0 < book.price_map@[pc].0);
    }
    assert(book.price_map@[pc].1 == c && book.price_map@[pj].1 == j);
}

proof fn lemma_slot_price_unique(book: HalfBook, a: int, b: int)
    requires
        book.wf(),
        0 <= a < book.num_slots(),
        0 <= b < book.num_slots(),
        book.slot_price(a) == book.slot_price(b),
    ensures
        a == b,
{
    let pa = book.slot_pos@[a];
    let pb = book.slot_pos@[b];
    assert(0 <= pa < book.num_slots() && 0 <= pb < book.num_slots());
    if pa < pb {
        assert(book.price_map@[pa].0 < book.price_map@[pb].0);
    } else if pb < pa {
        assert(book.price_map@[pb].0 < book.price_map@[pa].0);
    }
    assert(book.price_map@[pa].1 == a && book.price_map@[pb].1 == b);
}

proof fn lemma_rested(b0: HalfBook, b1: HalfBook, l1: Map<u64, (Side, usize)>, id: u64, price: u64, qty: u64)
    requires
        b0.wf(),
        b1.wf(),
        b1.indexed(l1),
        l1.contains_key(id),
        (l1[id].1 as int) < b1.num_slots(),
        b1.slot_price(l1[id].1 as int) == price,
        b1.queue(l1[id].1 as int) == (if (l1[id].1 as int) < b0.num_slots() {
            b0.queue(l1[id].1 as int)
        } else {
            Seq::<Order>::empty()
        }).push(Order { order_id: id, qty }),
        b1.num_slots() >= b0.num_slots(),
        forall|j: int| 0 <= j < b0.num_slots() ==> #[trigger] b1.slot_price(j) == b0.slot_price(j),
    ensures
        b1.queue_at_price(price) == b0.queue_at_price(price).push(Order { order_id: id, qty }),
        qty_of(b1.queue(l1[id].1 as int), id) == qty,
{
    let slot = l1[id].1 as int;
    let q = b1.queue(slot);
    lemma_queue_at_slot(b1, slot);
    if slot < b0.num_slots() {
        lemma_queue_at_slot(b0, slot);
    } else {
        assert forall|j: int| 0 <= j < b0.num_slots() implies b0.slot_price(j) != price by {
            if b0.slot_price(j) == price {
                assert(b1.slot_price(j) == price);
                lemma_slot_price_unique(b1, j, slot);
            }
        }
        lemma_queue_at_absent(b0, price);
    }
    let last = q.len() - 1;
    assert(q[last].order_id == id);
    let k = choose|k: int| 0 <= k < q.len() && q[k].order_id == id;
    if k != last {
        assert(b1.queue(slot)[k].order_id != b1.queue(slot)[last].order_id);
    }
}

proof fn lemma_fifo_levels(b0: HalfBook, b1: HalfBook)
    requires
        b0.wf(),
        b1.wf(),
        b1.price_map@ == b0.price_map@,
        b1.slot_pos@ == b0.slot_pos@,
        forall|j: int| 0 <= j < b0.num_slots() ==> #[trigger] fifo_consumed(b0.queue(j), b1.queue(j)),
    ensures
        forall|p: u64| #[trigger] fifo_consumed(b0.queue_at_price(p), b1.queue_at_price(p)),
{
    assert forall|p: u64| #[trigger] fifo_consumed(b0.queue_at_price(p), b1.queue_at_price(p)) by {
        if exists|j: int| 0 <= j < b0.num_slots() && b0.slot_price(j) == p {
            let j = choose|j: int| 0 <= j < b0.num_slots() && b0.slot_price(j) == p;
            lemma_queue_at_slot(b0, j);
            lemma_queue_at_slot(b1, j);
            assert(b1.slot_price(j) == p);
        } else {
            assert forall|j: int| 0 <= j < b1.num_slots() implies b1.slot_price(j) != p by {
                assert(b0.slot_price(j) == b1.slot_price(j));
            }
            lemma_queue_at_absent(b0, p);
            lemma_queue_at_absent(b1, p);
            assert(Seq::<Order>::empty().skip(0) =~= Seq::<Order>::empty());
        }
    }
}

proof fn lemma_one_level_changed(b0: HalfBook, b1: HalfBook, slot: int)
    requires
        b0.wf(),
        b1.wf(),
        b1.price_map@ == b0.price_map@,
        b1.slot_pos@ == b0.slot_pos@,
        0 <= slot < b0.num_slots(),
        forall|j: int| 0 <= j < b0.num_slots() && j != slot ==> #[trigger] b1.queue(j) == b0.queue(j),
    ensures
        b0.queue_at_price(b0.slot_price(slot)) == b0.queue(slot),
        b1.queue_at_price(b0.slot_price(slot)) == b1.queue(slot),
        forall|p: u64| p != b0.slot_price(slot) ==> #[trigger] b1.queue_at_price(p) == b0.queue_at_price(p),
{
    lemma_queue_at_slot(b0, slot);
    lemma_queue_at_slot(b1, slot);
    assert forall|p: u64| p != b0.slot_price(slot) implies #[trigger] b1.queue_at_price(p) == b0.queue_at_price(p) by {
        if exists|j: int| 0 <= j < b0.num_slots() && b0.slot_price(j) == p {
            let j = choose|j: int| 0 <= j < b0.num_slots() && b0.slot_price(j) == p;
            lemma_queue_at_slot(b0, j);
            lemma_queue_at_slot(b1, j);
            assert(b1.slot_price(j) == p);
        } else {
            assert forall|j: int| 0 <= j < b1.num_slots() implies b1.slot_price(j) != p by {
                assert(b0.slot_price(j) == b1.slot_price(j));
            }
            lemma_queue_at_absent(b0, p);
            lemma_queue_at_absent(b1, p);
        }
    }
}

proof fn lemma_queue_at_absent(book: HalfBook, p: u64)
    requires
        forall|j: int| 0 <= j < book.num_slots() ==> book.slot_price(j) != p,
    ensures
        book.queue_at_price(p) == Seq::<Order>::empty(),
{
}

proof fn lemma_live_level(book: HalfBook, i: int)
    requires
        book.wf(),
        0 <= i < book.price_map@.len(),
    ensures
        book.ladder()[i].1 > 0 <==> book.queue(book.price_map@[i].1 as int).len() > 0,
        book.slot_price(book.price_map@[i].1 as int) == book.price_map@[i].0,
        book.ladder()[i].0 == book.price_map@[i].0,
{
    let j = book.price_map@[i].1 as int;
    assert(book.price_map@[i] == book.price_map@[i]);
    let q = book.queue(j);
    assert forall|k: int| 0 <= k < q.len() implies q[k].qty > 0 by {
        assert(book.queue(j)[k].qty > 0);
    }
    lemma_qty_sum_positive(q);
}

proof fn lemma_indexed_kept(book: HalfBook, l0: Map<u64, (Side, usize)>, l1: Map<u64, (Side, usize)>)
    requires
        book.indexed(l0),
        forall|x: u64| #[trigger] l0.contains_key(x) && l0[x].0 == book.s ==> l1.contains_key(x) && l1[x] == l0[x],
        forall|x: u64| #[trigger] l1.contains_key(x) && l1[x].0 == book.s ==> l0.contains_key(x) && l0[x] == l1[x],
    ensures
        book.indexed(l1),
{
    assert forall|j: int, k: int| 0 <= j < book.num_slots() && 0 <= k < book.queue(j).len() implies l1.contains_key(
        (#[trigger] book.queue(j)[k]).order_id) && l1[book.queue(j)[k].order_id].0 == book.s
        && l1[book.queue(j)[k].order_id].1 as int == j by {
        assert(l0.contains_key(book.queue(j)[k].order_id));
    }
    assert forall|x: u64| #[trigger] l1.contains_key(x) && l1[x].0 == book.s implies (l1[x].1 as int) < book.num_slots()
        && queue_has(book.queue(l1[x].1 as int), x) by {
        assert(l0.contains_key(x));
    }
}

impl HalfBook {
    /// The best price among the levels that hold liquidity, if any.
    fn best_live_price(&self) -> (r: Option<u64>)
        requires
            self.wf(),
        ensures
            r is Some <==> has_live(self.ladder()),
            r matches Some(p) ==> is_best_live(self.ladder(), self.s, p),
    {
        let n = self.price_map.len();
        let mut i: usize = 0;
        while i < n
            invariant
                self.wf(),
                n == self.price_map@.len(),
                i <= n,
                forall|r: int| 0 <= r < i ==> #[trigger] self.ladder()[self.level_at_rank(r)].1 == 0,
            decreases n - i,
        {
            let lvl: usize = match self.s {
                Side::Ask => i,
                Side::Bid => n - 1 - i,
            };
            let slot = self.price_map[lvl].1;
            proof {
                lemma_live_level(*self, lvl as int);
            }
            if self.price_levels[slot].len() > 0 {
                let p = self.price_map[lvl].0;
                proof {
                    let l = self.ladder();
                    assert forall|k: int| 0 <= k < l.len() && l[k].1 > 0 implies match self.s {
                        Side::Bid => l[k].0 <= p,
                        Side::Ask => l[k].0 >= p,
                    } by {
                        let rk = match self.s { Side::Ask => k, Side::Bid => n - 1 - k };
                        assert(self.level_at_rank(rk) == k);
                        if rk < i {
                            assert(self.ladder()[self.level_at_rank(rk)].1 == 0);
                        }
                        if k != lvl {
                            if k < lvl { assert(self.price_map@[k].0 < self.price_map@[lvl as int].0); }
                            else { assert(self.price_map@[lvl as int].0 < self.price_map@[k].0); }
                        }
                    }
                    assert(l[lvl as int].1 > 0);
                }
                return Some(p);
            }
            proof {
                assert(self.level_at_rank(i as int) == lvl);
            }
            i += 1;
        }
        proof {
            let l = self.ladder();
            assert forall|k: int| 0 <= k < l.len() implies l[k].1 <= 0 by {
                let rk = match self.s { Side::Ask => k, Side::Bid => n - 1 - k };
                assert(self.level_at_rank(rk) == k);
                assert(self.ladder()[self.level_at_rank(rk)].1 == 0);
            }
        }
        None
    }
}

/// A limit order book for one instrument.
pub struct OrderBook {
    symbol: String,
    best_bid_price: u64,
    best_offer_price: u64,
    bid_book: HalfBook,
    ask_book: HalfBook,
    /// Order id to the side and slot where the order rests.
    order_loc: HashMap<u64, (Side, usize)>,
}

/// What a cancel of `order_id` does: it succeeds exactly when that order rests, the
/// order leaves the book, and a failed cancel changes nothing.
pub open spec fn cancel_outcome(before: OrderBook, after: OrderBook, order_id: u64, ok: bool) -> bool {
    &&& ok <==> before.resting_ids().contains(order_id)
    &&& after.resting_ids() == before.resting_ids().remove(order_id)
    &&& !ok ==> after == before
}

/// Cancelling a resting order twice succeeds the first time and fails the second,
/// leaving the book as the first cancel left it.
pub proof fn lemma_cancel_twice(
    b0: OrderBook,
    b1: OrderBook,
    b2: OrderBook,
    order_id: u64,
    ok1: bool,
    ok2: bool,
)
    requires
        b0.resting_ids().contains(order_id),
        cancel_outcome(b0, b1, order_id, ok1),
        cancel_outcome(b1, b2, order_id, ok2),
    ensures
        ok1,
        !ok2,
        b2 == b1,
{
}

/// What an add call reports: `Filled` when nothing is left, `Created` when nothing
/// traded, `PartiallyFilled` otherwise.
pub open spec fn status_for(qty: int, remaining: int) -> OrderStatus {
    if remaining == 0 {
        OrderStatus::Filled
    } else if remaining == qty {
        OrderStatus::Created
    } else {
        OrderStatus::PartiallyFilled
    }
}

impl OrderBook {
    pub closed spec fn bid_ladder(&self) -> Seq<(u64, int)> {
        self.bid_book.ladder()
    }

    pub closed spec fn ask_ladder(&self) -> Seq<(u64, int)> {
        self.ask_book.ladder()
    }

    /// The levels of one side as `(price, depth)`, ascending by price.
    pub open spec fn ladder(&self, side: Side) -> Seq<(u64, int)> {
        match side {
            Side::Bid => self.bid_ladder(),
            Side::Ask => self.ask_ladder(),
        }
    }

    /// The levels of the side an incoming order on `side` trades against, best price first.
    pub closed spec fn opposite_best_first(&self, side: Side) -> Seq<(u64, int)> {
        match side {
            Side::Bid => self.ask_book.best_first(),
            Side::Ask => self.bid_book.best_first(),
        }
    }

    /// The identifiers of the orders that rest in the book.
    pub closed spec fn resting_ids(&self) -> Set<u64> {
        self.order_loc@.dom()
    }

    /// The side an order rests on.
    pub closed spec fn order_side(&self, id: u64) -> Side {
        self.order_loc@[id].0
    }

    /// The price an order rests at.
    pub closed spec fn order_price(&self, id: u64) -> u64 {
        match self.order_loc@[id].0 {
            Side::Bid => self.bid_book.slot_price(self.order_loc@[id].1 as int),
            Side::Ask => self.ask_book.slot_price(self.order_loc@[id].1 as int),
        }
    }

    /// The quantity an order still has resting.
    pub closed spec fn order_qty(&self, id: u64) -> int {
        match self.order_loc@[id].0 {
            Side::Bid => qty_of(self.bid_book.queue(self.order_loc@[id].1 as int), id),
            Side::Ask => qty_of(self.ask_book.queue(self.order_loc@[id].1 as int), id),
        }
    }

    /// The queue of resting orders at `price` on `side`, oldest first; empty where
    /// the price has no level.
    pub closed spec fn level_queue(&self, side: Side, price: u64) -> Seq<Order> {
        match side {
            Side::Bid => self.bid_book.queue_at_price(price),
            Side::Ask => self.ask_book.queue_at_price(price),
        }
    }

    /// The instrument's symbol.
    pub closed spec fn symbol(&self) -> Seq<char> {
        self.symbol@
    }

    pub closed spec fn best_bid(&self) -> u64 {
        self.best_bid_price
    }

    pub closed spec fn best_offer(&self) -> u64 {
        self.best_offer_price
    }

    /// Every indexed id rests, with positive quantity, in the queue that its entry
    /// names, and every resting order is indexed there.
    pub closed spec fn index_consistent(&self) -> bool {
        &&& self.bid_book.indexed(self.order_loc@)
        &&& self.ask_book.indexed(self.order_loc@)
    }

    spec fn slots_not_crossed(&self) -> bool {
        forall|a: int, b: int|
            0 <= a < self.bid_book.num_slots() && 0 <= b < self.ask_book.num_slots()
                && #[trigger] self.bid_book.queue(a).len() > 0 && #[trigger] self.ask_book.queue(b).len() > 0
                ==> self.bid_book.slot_price(a) < self.ask_book.slot_price(b)
    }

    pub closed spec fn wf(&self) -> bool {
        &&& self.bid_book.wf()
        &&& self.ask_book.wf()
        &&& self.bid_book.s == Side::Bid
        &&& self.ask_book.s == Side::Ask
        &&& self.index_consistent()
        &&& self.slots_not_crossed()
    }

    /// In a well-formed book each side's levels are listed in strictly ascending
    /// order of price; an incoming bid meets the asks in that order, and an incoming
    /// ask meets the bids in the reverse order.
    pub proof fn lemma_ladders(&self)
        requires
            self.wf(),
        ensures
            strictly_ascending(self.bid_ladder()),
            strictly_ascending(self.ask_ladder()),
            self.opposite_best_first(Side::Bid) == self.ask_ladder(),
            self.opposite_best_first(Side::Ask) == self.bid_ladder().reverse(),
    {
        assert(self.ask_book.best_first() =~= self.ask_ladder());
        assert(self.bid_book.best_first() =~= self.bid_ladder().reverse());
    }

    proof fn lemma_not_crossed(&self)
        requires
            self.wf(),
        ensures
            not_crossed(self.bid_ladder(), self.ask_ladder()),
    {
        assert forall|i: int, k: int|
            0 <= i < self.bid_ladder().len() && 0 <= k < self.ask_ladder().len() && self.bid_ladder()[i].1 > 0
                && self.ask_ladder()[k].1 > 0 implies self.bid_ladder()[i].0 < self.ask_ladder()[k].0 by {
            lemma_live_level(self.bid_book, i);
            lemma_live_level(self.ask_book, k);
            let a = self.bid_book.price_map@[i].1 as int;
            let b = self.ask_book.price_map@[k].1 as int;
            assert(self.bid_book.price_map@[i] == self.bid_book.price_map@[i]);
            assert(self.ask_book.price_map@[k] == self.ask_book.price_map@[k]);
            assert(self.bid_book.queue(a).len() > 0 && self.ask_book.queue(b).len() > 0);
        }
    }

    pub fn new(symbol: String) -> (r: Self)
        ensures
            r.wf(),
            r.index_consistent(),
            not_crossed(r.bid_ladder(), r.ask_ladder()),
            r.bid_ladder().len() == 0,
            r.ask_ladder().len() == 0,
            r.resting_ids().is_empty(),
            r.best_bid() == u64::MIN,
            r.best_offer() == u64::MAX,
            r.symbol() == symbol@,
    {
        let r = OrderBook {
            symbol,
            best_bid_price: u64::MIN,
            best_offer_price: u64::MAX,
            bid_book: HalfBook::new(Side::Bid),
            ask_book: HalfBook::new(Side::Ask),
            order_loc: HashMap::new(),
        };
        proof {
            r.lemma_not_crossed();
        }
        r
    }

    /// Whether an order with this identifier rests in the book.
    pub fn has_order(&self, order_id: u64) -> (r: bool)
        ensures
            r == self.resting_ids().contains(order_id),
    {
        self.order_loc.contains_key(&order_id)
    }

    /// Removes a resting order. Fails, changing nothing, where no order with that
    /// identifier rests. The cached best prices are left as they were.
    pub fn cancel_order(&mut self, order_id: u64) -> (r: Result<&'static str, &'static str>)
        requires
            old(self).wf(),
        ensures
            final(self).wf(),
            final(self).index_consistent(),
            cancel_outcome(*old(self), *final(self), order_id, r is Ok),
            not_crossed(final(self).bid_ladder(), final(self).ask_ladder()),
            final(self).symbol() == old(self).symbol(),
            r is Ok ==> forall|p: u64| #[trigger] depth_at(final(self).ladder(old(self).order_side(order_id)), p)
                == depth_at(old(self).ladder(old(self).order_side(order_id)), p)
                - if p == old(self).order_price(order_id) { old(self).order_qty(order_id) } else { 0 },
            r is Ok ==> exists|k: int| 0 <= k < old(self).level_queue(old(self).order_side(order_id), old(self).order_price(order_id)).len()
                && old(self).level_queue(old(self).order_side(order_id), old(self).order_price(order_id))[k].order_id == order_id
                && final(self).level_queue(old(self).order_side(order_id), old(self).order_price(order_id))
                    == old(self).level_queue(old(self).order_side(order_id), old(self).order_price(order_id)).remove(k),
            r is Ok ==> forall|p: u64| p != old(self).order_price(order_id) ==>
                #[trigger] final(self).level_queue(old(self).order_side(order_id), p) == old(self).level_queue(old(self).order_side(order_id), p),
            r is Ok ==> forall|p: u64| #[trigger] final(self).level_queue(opposite(old(self).order_side(order_id)), p)
                == old(self).level_queue(opposite(old(self).order_side(order_id)), p),
            r is Ok && old(self).order_side(order_id) == Side::Bid ==> final(self).ask_ladder() == old(self).ask_ladder(),
            r is Ok && old(self).order_side(order_id) == Side::Ask ==> final(self).bid_ladder() == old(self).bid_ladder(),
            final(self).best_bid() == old(self).best_bid(),
            final(self).best_offer() == old(self).best_offer(),
    {
        let ghost s0 = *self;
        let entry = self.order_loc.get(&order_id);
        match entry {
            Some(v) => {
                let (side, slot) = *v;
                match side {
                    Side::Bid => {
                        remove_order(&mut self.bid_book, &mut self.order_loc, slot, order_id);
                        proof {
                            lemma_one_level_changed(s0.bid_book, self.bid_book, slot as int);
                            let q = s0.bid_book.queue(slot as int);
                            let k = choose|k: int| 0 <= k < q.len() && q[k].order_id == order_id
                                && self.bid_book.queue(slot as int) == q.remove(k);
                            assert(s0.level_queue(Side::Bid, s0.order_price(order_id)) == q);
                            assert(self.level_queue(Side::Bid, s0.order_price(order_id)) == q.remove(k));
                            lemma_indexed_kept(self.ask_book, s0.order_loc@, self.order_loc@);
                        }
                    },
                    Side::Ask => {
                        remove_order(&mut self.ask_book, &mut self.order_loc, slot, order_id);
                        proof {
                            lemma_one_level_changed(s0.ask_book, self.ask_book, slot as int);
                            let q = s0.ask_book.queue(slot as int);
                            let k = choose|k: int| 0 <= k < q.len() && q[k].order_id == order_id
                                && self.ask_book.queue(slot as int) == q.remove(k);
                            assert(s0.level_queue(Side::Ask, s0.order_price(order_id)) == q);
                            assert(self.level_queue(Side::Ask, s0.order_price(order_id)) == q.remove(k));
                            lemma_indexed_kept(self.bid_book, s0.order_loc@, self.order_loc@);
                        }
                    },
                }
                proof {
                    assert(self.order_loc@.dom() =~= s0.order_loc@.dom().remove(order_id));
                    assert(self.slots_not_crossed()) by {
                        assert forall|a: int, b: int|
                            0 <= a < self.bid_book.num_slots() && 0 <= b < self.ask_book.num_slots()
                                && #[trigger] self.bid_book.queue(a).len() > 0 && #[trigger] self.ask_book.queue(b).len() > 0
                            implies self.bid_book.slot_price(a) < self.ask_book.slot_price(b) by {
                            assert(s0.bid_book.queue(a).len() > 0 && s0.ask_book.queue(b).len() > 0);
                        }
                    }
                    self.lemma_not_crossed();
                }
                Ok("Successfully cancelled order")
            },
            None => {
                proof {
                    assert(s0.order_loc@.dom().remove(order_id) =~= s0.order_loc@.dom());
                    self.lemma_not_crossed();
                }
                Err("unknown order id")
            },
        }
    }
}

/// Distance from `start` to `x` counting upward with wrap-around.
spec fn wrap_offset(start: u64, x: u64) -> int {
    if x >= start {
        x - start
    } else {
        x + 0x1_0000_0000_0000_0000 - start
    }
}

impl OrderBook {
    /// Refreshes the cached best prices from the levels that hold liquidity. A side
    /// with none gets its sentinel: `u64::MIN` for bids, `u64::MAX` for offers.
    fn update_bbo(&mut self)
        requires
            old(self).wf(),
        ensures
            final(self).wf(),
            final(self).bid_book == old(self).bid_book,
            final(self).ask_book == old(self).ask_book,
            final(self).order_loc == old(self).order_loc,
            final(self).symbol == old(self).symbol,
            has_live(final(self).bid_ladder()) ==> is_best_live(final(self).bid_ladder(), Side::Bid, final(self).best_bid()),
            !has_live(final(self).bid_ladder()) ==> final(self).best_bid() == u64::MIN,
            has_live(final(self).ask_ladder()) ==> is_best_live(final(self).ask_ladder(), Side::Ask, final(self).best_offer()),
            !has_live(final(self).ask_ladder()) ==> final(self).best_offer() == u64::MAX,
    {
        match self.bid_book.best_live_price() {
            Some(p) => self.best_bid_price = p,
            None => self.best_bid_price = u64::MIN,
        }
        match self.ask_book.best_live_price() {
            Some(p) => self.best_offer_price = p,
            None => self.best_offer_price = u64::MAX,
        }
    }

    /// An identifier that no resting order holds: a random draw, moved upward past
    /// identifiers already in use.
    fn fresh_order_id(&self) -> (id: u64)
        requires
            self.wf(),
        ensures
            !self.resting_ids().contains(id),
    {
        let total = self.order_loc.len();
        let start = random_order_id();
        let mut id = start;
        let ghost dom = self.order_loc@.dom();
        let ghost mut probed: Set<u64> = Set::empty();
        while self.order_loc.contains_key(&id)
            invariant
                dom == self.order_loc@.dom(),
                dom.finite(),
                total as int == dom.len(),
                probed.finite(),
                probed.subset_of(dom),
                wrap_offset(start, id) == probed.len(),
                forall|x: u64| #[trigger] probed.contains(x) ==> wrap_offset(start, x) < probed.len(),
            decreases dom.len() - probed.len(),
        {
            proof {
                assert(!probed.contains(id));
                probed = probed.insert(id);
                vstd::set_lib::lemma_len_subset(probed, dom);
            }
            id = if id == u64::MAX { 0 } else { id + 1 };
        }
        id
    }

    fn create_new_limit_order(&mut self, s: Side, price: u64, qty: u64, order_id: u64) -> (r: u64)
        requires
            old(self).wf(),
            !old(self).resting_ids().contains(order_id),
            qty > 0,
        ensures
            r == order_id,
            final(self).symbol == old(self).symbol,
            final(self).resting_ids().contains(order_id),
            final(self).order_side(order_id) == s,
            final(self).order_price(order_id) == price,
            final(self).order_qty(order_id) == qty,
            final(self).level_queue(s, price) == old(self).level_queue(s, price).push(Order { order_id, qty }),
            final(self).bid_book.wf(),
            final(self).ask_book.wf(),
            final(self).bid_book.s == Side::Bid,
            final(self).ask_book.s == Side::Ask,
            final(self).index_consistent(),
            final(self).best_bid_price == old(self).best_bid_price,
            final(self).best_offer_price == old(self).best_offer_price,
            final(self).resting_ids() == old(self).resting_ids().insert(order_id),
            forall|j: int| 0 <= j < old(self).bid_book.num_slots() ==> #[trigger] final(self).bid_book.slot_price(j) == old(self).bid_book.slot_price(j),
            forall|j: int| 0 <= j < old(self).ask_book.num_slots() ==> #[trigger] final(self).ask_book.slot_price(j) == old(self).ask_book.slot_price(j),
            s == Side::Bid ==> final(self).ask_book == old(self).ask_book,
            s == Side::Ask ==> final(self).bid_book == old(self).bid_book,
            forall|p: u64| #[trigger] depth_at(final(self).ladder(s), p) == depth_at(old(self).ladder(s), p) + if p == price { qty as int } else { 0 },
            final(self).ladder(s) == ladder_add(old(self).ladder(s), price, qty as int),
            s == Side::Bid ==> forall|j: int| 0 <= j < final(self).bid_book.num_slots() && #[trigger] final(self).bid_book.queue(j).len() > 0 ==>
                (j < old(self).bid_book.num_slots() && old(self).bid_book.queue(j).len() > 0
                    && final(self).bid_book.slot_price(j) == old(self).bid_book.slot_price(j)) || final(self).bid_book.slot_price(j) == price,
            s == Side::Ask ==> forall|j: int| 0 <= j < final(self).ask_book.num_slots() && #[trigger] final(self).ask_book.queue(j).len() > 0 ==>
                (j < old(self).ask_book.num_slots() && old(self).ask_book.queue(j).len() > 0
                    && final(self).ask_book.slot_price(j) == old(self).ask_book.slot_price(j)) || final(self).ask_book.slot_price(j) == price,
    {
        let ghost s0 = *self;
        match s {
            Side::Ask => {
                rest_order(&mut self.ask_book, &mut self.order_loc, price, qty, order_id);
                proof {
                    lemma_indexed_kept(self.bid_book, s0.order_loc@, self.order_loc@);
                    lemma_rested(s0.ask_book, self.ask_book, self.order_loc@, order_id, price, qty);
                }
            },
            Side::Bid => {
                rest_order(&mut self.bid_book, &mut self.order_loc, price, qty, order_id);
                proof {
                    lemma_indexed_kept(self.ask_book, s0.order_loc@, self.order_loc@);
                    lemma_rested(s0.bid_book, self.bid_book, self.order_loc@, order_id, price, qty);
                }
            },
        }
        proof {
            assert(self.order_loc@.dom() =~= s0.order_loc@.dom().insert(order_id));
        }
        order_id
    }
}

impl OrderBook {
    /// Adds a limit order whose remainder, if any, rests under `order_id`.
    /// Trades against the opposite side best price first, oldest order first within
    /// a price, at every level that `price` reaches; rests what is left at `price`;
    /// then refreshes the cached best prices.
    pub fn add_limit_order_with_id(&mut self, s: Side, price: u64, order_qty: u64, order_id: u64) -> (r: FillResult)
        requires
            old(self).wf(),
            !old(self).resting_ids().contains(order_id),
        ensures
            final(self).wf(),
            final(self).index_consistent(),
            not_crossed(final(self).bid_ladder(), final(self).ask_ladder()),
            r.filled_orders@ == greedy_fills(s, price, old(self).opposite_best_first(s), order_qty as int),
            final(self).opposite_best_first(s) == greedy_left(s, price, old(self).opposite_best_first(s), order_qty as int),
            forall|p: u64| #[trigger] fifo_consumed(old(self).level_queue(opposite(s), p), final(self).level_queue(opposite(s), p)),
            r.remaining_qty + filled_sum(r.filled_orders@) == order_qty,
            final(self).symbol() == old(self).symbol(),
            r.status == status_for(order_qty as int, r.remaining_qty as int),
            forall|p: u64| #[trigger] depth_at(final(self).ladder(s), p) == depth_at(old(self).ladder(s), p)
                + if p == price { r.remaining_qty as int } else { 0 },
            final(self).ladder(s) == ladder_add(old(self).ladder(s), price, r.remaining_qty as int),
            r.remaining_qty > 0 ==> final(self).resting_ids().contains(order_id),
            r.remaining_qty > 0 ==> final(self).order_side(order_id) == s && final(self).order_price(order_id) == price
                && final(self).order_qty(order_id) == r.remaining_qty,
            r.remaining_qty > 0 ==> final(self).level_queue(s, price)
                == old(self).level_queue(s, price).push(Order { order_id, qty: r.remaining_qty }),
            r.remaining_qty == 0 ==> final(self).resting_ids().subset_of(old(self).resting_ids()),
            final(self).resting_ids().subset_of(old(self).resting_ids().insert(order_id)),
            has_live(final(self).bid_ladder()) ==> is_best_live(final(self).bid_ladder(), Side::Bid, final(self).best_bid()),
            !has_live(final(self).bid_ladder()) ==> final(self).best_bid() == u64::MIN,
            has_live(final(self).ask_ladder()) ==> is_best_live(final(self).ask_ladder(), Side::Ask, final(self).best_offer()),
            !has_live(final(self).ask_ladder()) ==> final(self).best_offer() == u64::MAX,
    {
        let ghost s0 = *self;
        let mut fill_result = FillResult::new();
        let (fills, remaining_order_qty) = match s {
            Side::Bid => {
                let r = match_against(&mut self.ask_book, &mut self.order_loc, Side::Bid, price, order_qty);
                proof {
                    lemma_indexed_kept(self.bid_book, s0.order_loc@, self.order_loc@);
                }
                r
            },
            Side::Ask => {
                let r = match_against(&mut self.bid_book, &mut self.order_loc, Side::Ask, price, order_qty);
                proof {
                    lemma_indexed_kept(self.ask_book, s0.order_loc@, self.order_loc@);
                }
                r
            },
        };
        let ghost s1 = *self;
        proof {
            assert(s1.slots_not_crossed()) by {
                assert forall|a: int, b: int|
                    0 <= a < s1.bid_book.num_slots() && 0 <= b < s1.ask_book.num_slots()
                        && #[trigger] s1.bid_book.queue(a).len() > 0 && #[trigger] s1.ask_book.queue(b).len() > 0
                    implies s1.bid_book.slot_price(a) < s1.ask_book.slot_price(b) by {
                    assert(s0.bid_book.queue(a).len() > 0 && s0.ask_book.queue(b).len() > 0);
                }
            }
            assert(s1.resting_ids().subset_of(s0.resting_ids()));
            assert(!s1.resting_ids().contains(order_id));
        }
        fill_result.filled_orders = fills;
        fill_result.remaining_qty = remaining_order_qty;
        if remaining_order_qty != 0 {
            if remaining_order_qty == order_qty {
                fill_result.status = OrderStatus::Created;
            } else {
                fill_result.status = OrderStatus::PartiallyFilled;
            }
            self.create_new_limit_order(s, price, remaining_order_qty, order_id);
            proof {
                assert(self.slots_not_crossed()) by {
                    assert forall|a: int, b: int|
                        0 <= a < self.bid_book.num_slots() && 0 <= b < self.ask_book.num_slots()
                            && #[trigger] self.bid_book.queue(a).len() > 0 && #[trigger] self.ask_book.queue(b).len() > 0
                        implies self.bid_book.slot_price(a) < self.ask_book.slot_price(b) by {
                        match s {
                            Side::Bid => {
                                assert(!crosses(Side::Bid, price, s1.ask_book.slot_price(b)));
                            },
                            Side::Ask => {
                                assert(!crosses(Side::Ask, price, s1.bid_book.slot_price(a)));
                            },
                        }
                    }
                }
            }
        } else {
            fill_result.status = OrderStatus::Filled;
        }
        let ghost s2 = *self;
        self.update_bbo();
        proof {
            self.lemma_not_crossed();
            match s {
                Side::Bid => lemma_fifo_levels(s0.ask_book, s1.ask_book),
                Side::Ask => lemma_fifo_levels(s0.bid_book, s1.bid_book),
            }
            assert(self.level_queue(opposite(s), price) == s1.level_queue(opposite(s), price));
            assert forall|p: u64| #[trigger] self.level_queue(opposite(s), p) == s1.level_queue(opposite(s), p) by {}
            assert(s1.ladder(s) == s0.ladder(s));
            assert(s1.level_queue(s, price) == s0.level_queue(s, price));
            assert(self.level_queue(s, price) == s2.level_queue(s, price));
            assert(self.order_qty(order_id) == s2.order_qty(order_id));
            assert(self.order_price(order_id) == s2.order_price(order_id));
            assert(self.opposite_best_first(s) == s1.opposite_best_first(s));
            assert(self.ladder(s) == s2.ladder(s));
            if remaining_order_qty == 0 {
                assert(s2.ladder(s) == s1.ladder(s));
            }
        }
        fill_result
    }

    /// Adds a limit order; a remainder that rests gets a fresh identifier drawn at
    /// random. Behaves as [`OrderBook::add_limit_order_with_id`] in every other respect.
    pub fn add_limit_order(&mut self, s: Side, price: u64, order_qty: u64) -> (r: FillResult)
        requires
            old(self).wf(),
        ensures
            final(self).wf(),
            final(self).index_consistent(),
            not_crossed(final(self).bid_ladder(), final(self).ask_ladder()),
            r.filled_orders@ == greedy_fills(s, price, old(self).opposite_best_first(s), order_qty as int),
            final(self).opposite_best_first(s) == greedy_left(s, price, old(self).opposite_best_first(s), order_qty as int),
            forall|p: u64| #[trigger] fifo_consumed(old(self).level_queue(opposite(s), p), final(self).level_queue(opposite(s), p)),
            r.remaining_qty + filled_sum(r.filled_orders@) == order_qty,
            final(self).symbol() == old(self).symbol(),
            r.status == status_for(order_qty as int, r.remaining_qty as int),
            forall|p: u64| #[trigger] depth_at(final(self).ladder(s), p) == depth_at(old(self).ladder(s), p)
                + if p == price { r.remaining_qty as int } else { 0 },
            final(self).ladder(s) == ladder_add(old(self).ladder(s), price, r.remaining_qty as int),
            r.remaining_qty == 0 ==> final(self).resting_ids().subset_of(old(self).resting_ids()),
            r.remaining_qty > 0 ==> exists|id: u64| !old(self).resting_ids().contains(id)
                && final(self).resting_ids().contains(id)
                && final(self).resting_ids().subset_of(old(self).resting_ids().insert(id))
                && final(self).order_side(id) == s && final(self).order_price(id) == price
                && final(self).order_qty(id) == r.remaining_qty
                && final(self).level_queue(s, price) == old(self).level_queue(s, price).push(Order { order_id: id, qty: r.remaining_qty }),
            has_live(final(self).bid_ladder()) ==> is_best_live(final(self).bid_ladder(), Side::Bid, final(self).best_bid()),
            !has_live(final(self).bid_ladder()) ==> final(self).best_bid() == u64::MIN,
            has_live(final(self).ask_ladder()) ==> is_best_live(final(self).ask_ladder(), Side::Ask, final(self).best_offer()),
            !has_live(final(self).ask_ladder()) ==> final(self).best_offer() == u64::MAX,
    {
        let order_id = self.fresh_order_id();
        let r = self.add_limit_order_with_id(s, price, order_qty, order_id);
        proof {
            if r.remaining_qty > 0 {
                assert(self.resting_ids().contains(order_id));
            }
        }
        r
    }

    /// The cached best bid price.
    pub fn best_bid_price(&self) -> (r: u64)
        ensures
            r == self.best_bid(),
    {
        self.best_bid_price
    }

    /// The cached best offer price.
    pub fn best_offer_price(&self) -> (r: u64)
        ensures
            r == self.best_offer(),
    {
        self.best_offer_price
    }

    /// Total resting quantity at `price` on `side`, saturated at `u64::MAX`.
    pub fn depth(&self, side: Side, price: u64) -> (r: u64)
        requires
            self.wf(),
        ensures
            r == if depth_at(self.ladder(side), price) <= u64::MAX {
                depth_at(self.ladder(side), price)
            } else {
                u64::MAX as int
            },
    {
        match side {
            Side::Bid => self.bid_book.get_total_qty(price),
            Side::Ask => self.ask_book.get_total_qty(price),
        }
    }

    /// Best bid price, resting quantity there, best offer price, resting quantity there.
    pub fn get_bbo(&self) -> (r: (u64, u64, u64, u64))
        requires
            self.wf(),
        ensures
            r.0 == self.best_bid(),
            r.2 == self.best_offer(),
            r.1 as int == if depth_at(self.bid_ladder(), r.0) <= u64::MAX {
                depth_at(self.bid_ladder(), r.0)
            } else {
                u64::MAX as int
            },
            r.3 as int == if depth_at(self.ask_ladder(), r.2) <= u64::MAX {
                depth_at(self.ask_ladder(), r.2)
            } else {
                u64::MAX as int
            },
    {
        let total_bid_qty = self.bid_book.get_total_qty(self.best_bid_price);
        let total_ask_qty = self.ask_book.get_total_qty(self.best_offer_price);
        (self.best_bid_price, total_bid_qty, self.best_offer_price, total_ask_qty)
    }
}


} // verus!

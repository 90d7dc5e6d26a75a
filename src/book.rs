use vstd::prelude::*;

use crate::balances::{
    all_positive, balance_in, credited, debited, lemma_credited_balance, lemma_debited_balance,
    lemma_updates_keep_positive, LedgerKey,
};
use crate::types::{OrderId, OrderModel};

verus! {

/// The state that matching works on: the ledger and the open orders in id order.
pub ghost struct Book {
    pub ledger: Map<LedgerKey, int>,
    pub orders: Seq<OrderModel>,
}

pub open spec fn has_order(s: Seq<OrderModel>, id: OrderId) -> bool {
    exists|i: int| 0 <= i < s.len() && (#[trigger] s[i]).id == id
}

pub open spec fn index_of(s: Seq<OrderModel>, id: OrderId) -> int {
    choose|i: int| 0 <= i < s.len() && (#[trigger] s[i]).id == id
}

pub open spec fn order_in(s: Seq<OrderModel>, id: OrderId) -> OrderModel {
    s[index_of(s, id)]
}

pub open spec fn ids_of(s: Seq<OrderModel>) -> Seq<OrderId> {
    s.map_values(|o: OrderModel| o.id)
}

/// The ledger position that backs an order: its owner's holding of what it sells.
pub open spec fn funding_key(o: OrderModel) -> LedgerKey {
    (o.owner, o.from)
}

/// `b` offers what `a` wants and wants what `a` offers.
pub open spec fn compatible(a: OrderModel, b: OrderModel) -> bool {
    a.from == b.to && a.to == b.from
}

/// The two exchange rates together leave no party short:
/// (a.from / a.to) * (b.from / b.to) >= 1, cross-multiplied.
pub open spec fn profitable(a: OrderModel, b: OrderModel) -> bool {
    a.from_amount * b.from_amount >= a.to_amount * b.to_amount
}

/// How much each side receives in a pairing, or `None` when the pairing is
/// skipped. A side whose whole request the other offer covers receives all
/// it asked for; otherwise it receives the other's whole offer, provided
/// that its own cost for that stays a whole number.
pub open spec fn fills(a: OrderModel, b: OrderModel) -> Option<(int, int)> {
    let a_full = b.from_amount >= a.to_amount;
    let b_full = a.from_amount >= b.to_amount;
    if a_full && b_full {
        Some((a.to_amount, b.to_amount))
    } else if a_full {
        if (a.from_amount * b.from_amount) % b.to_amount == 0 {
            Some((a.to_amount, a.from_amount))
        } else {
            None
        }
    } else if b_full {
        if (b.from_amount * a.from_amount) % a.to_amount == 0 {
            Some((b.from_amount, b.to_amount))
        } else {
            None
        }
    } else {
        None
    }
}

/// What receiving `fill` costs the owner of `o`, at the order's own rate.
pub open spec fn cost(fill: int, o: OrderModel) -> int {
    fill * o.from_amount / o.to_amount
}

/// The leftover that the exchange keeps when `paid` exceeds `needed`.
pub open spec fn spread(paid: int, needed: int) -> int {
    if paid > needed {
        paid - needed
    } else {
        0
    }
}

/// `o` after receiving `fill`.
pub open spec fn after_fill(o: OrderModel, fill: int) -> OrderModel {
    OrderModel { from_amount: o.from_amount - cost(fill, o), to_amount: o.to_amount - fill, ..o }
}

/// The orders with `o` put back in place of the order with its id, or
/// dropped when nothing remains to sell.
pub open spec fn settled(s: Seq<OrderModel>, o: OrderModel) -> Seq<OrderModel> {
    if o.from_amount == 0 {
        s.remove(index_of(s, o.id))
    } else {
        s.update(index_of(s, o.id), o)
    }
}

/// The ledger after `a` receives `af` and `b` receives `bf`; `dex` is the
/// exchange's own account, which keeps each side's spread.
pub open spec fn trade_ledger(
    l: Map<LedgerKey, int>,
    a: OrderModel,
    b: OrderModel,
    af: int,
    bf: int,
    dex: Seq<u8>,
) -> Map<LedgerKey, int> {
    let ac = cost(af, a);
    let bc = cost(bf, b);
    let l1 = debited(l, (a.owner, a.from), ac);
    let l2 = credited(l1, (a.owner, a.to), af);
    let l3 = debited(l2, (b.owner, b.from), bc);
    let l4 = credited(l3, (b.owner, b.to), bf);
    let l5 = credited(l4, (dex, a.from), spread(ac, bf));
    credited(l5, (dex, b.from), spread(bc, af))
}

/// Every holding that the trade credits stays representable: each stays
/// within the 128-bit range even if it received all four amounts moved.
pub open spec fn fits(l: Map<LedgerKey, int>, a: OrderModel, b: OrderModel, af: int, bf: int, dex: Seq<u8>) -> bool {
    let total = af + bf + cost(af, a) + cost(bf, b);
    &&& balance_in(l, (a.owner, a.to)) + total <= u128::MAX
    &&& balance_in(l, (b.owner, b.to)) + total <= u128::MAX
    &&& balance_in(l, (dex, a.from)) + total <= u128::MAX
    &&& balance_in(l, (dex, b.from)) + total <= u128::MAX
}

pub open spec fn trade(bk: Book, a: OrderModel, b: OrderModel, af: int, bf: int, dex: Seq<u8>) -> Book {
    Book {
        ledger: trade_ledger(bk.ledger, a, b, af, bf, dex),
        orders: settled(settled(bk.orders, after_fill(a, af)), after_fill(b, bf)),
    }
}

/// One pairing of order `a_id` with order `b_id`: when both are open,
/// distinct, compatible and profitable, and the fills exist and fit, the
/// trade settles; otherwise nothing changes.
pub open spec fn match_step(bk: Book, a_id: OrderId, b_id: OrderId, dex: Seq<u8>) -> Book {
    if has_order(bk.orders, a_id) && has_order(bk.orders, b_id) && a_id != b_id {
        let a = order_in(bk.orders, a_id);
        let b = order_in(bk.orders, b_id);
        if compatible(a, b) && profitable(a, b) {
            match fills(a, b) {
                Some(f) => if fits(bk.ledger, a, b, f.0, f.1, dex) {
                    trade(bk, a, b, f.0, f.1, dex)
                } else {
                    bk
                },
                None => bk,
            }
        } else {
            bk
        }
    } else {
        bk
    }
}

/// Order `a_id` tried against the first `n` candidates, in turn.
pub open spec fn resolve_prefix(bk: Book, a_id: OrderId, cands: Seq<OrderId>, n: nat, dex: Seq<u8>) -> Book
    decreases n,
{
    if n == 0 {
        bk
    } else {
        match_step(resolve_prefix(bk, a_id, cands, (n - 1) as nat, dex), a_id, cands[n - 1], dex)
    }
}

/// Order `a_id` tried against every order open at the start, lowest id first.
pub open spec fn resolve(bk: Book, a_id: OrderId, dex: Seq<u8>) -> Book {
    resolve_prefix(bk, a_id, ids_of(bk.orders), ids_of(bk.orders).len(), dex)
}

/// The book's invariant. Ledger entries are positive; orders are sorted by
/// strictly increasing id, none above `last_id`; each order has positive
/// amounts; an owner sells each asset in at most one order; and each order
/// is covered by its owner's holding of what it sells.
pub open spec fn book_wf(bk: Book, last_id: OrderId) -> bool {
    let s = bk.orders;
    &&& all_positive(bk.ledger)
    &&& forall|i: int, j: int| 0 <= i < j < s.len() ==> (#[trigger] s[i]).id < (#[trigger] s[j]).id
    &&& forall|i: int|
        0 <= i < s.len() ==> {
            &&& 1 <= (#[trigger] s[i]).id <= last_id
            &&& s[i].from_amount > 0
            &&& s[i].to_amount > 0
            &&& balance_in(bk.ledger, funding_key(s[i])) >= s[i].from_amount
        }
    &&& forall|i: int, j: int|
        0 <= i < s.len() && 0 <= j < s.len() && i != j ==> funding_key(#[trigger] s[i]) != funding_key(
            #[trigger] s[j],
        )
}

pub proof fn lemma_index_of(s: Seq<OrderModel>, i: int)
    requires
        0 <= i < s.len(),
        forall|x: int, y: int| 0 <= x < y < s.len() ==> (#[trigger] s[x]).id < (#[trigger] s[y]).id,
    ensures
        has_order(s, s[i].id),
        index_of(s, s[i].id) == i,
{
    let id = s[i].id;
    assert(has_order(s, id));
    let j = index_of(s, id);
    if j < i {
        assert(s[j].id < s[i].id);
    } else if i < j {
        assert(s[i].id < s[j].id);
    }
}

/// The cost of a fill is at most what the order offers, and exactly that
/// when the fill is all the order asks for.
pub proof fn lemma_cost_bounds(fill: int, o: OrderModel)
    requires
        0 < o.to_amount,
        0 <= fill <= o.to_amount,
        0 <= o.from_amount,
    ensures
        0 <= cost(fill, o) <= o.from_amount,
        fill == o.to_amount ==> cost(fill, o) == o.from_amount,
{
    broadcast use vstd::arithmetic::mul::lemma_mul_inequality;
    broadcast use vstd::arithmetic::div_mod::lemma_div_is_ordered;
    broadcast use vstd::arithmetic::div_mod::lemma_div_pos_is_pos;
    assert(fill * o.from_amount <= o.to_amount * o.from_amount);
    assert(0 <= fill * o.from_amount) by (nonlinear_arith)
        requires
            0 <= fill,
            0 <= o.from_amount,
    ;
    vstd::arithmetic::div_mod::lemma_div_multiples_vanish(o.from_amount, o.to_amount);
    assert((fill * o.from_amount) / o.to_amount <= (o.to_amount * o.from_amount) / o.to_amount);
}

/// The fills of a pairing ask no side for more than it wants.
pub proof fn lemma_fills_bounds(a: OrderModel, b: OrderModel)
    requires
        a.to_amount > 0,
        b.to_amount > 0,
        a.from_amount > 0,
        b.from_amount > 0,
        fills(a, b) is Some,
    ensures
        ({
            let f = fills(a, b)->0;
            &&& 0 < f.0 <= a.to_amount
            &&& 0 < f.1 <= b.to_amount
            &&& f.0 <= b.from_amount
            &&& f.1 <= a.from_amount
        }),
{
}

/// Settling one order keeps the others where they were, in order.
pub proof fn lemma_settled(s: Seq<OrderModel>, o: OrderModel)
    requires
        forall|x: int, y: int| 0 <= x < y < s.len() ==> (#[trigger] s[x]).id < (#[trigger] s[y]).id,
        has_order(s, o.id),
    ensures
        ({
            let t = settled(s, o);
            let i = index_of(s, o.id);
            &&& 0 <= i < s.len()
            &&& s[i].id == o.id
            &&& forall|x: int, y: int| 0 <= x < y < t.len() ==> (#[trigger] t[x]).id < (#[trigger] t[y]).id
            &&& (o.from_amount == 0 ==> t == s.remove(i))
            &&& (o.from_amount != 0 ==> t == s.update(i, o))
            &&& (o.from_amount == 0 ==> t.len() == s.len() - 1 && forall|k: int|
                0 <= k < t.len() ==> #[trigger] t[k] == s[if k < i { k } else { k + 1 }])
            &&& (o.from_amount != 0 ==> t.len() == s.len() && forall|k: int|
                0 <= k < t.len() ==> #[trigger] t[k] == if k == i { o } else { s[k] })
        }),
{
    let i = index_of(s, o.id);
    let t = settled(s, o);
    assert(0 <= i < s.len() && s[i].id == o.id);
    if o.from_amount == 0 {
        assert forall|x: int, y: int| 0 <= x < y < t.len() implies (#[trigger] t[x]).id < (#[trigger] t[y]).id by {
            let ox = if x < i { x } else { x + 1 };
            let oy = if y < i { y } else { y + 1 };
            assert(t[x] == s[ox]);
            assert(t[y] == s[oy]);
        }
    } else {
        assert forall|x: int, y: int| 0 <= x < y < t.len() implies (#[trigger] t[x]).id < (#[trigger] t[y]).id by {
            assert(t[x].id == s[x].id);
            assert(t[y].id == s[y].id);
        }
    }
}

/// The ledger effect of a trade: entries stay positive, and only the two
/// funding positions can go down, each by at most its side's cost.
pub proof fn lemma_trade_ledger(l: Map<LedgerKey, int>, a: OrderModel, b: OrderModel, af: int, bf: int, dex: Seq<u8>)
    requires
        all_positive(l),
        funding_key(a) != funding_key(b),
        0 <= af,
        0 <= bf,
        0 <= cost(af, a) <= balance_in(l, funding_key(a)),
        0 <= cost(bf, b) <= balance_in(l, funding_key(b)),
    ensures
        all_positive(trade_ledger(l, a, b, af, bf, dex)),
        forall|k: LedgerKey| #[trigger] balance_in(trade_ledger(l, a, b, af, bf, dex), k) >= balance_in(l, k)
            - (if k == funding_key(a) { cost(af, a) } else { 0 })
            - (if k == funding_key(b) { cost(bf, b) } else { 0 }),
{
    let ac = cost(af, a);
    let bc = cost(bf, b);
    let ka = funding_key(a);
    let kb = funding_key(b);
    let l1 = debited(l, ka, ac);
    let l2 = credited(l1, (a.owner, a.to), af);
    let l3 = debited(l2, kb, bc);
    let l4 = credited(l3, (b.owner, b.to), bf);
    let l5 = credited(l4, (dex, a.from), spread(ac, bf));
    let l6 = credited(l5, (dex, b.from), spread(bc, af));
    lemma_updates_keep_positive(l, ka, ac);
    lemma_updates_keep_positive(l1, (a.owner, a.to), af);
    lemma_debited_balance(l, ka, ac, kb);
    lemma_credited_balance(l1, (a.owner, a.to), af, kb);
    lemma_updates_keep_positive(l2, kb, bc);
    lemma_updates_keep_positive(l3, (b.owner, b.to), bf);
    lemma_updates_keep_positive(l4, (dex, a.from), spread(ac, bf));
    lemma_updates_keep_positive(l5, (dex, b.from), spread(bc, af));
    assert forall|k: LedgerKey| #[trigger] balance_in(l6, k) >= balance_in(l, k)
        - (if k == ka { ac } else { 0 }) - (if k == kb { bc } else { 0 }) by {
        lemma_debited_balance(l, ka, ac, k);
        lemma_credited_balance(l1, (a.owner, a.to), af, k);
        lemma_debited_balance(l2, kb, bc, k);
        lemma_credited_balance(l3, (b.owner, b.to), bf, k);
        lemma_credited_balance(l4, (dex, a.from), spread(ac, bf), k);
        lemma_credited_balance(l5, (dex, b.from), spread(bc, af), k);
    }
}

/// An order of a book after a trade, traced back to the book before it:
/// same id, owner and asset sold as the order it came from, positive
/// amounts, and covered by the new ledger.
pub open spec fn traced(x: OrderModel, s: Seq<OrderModel>, l: Map<LedgerKey, int>) -> bool {
    &&& has_order(s, x.id)
    &&& funding_key(order_in(s, x.id)) == funding_key(x)
    &&& x.from_amount > 0
    &&& x.to_amount > 0
    &&& balance_in(l, funding_key(x)) >= x.from_amount
}

/// Every order of `t` traced back to `s`, with `t` sorted, makes `t` a
/// valid order list over `l`.
pub proof fn lemma_traced_wf(s: Seq<OrderModel>, t: Seq<OrderModel>, l: Map<LedgerKey, int>, last_id: OrderId)
    requires
        forall|i: int, j: int| 0 <= i < j < s.len() ==> (#[trigger] s[i]).id < (#[trigger] s[j]).id,
        forall|i: int| 0 <= i < s.len() ==> 1 <= (#[trigger] s[i]).id <= last_id,
        forall|i: int, j: int|
            0 <= i < s.len() && 0 <= j < s.len() && i != j ==> funding_key(#[trigger] s[i]) != funding_key(#[trigger] s[j]),
        all_positive(l),
        forall|x: int, y: int| 0 <= x < y < t.len() ==> (#[trigger] t[x]).id < (#[trigger] t[y]).id,
        forall|k: int| 0 <= k < t.len() ==> traced(#[trigger] t[k], s, l),
    ensures
        book_wf(Book { ledger: l, orders: t }, last_id),
{
    assert forall|i: int| 0 <= i < t.len() implies 1 <= (#[trigger] t[i]).id <= last_id by {
        assert(traced(t[i], s, l));
        let j = index_of(s, t[i].id);
        assert(s[j].id == t[i].id);
    }
    assert forall|i: int, j: int|
        0 <= i < t.len() && 0 <= j < t.len() && i != j implies funding_key(#[trigger] t[i]) != funding_key(
        #[trigger] t[j]) by {
        assert(traced(t[i], s, l));
        assert(traced(t[j], s, l));
        let x = index_of(s, t[i].id);
        let y = index_of(s, t[j].id);
        assert(s[x].id == t[i].id);
        assert(s[y].id == t[j].id);
        if i < j {
            assert(t[i].id < t[j].id);
        } else {
            assert(t[j].id < t[i].id);
        }
        assert(x != y);
    }
}

/// A matching step keeps the book's invariant.
pub proof fn lemma_match_step_wf(bk: Book, last_id: OrderId, a_id: OrderId, b_id: OrderId, dex: Seq<u8>)
    requires
        book_wf(bk, last_id),
    ensures
        book_wf(match_step(bk, a_id, b_id, dex), last_id),
{
    let s = bk.orders;
    let l = bk.ledger;
    if has_order(s, a_id) && has_order(s, b_id) && a_id != b_id {
        let ia = index_of(s, a_id);
        let ib = index_of(s, b_id);
        let a = s[ia];
        let b = s[ib];
        if compatible(a, b) && profitable(a, b) && fills(a, b) is Some {
            let f = fills(a, b)->0;
            let af = f.0;
            let bf = f.1;
            if fits(l, a, b, af, bf, dex) {
                lemma_fills_bounds(a, b);
                lemma_cost_bounds(af, a);
                lemma_cost_bounds(bf, b);
                assert(ia != ib);
                lemma_trade_ledger(l, a, b, af, bf, dex);
                let l2 = trade_ledger(l, a, b, af, bf, dex);
                let a2 = after_fill(a, af);
                let b2 = after_fill(b, bf);
                let s1 = settled(s, a2);
                lemma_settled(s, a2);
                let ib1 = if a2.from_amount == 0 && ib > ia { ib - 1 } else { ib };
                assert(s1[ib1] == b);
                lemma_index_of(s1, ib1);
                let s2 = settled(s1, b2);
                lemma_settled(s1, b2);
                // every order of s1 is either b itself or traced
                assert forall|m: int| 0 <= m < s1.len() && m != ib1 implies traced(#[trigger] s1[m], s, l2) by {
                    if a2.from_amount != 0 && m == ia {
                        lemma_index_of(s, ia);
                        assert(balance_in(l2, funding_key(a2)) >= balance_in(l, funding_key(a)) - cost(af, a));
                    } else {
                        let j = if a2.from_amount == 0 && m >= ia { m + 1 } else { m };
                        assert(s1[m] == s[j]);
                        assert(j != ia);
                        assert(j != ib);
                        lemma_index_of(s, j);
                        assert(funding_key(s[j]) != funding_key(a));
                        assert(funding_key(s[j]) != funding_key(b));
                        assert(balance_in(l2, funding_key(s[j])) >= balance_in(l, funding_key(s[j])));
                    }
                }
                assert forall|k: int| 0 <= k < s2.len() implies traced(#[trigger] s2[k], s, l2) by {
                    if b2.from_amount != 0 && k == ib1 {
                        lemma_index_of(s, ib);
                        assert(balance_in(l2, funding_key(b2)) >= balance_in(l, funding_key(b)) - cost(bf, b));
                    } else {
                        let m = if b2.from_amount == 0 && k >= ib1 { k + 1 } else { k };
                        assert(s2[k] == s1[m]);
                        assert(m != ib1);
                    }
                }
                lemma_traced_wf(s, s2, l2, last_id);
            }
        }
    }
}

pub open spec fn sorted_ids(s: Seq<OrderModel>) -> bool {
    forall|x: int, y: int| 0 <= x < y < s.len() ==> (#[trigger] s[x]).id < (#[trigger] s[y]).id
}

/// Keeping the orders that satisfy `p` keeps them in id order, keeps all of
/// them and adds none.
pub proof fn lemma_filter_orders(s: Seq<OrderModel>, p: spec_fn(OrderModel) -> bool)
    requires
        sorted_ids(s),
    ensures
        sorted_ids(s.filter(p)),
        forall|k: int| 0 <= k < s.filter(p).len() ==> s.contains(#[trigger] s.filter(p)[k]) && p(s.filter(p)[k]),
        forall|j: int| 0 <= j < s.len() && p(#[trigger] s[j]) ==> s.filter(p).contains(s[j]),
    decreases s.len(),
{
    reveal(Seq::filter);
    broadcast use vstd::seq_lib::group_filter_ensures;
    if s.len() > 0 {
        let d = s.drop_last();
        lemma_filter_orders(d, p);
        let t0 = d.filter(p);
        let t = s.filter(p);
        assert forall|k: int| 0 <= k < t0.len() implies (#[trigger] t0[k]).id < s.last().id by {
            assert(d.contains(t0[k]));
            let j = choose|j: int| 0 <= j < d.len() && d[j] == t0[k];
            assert(s[j] == t0[k]);
        }
        assert forall|k: int| 0 <= k < t.len() implies s.contains(#[trigger] t[k]) && p(t[k]) by {
            if k < t0.len() {
                assert(t[k] == t0[k]);
                assert(d.contains(t0[k]));
                let j = choose|j: int| 0 <= j < d.len() && d[j] == t0[k];
                assert(s[j] == t[k]);
            } else {
                assert(t[k] == s.last());
                assert(s[s.len() - 1] == t[k]);
            }
        }
        assert forall|j: int| 0 <= j < s.len() && p(#[trigger] s[j]) implies t.contains(s[j]) by {
            if j < s.len() - 1 {
                assert(d[j] == s[j]);
                assert(t0.contains(d[j]));
                let k = choose|k: int| 0 <= k < t0.len() && t0[k] == d[j];
                assert(t[k] == t0[k]);
            } else {
                assert(t[t.len() - 1] == s[j]);
            }
        }
    }
}

/// Keeping the orders that satisfy `p` keeps the book's invariant.
pub proof fn lemma_filter_wf(bk: Book, last_id: OrderId, p: spec_fn(OrderModel) -> bool)
    requires
        book_wf(bk, last_id),
    ensures
        book_wf(Book { orders: bk.orders.filter(p), ..bk }, last_id),
{
    let s = bk.orders;
    let t = s.filter(p);
    lemma_filter_orders(s, p);
    assert forall|k: int| 0 <= k < t.len() implies traced(#[trigger] t[k], s, bk.ledger) by {
        assert(s.contains(t[k]));
        let j = choose|j: int| 0 <= j < s.len() && s[j] == t[k];
        lemma_index_of(s, j);
    }
    lemma_traced_wf(s, t, bk.ledger, last_id);
}

/// Removing an open order keeps the book's invariant.
pub proof fn lemma_remove_wf(bk: Book, last_id: OrderId, id: OrderId)
    requires
        book_wf(bk, last_id),
        has_order(bk.orders, id),
    ensures
        book_wf(Book { orders: bk.orders.remove(index_of(bk.orders, id)), ..bk }, last_id),
{
    let s = bk.orders;
    let i = index_of(s, id);
    let t = s.remove(i);
    assert(0 <= i < s.len() && s[i].id == id);
    assert forall|x: int, y: int| 0 <= x < y < t.len() implies (#[trigger] t[x]).id < (#[trigger] t[y]).id by {
        let ox = if x < i { x } else { x + 1 };
        let oy = if y < i { y } else { y + 1 };
        assert(t[x] == s[ox]);
        assert(t[y] == s[oy]);
    }
    assert forall|k: int| 0 <= k < t.len() implies traced(#[trigger] t[k], s, bk.ledger) by {
        let j = if k < i { k } else { k + 1 };
        assert(t[k] == s[j]);
        lemma_index_of(s, j);
    }
    lemma_traced_wf(s, t, bk.ledger, last_id);
}

} // verus!

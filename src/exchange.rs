use vstd::prelude::*;

use crate::account::AccountId;
use crate::balances::{
    balance_in, credited, debited, distinct_positive, key_of, ledger_of, lemma_credited_balance,
    lemma_debited_balance, lemma_ledger_of, lemma_listing_describes_ledger, lists, Balance, Balances,
    LedgerKey,
};
use crate::book::{
    book_wf, cost, fills, fits, funding_key, has_order, ids_of, index_of, lemma_cost_bounds,
    lemma_fills_bounds, lemma_filter_wf, lemma_index_of, lemma_match_step_wf, lemma_remove_wf,
    lemma_settled, match_step, order_in, resolve, resolve_prefix, settled, spread, trade,
    trade_ledger, Book,
};
use crate::types::{
    CancelOrderErr, CancelOrderReceipt, Order, OrderId, OrderModel, OrderPlacementErr,
    OrderPlacementReceipt,
};

verus! {

/// The exchange: its ledger, its open orders in id order, and the last id handed out.
pub struct Exchange {
    pub(crate) next_id: OrderId,
    pub(crate) balances: Balances,
    pub(crate) orders: Vec<Order>,
}

/// `bk` with order `o` appended.
pub open spec fn placed(bk: Book, o: OrderModel) -> Book {
    Book { orders: bk.orders.push(o), ..bk }
}

/// `bk` without the order with id `id`.
pub open spec fn without(bk: Book, id: OrderId) -> Book {
    Book { orders: bk.orders.remove(index_of(bk.orders, id)), ..bk }
}

/// Some open order of `owner` sells `asset`.
pub open spec fn has_sell_order(s: Seq<OrderModel>, owner: Seq<u8>, asset: Seq<u8>) -> bool {
    exists|i: int| 0 <= i < s.len() && (#[trigger] s[i]).owner == owner && s[i].from == asset
}

/// A request to sell `from_amount` for `to_amount` is refused outright:
/// an amount is zero, the owner already sells that asset, or its holding
/// does not cover the offer.
pub open spec fn invalid_request(bk: Book, owner: Seq<u8>, from: Seq<u8>, from_amount: int, to_amount: int) -> bool {
    ||| from_amount <= 0
    ||| to_amount <= 0
    ||| has_sell_order(bk.orders, owner, from)
    ||| balance_in(bk.ledger, (owner, from)) < from_amount
}

impl Exchange {
    pub closed spec fn book(&self) -> Book {
        Book { ledger: self.balances@, orders: self.orders@.map_values(|o: Order| o@) }
    }

    /// The last order id handed out; zero before the first.
    pub closed spec fn last_id(&self) -> OrderId {
        self.next_id
    }

    pub closed spec fn wf(&self) -> bool {
        &&& self.balances.wf()
        &&& book_wf(self.book(), self.next_id)
    }

    /// What the invariant guarantees of the book: entries positive and
    /// within 128 bits, orders sorted by id and at most `last_id`, at most
    /// one order per owner and asset sold, and every order covered by its
    /// owner's holding.
    pub proof fn lemma_wf(&self)
        requires
            self.wf(),
        ensures
            book_wf(self.book(), self.last_id()),
            forall|k: LedgerKey| #[trigger] balance_in(self.book().ledger, k) <= u128::MAX,
    {
        self.balances.lemma_positive();
    }

    /// An exchange with no holdings and no orders.
    pub fn new() -> (r: Exchange)
        ensures
            r.wf(),
            r.book() == (Book { ledger: Map::empty(), orders: Seq::empty() }),
            r.last_id() == 0,
    {
        let r = Exchange { next_id: 0, balances: Balances::new(), orders: Vec::new() };
        proof {
            assert(r.orders@.map_values(|o: Order| o@) =~= Seq::<OrderModel>::empty());
        }
        r
    }

    /// Position of the order with id `id`, if it is open.
    fn find_order(&self, id: OrderId) -> (r: Option<usize>)
        requires
            self.wf(),
        ensures
            match r {
                Some(i) => i < self.orders@.len() && self.orders@[i as int].id == id && has_order(self.book().orders, id)
                    && index_of(self.book().orders, id) == i,
                None => !has_order(self.book().orders, id),
            },
    {
        let ghost s = self.book().orders;
        let mut i: usize = 0;
        while i < self.orders.len()
            invariant
                self.wf(),
                s == self.book().orders,
                i <= self.orders@.len(),
                forall|j: int| 0 <= j < i ==> (#[trigger] self.orders@[j]).id != id,
            decreases self.orders@.len() - i,
        {
            if self.orders[i].id == id {
                proof {
                    assert(s[i as int] == self.orders@[i as int]@);
                    lemma_index_of(s, i as int);
                }
                return Some(i);
            }
            i = i + 1;
        }
        proof {
            assert forall|j: int| 0 <= j < s.len() implies (#[trigger] s[j]).id != id by {
                assert(s[j] == self.orders@[j]@);
            }
        }
        None
    }

    /// What `owner` holds of `token` in custody.
    pub fn get_balance(&self, owner: &AccountId, token: &AccountId) -> (r: u128)
        requires
            self.wf(),
        ensures
            r as int == balance_in(self.book().ledger, (owner@, token@)),
    {
        self.balances.balance_of(owner, token)
    }

    /// The open order with id `id`, if there is one.
    pub fn get_order(&self, id: OrderId) -> (r: Option<Order>)
        requires
            self.wf(),
        ensures
            match r {
                Some(o) => has_order(self.book().orders, id) && o@ == order_in(self.book().orders, id),
                None => !has_order(self.book().orders, id),
            },
    {
        match self.find_order(id) {
            Some(i) => Some(self.orders[i].duplicate()),
            None => None,
        }
    }

    /// All open orders, lowest id first.
    pub fn get_all_orders(&self) -> (r: Vec<Order>)
        requires
            self.wf(),
        ensures
            r@.map_values(|o: Order| o@) == self.book().orders,
    {
        let mut r: Vec<Order> = Vec::new();
        let mut i: usize = 0;
        while i < self.orders.len()
            invariant
                i <= self.orders@.len(),
                r@.len() == i,
                forall|k: int| 0 <= k < i ==> (#[trigger] r@[k])@ == self.orders@[k]@,
            decreases self.orders@.len() - i,
        {
            r.push(self.orders[i].duplicate());
            i = i + 1;
        }
        proof {
            assert(r@.map_values(|o: Order| o@) =~= self.book().orders);
        }
        r
    }

    /// The ids of the open orders, lowest first.
    fn order_ids(&self) -> (r: Vec<OrderId>)
        ensures
            r@ == ids_of(self.book().orders),
    {
        let mut r: Vec<OrderId> = Vec::new();
        let mut i: usize = 0;
        while i < self.orders.len()
            invariant
                i <= self.orders@.len(),
                r@ == ids_of(self.book().orders).subrange(0, i as int),
            decreases self.orders@.len() - i,
        {
            r.push(self.orders[i].id);
            i = i + 1;
            proof {
                assert(r@ =~= ids_of(self.book().orders).subrange(0, i as int));
            }
        }
        proof {
            assert(ids_of(self.book().orders).subrange(0, i as int) =~= ids_of(self.book().orders));
        }
        r
    }

    /// Whether `owner` already has an open order selling `asset`.
    pub fn check_for_sell_orders(&self, owner: &AccountId, asset: &AccountId) -> (r: bool)
        ensures
            r == has_sell_order(self.book().orders, owner@, asset@),
    {
        let ghost s = self.book().orders;
        let mut i: usize = 0;
        while i < self.orders.len()
            invariant
                s == self.book().orders,
                i <= self.orders@.len(),
                forall|j: int| 0 <= j < i ==> !((#[trigger] s[j]).owner == owner@ && s[j].from == asset@),
            decreases self.orders@.len() - i,
        {
            proof {
                assert(s[i as int] == self.orders@[i as int]@);
            }
            if self.orders[i].from.same(asset) && self.orders[i].owner.same(owner) {
                return true;
            }
            i = i + 1;
        }
        false
    }
}

/// The fills of a pairing, as `fills` defines them.
fn compute_fills(a: &Order, b: &Order) -> (r: Option<(u64, u64)>)
    requires
        a.to_amount > 0,
        b.to_amount > 0,
    ensures
        match r {
            Some(f) => fills(a@, b@) == Some((f.0 as int, f.1 as int)),
            None => fills(a@, b@) is None,
        },
{
    let a_full = b.from_amount >= a.to_amount;
    let b_full = a.from_amount >= b.to_amount;
    if a_full && b_full {
        Some((a.to_amount, b.to_amount))
    } else if a_full {
        proof {
            assert((a.from_amount as int) * (b.from_amount as int) <= u64::MAX * u64::MAX) by (nonlinear_arith)
                requires
                    a.from_amount <= u64::MAX,
                    b.from_amount <= u64::MAX,
            ;
        }
        let p = (a.from_amount as u128) * (b.from_amount as u128);
        if p % (b.to_amount as u128) == 0 {
            Some((a.to_amount, a.from_amount))
        } else {
            None
        }
    } else if b_full {
        proof {
            assert((b.from_amount as int) * (a.from_amount as int) <= u64::MAX * u64::MAX) by (nonlinear_arith)
                requires
                    a.from_amount <= u64::MAX,
                    b.from_amount <= u64::MAX,
            ;
        }
        let p = (b.from_amount as u128) * (a.from_amount as u128);
        if p % (a.to_amount as u128) == 0 {
            Some((b.from_amount, b.to_amount))
        } else {
            None
        }
    } else {
        None
    }
}

/// What receiving `fill` costs the owner of `o`, as `cost` defines it.
fn fill_cost(fill: u64, o: &Order) -> (r: u64)
    requires
        0 < o.to_amount,
        fill <= o.to_amount,
    ensures
        r as int == cost(fill as int, o@),
{
    proof {
        assert((fill as int) * (o.from_amount as int) <= u64::MAX * u64::MAX) by (nonlinear_arith)
            requires
                fill <= u64::MAX,
                o.from_amount <= u64::MAX,
        ;
        lemma_cost_bounds(fill as int, o@);
    }
    let p = (fill as u128) * (o.from_amount as u128);
    (p / (o.to_amount as u128)) as u64
}

impl Exchange {
    /// Applies a trade between the orders at `ia` and `ib`, which receive
    /// `af` and `bf` at costs `ac` and `bc`.
    fn settle_trade(
        &mut self,
        ia: usize,
        ib: usize,
        a: Order,
        b: Order,
        af: u64,
        bf: u64,
        ac: u64,
        bc: u64,
        dex: &AccountId,
    )
        requires
            old(self).wf(),
            ia < old(self).orders@.len(),
            ib < old(self).orders@.len(),
            ia != ib,
            old(self).orders@[ia as int]@ == a@,
            old(self).orders@[ib as int]@ == b@,
            fills(a@, b@) == Some((af as int, bf as int)),
            ac as int == cost(af as int, a@),
            bc as int == cost(bf as int, b@),
            fits(old(self).book().ledger, a@, b@, af as int, bf as int, dex@),
        ensures
            final(self).balances.wf(),
            final(self).book() == trade(old(self).book(), a@, b@, af as int, bf as int, dex@),
            final(self).next_id == old(self).next_id,
    {
        let ghost s = self.book().orders;
        proof {
            lemma_index_of(s, ia as int);
            lemma_index_of(s, ib as int);
            assert(s[ia as int] == a@);
            assert(s[ib as int] == b@);
            lemma_fills_bounds(a@, b@);
            lemma_cost_bounds(af as int, a@);
            lemma_cost_bounds(bf as int, b@);
            assert(funding_key(a@) != funding_key(b@));
        }
        apply_trade_ledger(&mut self.balances, &a, &b, af, bf, ac, bc, dex);
        let a_new = Order {
            id: a.id,
            owner: a.owner,
            from: a.from,
            from_amount: a.from_amount - ac,
            to: a.to,
            to_amount: a.to_amount - af,
        };
        let b_new = Order {
            id: b.id,
            owner: b.owner,
            from: b.from,
            from_amount: b.from_amount - bc,
            to: b.to,
            to_amount: b.to_amount - bf,
        };
        self.settle_orders(ia, ib, a_new, b_new);
    }

    /// Puts the two traded orders back in place, or drops those with
    /// nothing left to sell.
    fn settle_orders(&mut self, ia: usize, ib: usize, a_new: Order, b_new: Order)
        requires
            ia < old(self).orders@.len(),
            ib < old(self).orders@.len(),
            ia != ib,
            old(self).orders@[ia as int].id == a_new.id,
            old(self).orders@[ib as int].id == b_new.id,
            forall|x: int, y: int| 0 <= x < y < old(self).book().orders.len() ==> (#[trigger] old(self).book().orders[x]).id < (#[trigger] old(self).book().orders[y]).id,
        ensures
            final(self).book() == (Book { orders: settled(settled(old(self).book().orders, a_new@), b_new@), ..old(self).book() }),
            final(self).balances == old(self).balances,
            final(self).next_id == old(self).next_id,
    {
        let ghost s = self.book().orders;
        proof {
            lemma_index_of(s, ia as int);
            lemma_settled(s, a_new@);
        }
        let a_gone = a_new.from_amount == 0;
        if a_gone {
            self.orders.remove(ia);
        } else {
            self.orders.set(ia, a_new);
        }
        let ghost s1 = settled(s, a_new@);
        proof {
            assert(self.book().orders =~= s1);
        }
        let ib1 = if a_gone && ib > ia {
            ib - 1
        } else {
            ib
        };
        proof {
            assert(s1[ib1 as int] == s[ib as int]);
            lemma_index_of(s1, ib1 as int);
            lemma_settled(s1, b_new@);
        }
        if b_new.from_amount == 0 {
            self.orders.remove(ib1);
        } else {
            self.orders.set(ib1, b_new);
        }
        proof {
            assert(self.book().orders =~= settled(s1, b_new@));
        }
    }

    /// One pairing of order `a_id` with order `b_id`, as `match_step` describes it.
    fn match_step(&mut self, a_id: OrderId, b_id: OrderId, dex: &AccountId)
        requires
            old(self).wf(),
        ensures
            final(self).wf(),
            final(self).book() == match_step(old(self).book(), a_id, b_id, dex@),
            final(self).next_id == old(self).next_id,
    {
        proof {
            lemma_match_step_wf(self.book(), self.next_id, a_id, b_id, dex@);
        }
        if a_id == b_id {
            return;
        }
        let ia = match self.find_order(a_id) {
            Some(i) => i,
            None => return ,
        };
        let ib = match self.find_order(b_id) {
            Some(i) => i,
            None => return ,
        };
        let a = self.orders[ia].duplicate();
        let b = self.orders[ib].duplicate();
        proof {
            assert(self.book().orders[ia as int] == a@);
            assert(self.book().orders[ib as int] == b@);
            assert(a.to_amount > 0 && b.to_amount > 0);
        }
        if !(a.from.same(&b.to) && a.to.same(&b.from)) {
            return;
        }
        proof {
            assert((a.from_amount as int) * (b.from_amount as int) <= u64::MAX * u64::MAX) by (nonlinear_arith)
                requires
                    a.from_amount <= u64::MAX,
                    b.from_amount <= u64::MAX,
            ;
            assert((a.to_amount as int) * (b.to_amount as int) <= u64::MAX * u64::MAX) by (nonlinear_arith)
                requires
                    a.to_amount <= u64::MAX,
                    b.to_amount <= u64::MAX,
            ;
        }
        if (a.from_amount as u128) * (b.from_amount as u128) < (a.to_amount as u128) * (b.to_amount as u128) {
            return;
        }
        let (af, bf) = match compute_fills(&a, &b) {
            Some(f) => f,
            None => return ,
        };
        proof {
            lemma_fills_bounds(a@, b@);
        }
        let ac = fill_cost(af, &a);
        let bc = fill_cost(bf, &b);
        let total: u128 = af as u128 + bf as u128 + ac as u128 + bc as u128;
        if self.balances.balance_of(&a.owner, &a.to) > u128::MAX - total || self.balances.balance_of(
            &b.owner,
            &b.to,
        ) > u128::MAX - total || self.balances.balance_of(dex, &a.from) > u128::MAX - total
            || self.balances.balance_of(dex, &b.from) > u128::MAX - total {
            return;
        }
        self.settle_trade(ia, ib, a, b, af, bf, ac, bc, dex);
    }
}

/// The ledger side of a trade, as `trade_ledger` describes it.
fn apply_trade_ledger(
    balances: &mut Balances,
    a: &Order,
    b: &Order,
    af: u64,
    bf: u64,
    ac: u64,
    bc: u64,
    dex: &AccountId,
)
    requires
        old(balances).wf(),
        funding_key(a@) != funding_key(b@),
        ac as int == cost(af as int, a@),
        bc as int == cost(bf as int, b@),
        ac <= balance_in(old(balances)@, funding_key(a@)),
        bc <= balance_in(old(balances)@, funding_key(b@)),
        fits(old(balances)@, a@, b@, af as int, bf as int, dex@),
    ensures
        final(balances).wf(),
        final(balances)@ == trade_ledger(old(balances)@, a@, b@, af as int, bf as int, dex@),
{
    let ghost l = balances@;
    let ghost ka = funding_key(a@);
    let ghost kb = funding_key(b@);
    let ghost l1 = crate::balances::debited(l, ka, ac as int);
    let ghost l2 = crate::balances::credited(l1, (a@.owner, a@.to), af as int);
    let ghost l3 = crate::balances::debited(l2, kb, bc as int);
    let ghost l4 = crate::balances::credited(l3, (b@.owner, b@.to), bf as int);
    proof {
        lemma_debited_balance(l, ka, ac as int, (a@.owner, a@.to));
        lemma_debited_balance(l, ka, ac as int, kb);
        lemma_credited_balance(l1, (a@.owner, a@.to), af as int, kb);
    }
    let ok1 = balances.subtract_balance(&a.owner, &a.from, ac as u128);
    balances.add_balance(&a.owner, &a.to, af as u128);
    proof {
        lemma_debited_balance(l, ka, ac as int, (b@.owner, b@.to));
        lemma_credited_balance(l1, (a@.owner, a@.to), af as int, (b@.owner, b@.to));
        lemma_debited_balance(l2, kb, bc as int, (b@.owner, b@.to));
    }
    let ok2 = balances.subtract_balance(&b.owner, &b.from, bc as u128);
    // both debits are covered: each order is backed by its owner's holding
    assert(ok1 && ok2);
    balances.add_balance(&b.owner, &b.to, bf as u128);
    if ac > bf {
        proof {
            let k = (dex@, a@.from);
            lemma_debited_balance(l, ka, ac as int, k);
            lemma_credited_balance(l1, (a@.owner, a@.to), af as int, k);
            lemma_debited_balance(l2, kb, bc as int, k);
            lemma_credited_balance(l3, (b@.owner, b@.to), bf as int, k);
        }
        balances.add_balance(dex, &a.from, (ac - bf) as u128);
    }
    if bc > af {
        proof {
            let k = (dex@, b@.from);
            lemma_debited_balance(l, ka, ac as int, k);
            lemma_credited_balance(l1, (a@.owner, a@.to), af as int, k);
            lemma_debited_balance(l2, kb, bc as int, k);
            lemma_credited_balance(l3, (b@.owner, b@.to), bf as int, k);
            lemma_credited_balance(l4, (dex@, a@.from), spread(ac as int, bf as int), k);
        }
        balances.add_balance(dex, &b.from, (bc - af) as u128);
    }
}

impl Exchange {
    /// Tries order `id` against every order open now, lowest id first.
    fn resolve_order(&mut self, id: OrderId, dex: &AccountId)
        requires
            old(self).wf(),
        ensures
            final(self).wf(),
            final(self).book() == resolve(old(self).book(), id, dex@),
            final(self).next_id == old(self).next_id,
    {
        let cands = self.order_ids();
        let ghost start = self.book();
        let mut k: usize = 0;
        while k < cands.len()
            invariant
                self.wf(),
                self.next_id == old(self).next_id,
                start == old(self).book(),
                cands@ == ids_of(start.orders),
                k <= cands@.len(),
                self.book() == resolve_prefix(start, id, cands@, k as nat, dex@),
            decreases cands@.len() - k,
        {
            self.match_step(id, cands[k], dex);
            k = k + 1;
        }
    }

    /// Offers `from_amount` of `from` for `to_amount` of `to` on behalf of
    /// `owner`, then matches the new order at once against the open ones;
    /// `dex` is the exchange's own account. Returns the order as it stands
    /// after matching, or `None` when it was filled completely. Ids are never
    /// reused: once the last 32-bit id has been handed out, every further
    /// valid request is refused with `OrderBookFull` and changes nothing.
    pub fn place_order(
        &mut self,
        owner: &AccountId,
        from: &AccountId,
        from_amount: u64,
        to: &AccountId,
        to_amount: u64,
        dex: &AccountId,
    ) -> (r: OrderPlacementReceipt)
        requires
            old(self).wf(),
        ensures
            final(self).wf(),
            invalid_request(old(self).book(), owner@, from@, from_amount as int, to_amount as int) ==> r
                == Err::<Option<Order>, OrderPlacementErr>(OrderPlacementErr::InvalidOrder) && final(self).book()
                == old(self).book() && final(self).last_id() == old(self).last_id(),
            !invalid_request(old(self).book(), owner@, from@, from_amount as int, to_amount as int)
                && old(self).last_id() == u32::MAX ==> r == Err::<Option<Order>, OrderPlacementErr>(
                OrderPlacementErr::OrderBookFull,
            ) && final(self).book() == old(self).book() && final(self).last_id() == old(self).last_id(),
            !invalid_request(old(self).book(), owner@, from@, from_amount as int, to_amount as int)
                && old(self).last_id() < u32::MAX ==> {
                let id = (old(self).last_id() + 1) as OrderId;
                let o = OrderModel {
                    id,
                    owner: owner@,
                    from: from@,
                    from_amount: from_amount as int,
                    to: to@,
                    to_amount: to_amount as int,
                };
                &&& final(self).last_id() == id
                &&& final(self).book() == resolve(placed(old(self).book(), o), id, dex@)
                &&& r is Ok
                &&& match r->Ok_0 {
                    Some(p) => has_order(final(self).book().orders, id) && p@ == order_in(final(self).book().orders, id),
                    None => !has_order(final(self).book().orders, id),
                }
            },
    {
        if from_amount == 0 || to_amount == 0 {
            return Err(OrderPlacementErr::InvalidOrder);
        }
        if self.check_for_sell_orders(owner, from) {
            return Err(OrderPlacementErr::InvalidOrder);
        }
        if self.balances.balance_of(owner, from) < from_amount as u128 {
            return Err(OrderPlacementErr::InvalidOrder);
        }
        if self.next_id == u32::MAX {
            return Err(OrderPlacementErr::OrderBookFull);
        }
        let id = self.next_id + 1;
        let ghost old_book = self.book();
        let order = Order {
            id,
            owner: owner.duplicate(),
            from: from.duplicate(),
            from_amount,
            to: to.duplicate(),
            to_amount,
        };
        let ghost o = order@;
        self.next_id = id;
        self.orders.push(order);
        proof {
            let s = self.book().orders;
            assert(s =~= old_book.orders.push(o));
            assert(self.book() == placed(old_book, o));
            assert forall|i: int, j: int|
                0 <= i < s.len() && 0 <= j < s.len() && i != j implies funding_key(#[trigger] s[i])
                != funding_key(#[trigger] s[j]) by {
                if i == s.len() - 1 {
                    assert(s[j] == old_book.orders[j]);
                } else if j == s.len() - 1 {
                    assert(s[i] == old_book.orders[i]);
                }
            }
            assert(book_wf(self.book(), self.next_id));
        }
        self.resolve_order(id, dex);
        match self.find_order(id) {
            Some(i) => Ok(Some(self.orders[i].duplicate())),
            None => Ok(None),
        }
    }
}

/// The orders that do not belong to `owner`.
pub open spec fn not_owned_by(owner: Seq<u8>) -> spec_fn(OrderModel) -> bool {
    |o: OrderModel| o.owner != owner
}

impl Exchange {
    /// Cancels order `id` on behalf of `caller`, who must own it. Holdings
    /// do not change: placing an order never took funds out of them.
    pub fn cancel_order(&mut self, caller: &AccountId, id: OrderId) -> (r: CancelOrderReceipt)
        requires
            old(self).wf(),
        ensures
            final(self).wf(),
            final(self).last_id() == old(self).last_id(),
            !has_order(old(self).book().orders, id) ==> r == Err::<OrderId, CancelOrderErr>(
                CancelOrderErr::NotExistingOrder,
            ) && final(self).book() == old(self).book(),
            has_order(old(self).book().orders, id) && order_in(old(self).book().orders, id).owner != caller@
                ==> r == Err::<OrderId, CancelOrderErr>(CancelOrderErr::NotAllowed) && final(self).book()
                == old(self).book(),
            has_order(old(self).book().orders, id) && order_in(old(self).book().orders, id).owner == caller@
                ==> r == Ok::<OrderId, CancelOrderErr>(id) && final(self).book() == without(old(self).book(), id),
    {
        match self.find_order(id) {
            None => Err(CancelOrderErr::NotExistingOrder),
            Some(i) => {
                proof {
                    assert(self.book().orders[i as int] == self.orders@[i as int]@);
                }
                if !self.orders[i].owner.same(caller) {
                    return Err(CancelOrderErr::NotAllowed);
                }
                let ghost bk = self.book();
                proof {
                    lemma_remove_wf(bk, self.next_id, id);
                }
                self.orders.remove(i);
                proof {
                    assert(self.book().orders =~= bk.orders.remove(i as int));
                    assert(self.book() == without(bk, id));
                }
                Ok(id)
            },
        }
    }

    /// Closes every open order of `owner`, keeping the others in order.
    pub fn remove_orders_of(&mut self, owner: &AccountId)
        requires
            old(self).wf(),
        ensures
            final(self).wf(),
            final(self).last_id() == old(self).last_id(),
            final(self).book() == (Book {
                orders: old(self).book().orders.filter(not_owned_by(owner@)),
                ..old(self).book()
            }),
    {
        let ghost s = self.book().orders;
        let ghost p = not_owned_by(owner@);
        let mut kept: Vec<Order> = Vec::new();
        let mut i: usize = 0;
        while i < self.orders.len()
            invariant
                s == self.book().orders,
                i <= self.orders@.len(),
                p == not_owned_by(owner@),
                kept@.map_values(|o: Order| o@) == s.subrange(0, i as int).filter(p),
            decreases self.orders@.len() - i,
        {
            let ghost before = kept@;
            let keep = !self.orders[i].owner.same(owner);
            if keep {
                kept.push(self.orders[i].duplicate());
            }
            proof {
                reveal(Seq::filter);
                let sub = s.subrange(0, i + 1 as int);
                assert(sub.drop_last() =~= s.subrange(0, i as int));
                assert(sub.last() == s[i as int]);
                assert(s[i as int] == self.orders@[i as int]@);
                assert(p(s[i as int]) == keep);
                if keep {
                    assert(kept@.map_values(|o: Order| o@) =~= before.map_values(|o: Order| o@).push(s[i as int]));
                } else {
                    assert(kept@ == before);
                }
                assert(kept@.map_values(|o: Order| o@) == sub.filter(p));
            }
            i = i + 1;
        }
        proof {
            assert(s.subrange(0, i as int) =~= s);
            lemma_filter_wf(self.book(), self.next_id, p);
        }
        self.orders = kept;
    }
}

impl Exchange {
    /// Every holding of `owner`, each once, in no particular order.
    pub fn get_balances(&self, owner: &AccountId) -> (r: Vec<Balance>)
        requires
            self.wf(),
        ensures
            lists(r@, self.book().ledger, |o: Seq<u8>| o == owner@),
    {
        self.balances.all_balances_of(owner)
    }

    /// Every holding of every account, each once, in no particular order.
    pub fn get_all_balances(&self) -> (r: Vec<Balance>)
        requires
            self.wf(),
        ensures
            lists(r@, self.book().ledger, |o: Seq<u8>| true),
    {
        self.balances.all_balances()
    }

    /// Adds `amount` of `token` to what `owner` holds. A holding beyond the
    /// 128-bit range is a fault of the caller.
    pub fn credit(&mut self, owner: &AccountId, token: &AccountId, amount: u128)
        requires
            old(self).wf(),
            balance_in(old(self).book().ledger, (owner@, token@)) + amount <= u128::MAX,
        ensures
            final(self).wf(),
            final(self).last_id() == old(self).last_id(),
            final(self).book() == (Book {
                ledger: credited(old(self).book().ledger, (owner@, token@), amount as int),
                ..old(self).book()
            }),
    {
        let ghost bk = self.book();
        proof {
            crate::balances::lemma_updates_keep_positive(bk.ledger, (owner@, token@), amount as int);
            assert forall|k: LedgerKey| #[trigger] balance_in(credited(bk.ledger, (owner@, token@), amount as int), k)
                >= balance_in(bk.ledger, k) by {
                crate::balances::lemma_credited_balance(bk.ledger, (owner@, token@), amount as int, k);
            }
        }
        self.balances.add_balance(owner, token, amount);
    }

    /// Drops every order and every holding.
    pub fn clear(&mut self)
        requires
            old(self).wf(),
        ensures
            final(self).wf(),
            final(self).last_id() == old(self).last_id(),
            final(self).book() == (Book { ledger: Map::empty(), orders: Seq::empty() }),
    {
        self.orders = Vec::new();
        self.balances.clear();
        proof {
            assert(self.orders@.map_values(|o: Order| o@) =~= Seq::<OrderModel>::empty());
        }
    }

    /// Takes `amount` of `token` from `owner`, who has no open order, so
    /// that no order is left uncovered. Returns false and changes nothing
    /// when the holding is smaller.
    pub fn debit_unreserved(&mut self, owner: &AccountId, token: &AccountId, amount: u128) -> (r: bool)
        requires
            old(self).wf(),
            forall|i: int| 0 <= i < old(self).book().orders.len() ==> (#[trigger] old(self).book().orders[i]).owner != owner@,
        ensures
            final(self).wf(),
            final(self).last_id() == old(self).last_id(),
            r == (balance_in(old(self).book().ledger, (owner@, token@)) >= amount),
            r ==> final(self).book() == (Book {
                ledger: debited(old(self).book().ledger, (owner@, token@), amount as int),
                ..old(self).book()
            }),
            !r ==> final(self).book() == old(self).book(),
    {
        let ghost bk = self.book();
        proof {
            crate::balances::lemma_updates_keep_positive(bk.ledger, (owner@, token@), amount as int);
            assert forall|i: int| 0 <= i < bk.orders.len() implies balance_in(
                debited(bk.ledger, (owner@, token@), amount as int),
                funding_key(#[trigger] bk.orders[i]),
            ) == balance_in(bk.ledger, funding_key(bk.orders[i])) by {
                lemma_debited_balance(bk.ledger, (owner@, token@), amount as int, funding_key(bk.orders[i]));
            }
        }
        self.balances.subtract_balance(owner, token, amount)
    }
}

/// The whole state of an exchange as plain values, for saving and restoring
/// it: the last order id handed out, every holding and every open order.
#[derive(Clone, Debug)]
pub struct ExchangeSnapshot {
    pub next_id: OrderId,
    pub balances: Vec<Balance>,
    pub orders: Vec<Order>,
}

/// The book that a snapshot describes.
pub open spec fn snapshot_book(s: ExchangeSnapshot) -> Book {
    Book { ledger: ledger_of(s.balances@), orders: s.orders@.map_values(|o: Order| o@) }
}

/// A snapshot that an exchange could have produced: distinct positive
/// holdings, and orders that meet the book's invariant over them.
pub open spec fn valid_snapshot(s: ExchangeSnapshot) -> bool {
    &&& distinct_positive(s.balances@)
    &&& book_wf(snapshot_book(s), s.next_id)
}

impl Exchange {
    /// The state as plain values.
    pub fn snapshot(&self) -> (r: ExchangeSnapshot)
        requires
            self.wf(),
        ensures
            valid_snapshot(r),
            snapshot_book(r) == self.book(),
            r.next_id == self.last_id(),
    {
        let balances = self.balances.all_balances();
        let orders = self.get_all_orders();
        proof {
            self.balances.lemma_positive();
            lemma_listing_describes_ledger(balances@, self.balances@);
        }
        ExchangeSnapshot { next_id: self.next_id, balances, orders }
    }

    /// The exchange that `snap` describes, or `None` when no exchange could
    /// have produced it.
    pub fn restore(snap: &ExchangeSnapshot) -> (r: Option<Exchange>)
        ensures
            r is Some <==> valid_snapshot(*snap),
            r matches Some(e) ==> e.wf() && e.book() == snapshot_book(*snap) && e.last_id() == snap.next_id,
    {
        let mut balances = Balances::new();
        let ghost bs = snap.balances@;
        let mut i: usize = 0;
        while i < snap.balances.len()
            invariant
                bs == snap.balances@,
                i <= bs.len(),
                balances.wf(),
                distinct_positive(bs.subrange(0, i as int)),
                balances@ == ledger_of(bs.subrange(0, i as int)),
            decreases bs.len() - i,
        {
            let b = &snap.balances[i];
            let ghost pre = bs.subrange(0, i as int);
            let ghost next = bs.subrange(0, i + 1 as int);
            proof {
                lemma_ledger_of(pre);
                assert(next.drop_last() =~= pre);
                assert(next.last() == bs[i as int]);
            }
            if b.amount == 0 {
                proof {
                    assert(bs[i as int].amount == 0);
                }
                return None;
            }
            if balances.balance_of(&b.owner, &b.token) != 0 {
                proof {
                    let j = choose|j: int| 0 <= j < pre.len() && key_of(#[trigger] pre[j]) == key_of(bs[i as int]);
                    assert(pre[j] == bs[j]);
                    assert(key_of(bs[j]) == key_of(bs[i as int]));
                }
                return None;
            }
            balances.add_balance(&b.owner, &b.token, b.amount);
            proof {
                assert forall|x: int, y: int| 0 <= x < y < next.len() implies key_of(#[trigger] next[x]) != key_of(
                    #[trigger] next[y]) by {
                    if y == i {
                        assert(pre.len() == i);
                        assert(next[x] == pre[x]);
                        assert(pre[x] == bs[x]);
                        assert(ledger_of(pre).contains_key(key_of(pre[x])));
                    } else {
                        assert(next[x] == pre[x] && next[y] == pre[y]);
                    }
                }
                assert forall|x: int| 0 <= x < next.len() implies (#[trigger] next[x]).amount > 0 by {
                    if x < i {
                        assert(next[x] == pre[x]);
                    }
                }
            }
            i = i + 1;
        }
        proof {
            assert(bs.subrange(0, i as int) =~= bs);
            lemma_ledger_of(bs);
        }
        let mut ex = Exchange { next_id: snap.next_id, balances, orders: Vec::new() };
        let ghost full = snapshot_book(*snap);
        let ghost os = full.orders;
        proof {
            assert(ex.book().orders =~= os.subrange(0, 0));
        }
        let mut k: usize = 0;
        while k < snap.orders.len()
            invariant
                full == snapshot_book(*snap),
                os == full.orders,
                os.len() == snap.orders@.len(),
                k <= os.len(),
                ex.next_id == snap.next_id,
                ex.balances.wf(),
                ex.book().ledger == full.ledger,
                ex.book().orders == os.subrange(0, k as int),
                book_wf(ex.book(), ex.next_id),
            decreases os.len() - k,
        {
            let o = &snap.orders[k];
            let ghost pre = os.subrange(0, k as int);
            proof {
                assert(os[k as int] == o@);
            }
            let in_order = if k == 0 {
                o.id >= 1
            } else {
                o.id > snap.orders[k - 1].id
            };
            proof {
                if k > 0 {
                    assert(os[k - 1] == snap.orders@[k - 1]@);
                }
            }
            if !in_order || o.id > snap.next_id || o.from_amount == 0 || o.to_amount == 0 {
                return None;
            }
            if ex.check_for_sell_orders(&o.owner, &o.from) {
                proof {
                    let j = choose|j: int| 0 <= j < pre.len() && (#[trigger] pre[j]).owner == o@.owner && pre[j].from == o@.from;
                    assert(pre[j] == os[j]);
                    assert(funding_key(os[j]) == funding_key(os[k as int]));
                }
                return None;
            }
            if ex.balances.balance_of(&o.owner, &o.from) < o.from_amount as u128 {
                return None;
            }
            let ghost before = ex.book();
            ex.orders.push(o.duplicate());
            proof {
                let s2 = ex.book().orders;
                assert(s2 =~= os.subrange(0, k + 1 as int));
                assert forall|x: int, y: int| 0 <= x < y < s2.len() implies (#[trigger] s2[x]).id < (#[trigger] s2[y]).id by {
                    if y == k {
                        if x < k - 1 {
                            assert(s2[x] == before.orders[x]);
                            assert(s2[k - 1] == before.orders[k - 1]);
                            assert(before.orders[x].id < before.orders[k - 1].id);
                        }
                    } else {
                        assert(s2[x] == before.orders[x] && s2[y] == before.orders[y]);
                    }
                }
                assert forall|x: int, y: int|
                    0 <= x < s2.len() && 0 <= y < s2.len() && x != y implies funding_key(#[trigger] s2[x]) != funding_key(
                    #[trigger] s2[y]) by {
                    if x == k {
                        assert(s2[y] == before.orders[y]);
                    } else if y == k {
                        assert(s2[x] == before.orders[x]);
                    } else {
                        assert(s2[x] == before.orders[x] && s2[y] == before.orders[y]);
                    }
                }
                assert forall|x: int| 0 <= x < s2.len() implies {
                    &&& 1 <= (#[trigger] s2[x]).id <= ex.next_id
                    &&& s2[x].from_amount > 0
                    &&& s2[x].to_amount > 0
                    &&& balance_in(ex.book().ledger, funding_key(s2[x])) >= s2[x].from_amount
                } by {
                    if x < k {
                        assert(s2[x] == before.orders[x]);
                    }
                }
            }
            k = k + 1;
        }
        proof {
            assert(os.subrange(0, k as int) =~= os);
            assert(ex.book() == full);
        }
        Some(ex)
    }
}

} // verus!

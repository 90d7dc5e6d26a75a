use vstd::prelude::*;

use crate::balances::{
    all_positive, balance_in, credited, debited, lemma_credited_balance, lemma_updates_keep_positive,
    LedgerKey,
};
use crate::book::{compatible, cost, fills, lemma_cost_bounds, lemma_filter_orders, profitable, sorted_ids};
use crate::bridge::{after_deposit, after_withdrawal, TransferModel};
use crate::exchange::not_owned_by;
use crate::types::OrderModel;

verus! {

/// A ledger operation: a credit (`true`) or a debit (`false`) of an amount at a key.
pub type LedgerOp = (bool, LedgerKey, nat);

/// One operation as the ledger performs it: a debit larger than the
/// holding is refused and changes nothing.
pub open spec fn apply_op(l: Map<LedgerKey, int>, op: LedgerOp) -> Map<LedgerKey, int> {
    if op.0 {
        credited(l, op.1, op.2 as int)
    } else if balance_in(l, op.1) >= op.2 {
        debited(l, op.1, op.2 as int)
    } else {
        l
    }
}

/// The operations applied in turn.
pub open spec fn apply_ops(l: Map<LedgerKey, int>, ops: Seq<LedgerOp>) -> Map<LedgerKey, int>
    decreases ops.len(),
{
    if ops.len() == 0 {
        l
    } else {
        apply_op(apply_ops(l, ops.drop_last()), ops.last())
    }
}

/// No sequence of credits and debits makes a holding negative; every
/// recorded entry stays positive.
pub proof fn lemma_ledger_never_negative(l: Map<LedgerKey, int>, ops: Seq<LedgerOp>)
    requires
        all_positive(l),
    ensures
        all_positive(apply_ops(l, ops)),
        forall|k: LedgerKey| #[trigger] balance_in(apply_ops(l, ops), k) >= 0,
    decreases ops.len(),
{
    if ops.len() > 0 {
        lemma_ledger_never_negative(l, ops.drop_last());
        let m = apply_ops(l, ops.drop_last());
        lemma_updates_keep_positive(m, ops.last().1, ops.last().2 as int);
    }
    let r = apply_ops(l, ops);
    assert forall|k: LedgerKey| #[trigger] balance_in(r, k) >= 0 by {
        if r.contains_key(k) {
            assert(r[k] > 0);
        }
    }
}

/// A debit that succeeds, followed by a credit of the same amount at the
/// same key, gives back the ledger exactly.
pub proof fn lemma_debit_credit_round_trip(l: Map<LedgerKey, int>, k: LedgerKey, amount: int)
    requires
        all_positive(l),
        0 <= amount <= balance_in(l, k),
    ensures
        credited(debited(l, k, amount), k, amount) == l,
{
    let r = credited(debited(l, k, amount), k, amount);
    if amount == 0 {
        if l.contains_key(k) {
            assert(l[k] > 0);
            assert(r =~= l);
        } else {
            assert(r =~= l);
        }
    } else {
        assert(l.contains_key(k));
        assert(r =~= l);
    }
}

/// A withdrawal whose transfer fails gives the owner back exactly what it
/// held before: the ledger after the refund is the ledger before the debit.
pub proof fn lemma_failed_withdrawal_restores(l: Map<LedgerKey, int>, w: TransferModel)
    requires
        all_positive(l),
        0 <= w.amount <= balance_in(l, (w.owner, w.token)),
    ensures
        after_withdrawal(debited(l, (w.owner, w.token), w.amount), w, false) == l,
{
    lemma_debit_credit_round_trip(l, (w.owner, w.token), w.amount);
}

/// After the first step of a withdrawal, whatever the transfer then does,
/// the owner has no open order left and every other order is kept.
pub proof fn lemma_withdrawal_closes_orders(s: Seq<OrderModel>, owner: Seq<u8>)
    requires
        sorted_ids(s),
    ensures
        forall|i: int| 0 <= i < s.filter(not_owned_by(owner)).len() ==> (#[trigger] s.filter(not_owned_by(owner))[i]).owner != owner,
        forall|j: int| 0 <= j < s.len() && (#[trigger] s[j]).owner != owner ==> s.filter(not_owned_by(owner)).contains(s[j]),
{
    lemma_filter_orders(s, not_owned_by(owner));
}

/// Deposits answered in turn; `transferred[i]` says whether the transfer of
/// `deposits[i]` was confirmed.
pub open spec fn settle_deposits(l: Map<LedgerKey, int>, deposits: Seq<TransferModel>, transferred: Seq<bool>) -> Map<
    LedgerKey,
    int,
>
    decreases deposits.len(),
{
    if deposits.len() == 0 || transferred.len() == 0 {
        l
    } else {
        after_deposit(
            settle_deposits(l, deposits.drop_last(), transferred.drop_last()),
            deposits.last(),
            transferred.last(),
        )
    }
}

/// The sum of the confirmed deposits to `k`.
pub open spec fn confirmed_total(deposits: Seq<TransferModel>, transferred: Seq<bool>, k: LedgerKey) -> int
    decreases deposits.len(),
{
    if deposits.len() == 0 || transferred.len() == 0 {
        0
    } else {
        confirmed_total(deposits.drop_last(), transferred.drop_last(), k) + if transferred.last() && (
        deposits.last().owner, deposits.last().token) == k {
            deposits.last().amount
        } else {
            0
        }
    }
}

/// However many deposits are begun, a holding grows by exactly the sum of
/// the deposits to it whose transfers were confirmed: each confirmed
/// transfer is credited once and an unconfirmed one not at all.
pub proof fn lemma_deposits_credit_once(
    l: Map<LedgerKey, int>,
    deposits: Seq<TransferModel>,
    transferred: Seq<bool>,
    k: LedgerKey,
)
    requires
        deposits.len() == transferred.len(),
    ensures
        balance_in(settle_deposits(l, deposits, transferred), k) == balance_in(l, k) + confirmed_total(
            deposits,
            transferred,
            k,
        ),
    decreases deposits.len(),
{
    if deposits.len() > 0 {
        lemma_deposits_credit_once(l, deposits.drop_last(), transferred.drop_last(), k);
        let m = settle_deposits(l, deposits.drop_last(), transferred.drop_last());
        let d = deposits.last();
        lemma_credited_balance(m, (d.owner, d.token), d.amount, k);
    }
}

/// In a pairing that settles, each side pays at its own rate at least what
/// the other side receives, so the leftover that the exchange keeps on
/// either asset is never negative.
pub proof fn lemma_trade_leftover_nonnegative(a: OrderModel, b: OrderModel)
    requires
        a.from_amount > 0,
        a.to_amount > 0,
        b.from_amount > 0,
        b.to_amount > 0,
        compatible(a, b),
        profitable(a, b),
        fills(a, b) is Some,
    ensures
        ({
            let f = fills(a, b)->0;
            &&& cost(f.0, a) >= f.1
            &&& cost(f.1, b) >= f.0
        }),
{
    broadcast use vstd::arithmetic::div_mod::lemma_div_is_ordered;
    broadcast use vstd::arithmetic::mul::lemma_mul_is_commutative;
    let f = fills(a, b)->0;
    let a_full = b.from_amount >= a.to_amount;
    let b_full = a.from_amount >= b.to_amount;
    if a_full && b_full {
        lemma_cost_bounds(f.0, a);
        lemma_cost_bounds(f.1, b);
    } else if a_full {
        lemma_cost_bounds(f.0, a);
        vstd::arithmetic::div_mod::lemma_div_multiples_vanish(a.to_amount, b.to_amount);
        assert(b.to_amount * a.to_amount <= a.from_amount * b.from_amount);
        assert((b.to_amount * a.to_amount) / b.to_amount <= (a.from_amount * b.from_amount) / b.to_amount);
    } else {
        lemma_cost_bounds(f.1, b);
        vstd::arithmetic::div_mod::lemma_div_multiples_vanish(b.to_amount, a.to_amount);
        assert(a.to_amount * b.to_amount <= b.from_amount * a.from_amount);
        assert((a.to_amount * b.to_amount) / a.to_amount <= (b.from_amount * a.from_amount) / a.to_amount);
    }
}

} // verus!

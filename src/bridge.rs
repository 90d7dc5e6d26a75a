use vstd::prelude::*;

use crate::account::AccountId;
use crate::balances::{balance_in, credited, debited, LedgerKey};
use crate::book::Book;
use crate::exchange::{not_owned_by, Exchange};
use crate::types::{DepositErr, DepositReceipt, WithdrawErr, WithdrawReceipt};

verus! {

/// Fee that the native ledger charges for one transfer, in its smallest unit.
pub const ICP_FEE: u128 = 10_000;

/// What a native deposit moves when the caller's deposit subaccount holds
/// `available` and a transfer costs `fee`: everything above the fee,
/// provided the balance exceeds it.
pub open spec fn deposit_quote(available: int, fee: int) -> Result<int, DepositErr> {
    if available > fee {
        Ok(available - fee)
    } else {
        Err(DepositErr::BalanceLow)
    }
}

/// What a token deposit moves when the caller allowed `available` and the
/// token charges `fee`: the allowance less the fee, which may be zero.
pub open spec fn token_deposit_quote(available: int, fee: int) -> Result<int, DepositErr> {
    if available >= fee {
        Ok(available - fee)
    } else {
        Err(DepositErr::BalanceLow)
    }
}

/// A deposit whose transfer into custody has been asked for and not yet
/// answered. Confirming it consumes it, so it credits at most once.
pub struct PendingDeposit {
    owner: AccountId,
    token: AccountId,
    amount: u128,
}

/// The content of a pending deposit or withdrawal: whose, of what, how much.
pub ghost struct TransferModel {
    pub owner: Seq<u8>,
    pub token: Seq<u8>,
    pub amount: int,
}

impl View for PendingDeposit {
    type V = TransferModel;

    closed spec fn view(&self) -> TransferModel {
        TransferModel { owner: self.owner@, token: self.token@, amount: self.amount as int }
    }
}

impl PendingDeposit {
    /// The amount that the transfer is to move and the ledger to credit.
    pub fn amount(&self) -> (r: u128)
        ensures
            r as int == self@.amount,
    {
        self.amount
    }

    /// Whose holding the transfer concerns.
    pub fn owner(&self) -> (r: &AccountId)
        ensures
            r@ == self@.owner,
    {
        &self.owner
    }

    /// Which asset the transfer moves.
    pub fn token(&self) -> (r: &AccountId)
        ensures
            r@ == self@.token,
    {
        &self.token
    }
}

/// A withdrawal whose funds left the ledger and whose outgoing transfer has
/// not been answered yet. Finishing it consumes it.
pub struct PendingWithdrawal {
    owner: AccountId,
    token: AccountId,
    total: u128,
}

impl View for PendingWithdrawal {
    type V = TransferModel;

    closed spec fn view(&self) -> TransferModel {
        TransferModel { owner: self.owner@, token: self.token@, amount: self.total as int }
    }
}

impl PendingWithdrawal {
    /// The amount taken from the ledger, which the transfer is to move.
    pub fn total(&self) -> (r: u128)
        ensures
            r as int == self@.amount,
    {
        self.total
    }

    /// Whose holding the transfer concerns.
    pub fn owner(&self) -> (r: &AccountId)
        ensures
            r@ == self@.owner,
    {
        &self.owner
    }

    /// Which asset the transfer moves.
    pub fn token(&self) -> (r: &AccountId)
        ensures
            r@ == self@.token,
    {
        &self.token
    }
}

/// The ledger after a deposit's transfer was answered.
pub open spec fn after_deposit(l: Map<LedgerKey, int>, d: TransferModel, transferred: bool) -> Map<LedgerKey, int> {
    if transferred {
        credited(l, (d.owner, d.token), d.amount)
    } else {
        l
    }
}

/// The ledger after a withdrawal's transfer was answered: a failed one
/// gives the funds back.
pub open spec fn after_withdrawal(l: Map<LedgerKey, int>, w: TransferModel, transferred: bool) -> Map<LedgerKey, int> {
    if transferred {
        l
    } else {
        credited(l, (w.owner, w.token), w.amount)
    }
}

/// The amount that a token deposit moves, as `token_deposit_quote` describes it.
pub fn token_deposit_amount(available: u128, fee: u128) -> (r: Result<u128, DepositErr>)
    ensures
        match r {
            Ok(a) => token_deposit_quote(available as int, fee as int) == Ok::<int, DepositErr>(a as int),
            Err(e) => token_deposit_quote(available as int, fee as int) == Err::<int, DepositErr>(e),
        },
{
    if available >= fee {
        Ok(available - fee)
    } else {
        Err(DepositErr::BalanceLow)
    }
}

/// The amount that a native deposit moves, as `deposit_quote` describes it.
pub fn deposit_amount(available: u128, fee: u128) -> (r: Result<u128, DepositErr>)
    ensures
        match r {
            Ok(a) => deposit_quote(available as int, fee as int) == Ok::<int, DepositErr>(a as int),
            Err(e) => deposit_quote(available as int, fee as int) == Err::<int, DepositErr>(e),
        },
{
    if available > fee {
        Ok(available - fee)
    } else {
        Err(DepositErr::BalanceLow)
    }
}

impl Exchange {
    /// First step of a native deposit: `available` is the balance of the
    /// caller's deposit subaccount on the native ledger and `fee` the cost of
    /// a transfer. Changes nothing; the transfer is the caller's to make.
    pub fn begin_deposit(&self, owner: &AccountId, token: &AccountId, available: u128, fee: u128) -> (r: Result<
        PendingDeposit,
        DepositErr,
    >)
        ensures
            match r {
                Ok(d) => deposit_quote(available as int, fee as int) == Ok::<int, DepositErr>(d@.amount)
                    && d@.owner == owner@ && d@.token == token@,
                Err(e) => deposit_quote(available as int, fee as int) == Err::<int, DepositErr>(e),
            },
    {
        match deposit_amount(available, fee) {
            Ok(amount) => Ok(PendingDeposit { owner: owner.duplicate(), token: token.duplicate(), amount }),
            Err(e) => Err(e),
        }
    }

    /// First step of a token deposit: `available` is the allowance that the
    /// caller granted the exchange on the token contract and `fee` the
    /// token's transfer fee. Changes nothing; the transfer is the caller's
    /// to make.
    pub fn begin_token_deposit(&self, owner: &AccountId, token: &AccountId, available: u128, fee: u128) -> (r:
        Result<PendingDeposit, DepositErr>)
        ensures
            match r {
                Ok(d) => token_deposit_quote(available as int, fee as int) == Ok::<int, DepositErr>(d@.amount)
                    && d@.owner == owner@ && d@.token == token@,
                Err(e) => token_deposit_quote(available as int, fee as int) == Err::<int, DepositErr>(e),
            },
    {
        match token_deposit_amount(available, fee) {
            Ok(amount) => Ok(PendingDeposit { owner: owner.duplicate(), token: token.duplicate(), amount }),
            Err(e) => Err(e),
        }
    }

    /// Last step of a deposit: credits the amount only when the transfer
    /// into custody was confirmed.
    pub fn finish_deposit(&mut self, d: PendingDeposit, transferred: bool) -> (r: DepositReceipt)
        requires
            old(self).wf(),
            transferred ==> balance_in(old(self).book().ledger, (d@.owner, d@.token)) + d@.amount <= u128::MAX,
        ensures
            final(self).wf(),
            final(self).last_id() == old(self).last_id(),
            final(self).book() == (Book { ledger: after_deposit(old(self).book().ledger, d@, transferred), ..old(self).book() }),
            transferred ==> r == Ok::<u128, DepositErr>(d@.amount as u128),
            !transferred ==> r == Err::<u128, DepositErr>(DepositErr::TransferFailure),
            balance_in(final(self).book().ledger, (d@.owner, d@.token)) == balance_in(
                old(self).book().ledger,
                (d@.owner, d@.token),
            ) + if transferred {
                d@.amount
            } else {
                0
            },
            forall|k: LedgerKey|
                k != (d@.owner, d@.token) ==> #[trigger] balance_in(final(self).book().ledger, k) == balance_in(
                    old(self).book().ledger,
                    k,
                ),
    {
        proof {
            assert forall|k: LedgerKey| #[trigger] balance_in(after_deposit(old(self).book().ledger, d@, transferred), k)
                == balance_in(old(self).book().ledger, k) + if transferred && k == (d@.owner, d@.token) {
                d@.amount
            } else {
                0
            } by {
                crate::balances::lemma_credited_balance(old(self).book().ledger, (d@.owner, d@.token), d@.amount, k);
            }
        }
        if transferred {
            self.credit(&d.owner, &d.token, d.amount);
            Ok(d.amount)
        } else {
            Err(DepositErr::TransferFailure)
        }
    }

    /// First step of a withdrawal of `amount` of `token`, whose transfer
    /// costs `fee`: closes every open order of `owner`, then takes
    /// `amount + fee` from its holding, or reports `BalanceLow`.
    pub fn begin_withdraw(&mut self, owner: &AccountId, token: &AccountId, amount: u128, fee: u128) -> (r: Result<
        PendingWithdrawal,
        WithdrawErr,
    >)
        requires
            old(self).wf(),
        ensures
            final(self).wf(),
            final(self).last_id() == old(self).last_id(),
            final(self).book().orders == old(self).book().orders.filter(not_owned_by(owner@)),
            match r {
                Ok(w) => {
                    &&& amount + fee <= balance_in(old(self).book().ledger, (owner@, token@))
                    &&& w@ == (TransferModel { owner: owner@, token: token@, amount: amount + fee })
                    &&& final(self).book().ledger == debited(old(self).book().ledger, (owner@, token@), amount + fee)
                },
                Err(e) => {
                    &&& e == WithdrawErr::BalanceLow
                    &&& amount + fee > balance_in(old(self).book().ledger, (owner@, token@))
                    &&& final(self).book().ledger == old(self).book().ledger
                },
            },
    {
        let ghost s0 = self.book().orders;
        self.remove_orders_of(owner);
        proof {
            assert forall|i: int| 0 <= i < self.book().orders.len() implies (#[trigger] self.book().orders[i]).owner
                != owner@ by {
                s0.lemma_filter_pred(not_owned_by(owner@), i);
            }
        }
        proof {
            // every holding fits in 128 bits, so a total beyond that range exceeds it
            self.lemma_wf();
        }
        if amount > u128::MAX - fee {
            return Err(WithdrawErr::BalanceLow);
        }
        let total = amount + fee;
        if !self.debit_unreserved(owner, token, total) {
            return Err(WithdrawErr::BalanceLow);
        }
        Ok(PendingWithdrawal { owner: owner.duplicate(), token: token.duplicate(), total })
    }

    /// Last step of a withdrawal: when the transfer failed, gives the funds
    /// back and reports `TransferFailure`; otherwise reports the amount moved.
    pub fn finish_withdraw(&mut self, w: PendingWithdrawal, transferred: bool) -> (r: WithdrawReceipt)
        requires
            old(self).wf(),
            !transferred ==> balance_in(old(self).book().ledger, (w@.owner, w@.token)) + w@.amount <= u128::MAX,
        ensures
            final(self).wf(),
            final(self).last_id() == old(self).last_id(),
            final(self).book() == (Book {
                ledger: after_withdrawal(old(self).book().ledger, w@, transferred),
                ..old(self).book()
            }),
            transferred ==> r == Ok::<u128, WithdrawErr>(w@.amount as u128),
            !transferred ==> r == Err::<u128, WithdrawErr>(WithdrawErr::TransferFailure),
    {
        if transferred {
            Ok(w.total)
        } else {
            self.credit(&w.owner, &w.token, w.total);
            Err(WithdrawErr::TransferFailure)
        }
    }
}

} // verus!

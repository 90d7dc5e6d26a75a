use vstd::prelude::*;

use crate::account::AccountId;

verus! {

/// Identifier of an order; the first one handed out is 1.
pub type OrderId = u32;

/// A resting order: `owner` offers `from_amount` of `from` for `to_amount`
/// of `to`. Both amounts are what remains after earlier partial fills.
#[derive(Clone, Debug)]
pub struct Order {
    pub id: OrderId,
    pub owner: AccountId,
    pub from: AccountId,
    pub from_amount: u64,
    pub to: AccountId,
    pub to_amount: u64,
}

/// The mathematical content of an order.
pub ghost struct OrderModel {
    pub id: OrderId,
    pub owner: Seq<u8>,
    pub from: Seq<u8>,
    pub from_amount: int,
    pub to: Seq<u8>,
    pub to_amount: int,
}

impl View for Order {
    type V = OrderModel;

    open spec fn view(&self) -> OrderModel {
        OrderModel {
            id: self.id,
            owner: self.owner@,
            from: self.from@,
            from_amount: self.from_amount as int,
            to: self.to@,
            to_amount: self.to_amount as int,
        }
    }
}

impl Order {
    /// A copy with the same content.
    pub fn duplicate(&self) -> (r: Order)
        ensures
            r@ == self@,
    {
        Order {
            id: self.id,
            owner: self.owner.duplicate(),
            from: self.from.duplicate(),
            from_amount: self.from_amount,
            to: self.to.duplicate(),
            to_amount: self.to_amount,
        }
    }
}

/// Why a cancellation was refused.
#[derive(Clone, Copy, Debug, PartialEq, Eq, Structural)]
pub enum CancelOrderErr {
    NotAllowed,
    NotExistingOrder,
}

/// Why a deposit was refused.
#[derive(Clone, Copy, Debug, PartialEq, Eq, Structural)]
pub enum DepositErr {
    BalanceLow,
    TransferFailure,
}

/// Why an order was refused.
#[derive(Clone, Copy, Debug, PartialEq, Eq, Structural)]
pub enum OrderPlacementErr {
    InvalidOrder,
    OrderBookFull,
}

/// Why a withdrawal was refused.
#[derive(Clone, Copy, Debug, PartialEq, Eq, Structural)]
pub enum WithdrawErr {
    BalanceLow,
    TransferFailure,
}

/// Errors that a fungible-token contract reports for a transfer.
#[derive(Clone, Copy, Debug, PartialEq, Eq, Structural)]
pub enum TxError {
    InsufficientBalance,
    InsufficientAllowance,
    Unauthorized,
    LedgerTrap,
    AmountTooSmall,
    BlockUsed,
    ErrorOperationStyle,
    ErrorTo,
    Other,
}

pub type CancelOrderReceipt = Result<OrderId, CancelOrderErr>;

pub type DepositReceipt = Result<u128, DepositErr>;

pub type OrderPlacementReceipt = Result<Option<Order>, OrderPlacementErr>;

pub type WithdrawReceipt = Result<u128, WithdrawErr>;

pub type TxReceipt = Result<u128, TxError>;

} // verus!

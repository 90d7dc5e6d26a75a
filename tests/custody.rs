use defi_dapp::account::AccountId;
use defi_dapp::balances::Balances;
use defi_dapp::bridge::{deposit_amount, token_deposit_amount, ICP_FEE};
use defi_dapp::exchange::Exchange;
use defi_dapp::types::{DepositErr, WithdrawErr};

fn id(b: u8) -> AccountId {
    AccountId::new(vec![b])
}

#[test]
fn ledger_credit_and_debit() {
    let (alice, x) = (id(1), id(10));
    let mut b = Balances::new();
    assert_eq!(b.balance_of(&alice, &x), 0);
    b.add_balance(&alice, &x, 30);
    b.add_balance(&alice, &x, 12);
    assert_eq!(b.balance_of(&alice, &x), 42);
    assert!(!b.subtract_balance(&alice, &x, 43));
    assert_eq!(b.balance_of(&alice, &x), 42);
    assert!(b.subtract_balance(&alice, &x, 2));
    assert_eq!(b.balance_of(&alice, &x), 40);
    assert!(b.subtract_balance(&alice, &x, 40));
    assert_eq!(b.balance_of(&alice, &x), 0);
    assert!(b.all_balances().is_empty());
    assert!(b.subtract_balance(&alice, &x, 0));
    assert!(!b.subtract_balance(&alice, &x, 1));
}

#[test]
fn ledger_debit_then_credit_round_trip() {
    let (alice, x, y) = (id(1), id(10), id(20));
    let mut b = Balances::new();
    b.add_balance(&alice, &x, 500);
    b.add_balance(&alice, &y, 7);
    assert!(b.subtract_balance(&alice, &x, 500));
    b.add_balance(&alice, &x, 500);
    assert_eq!(b.balance_of(&alice, &x), 500);
    assert_eq!(b.all_balances_of(&alice).len(), 2);
    assert_eq!(b.all_balances_of(&id(2)).len(), 0);
}

#[test]
fn deposit_amount_needs_more_than_the_fee() {
    assert_eq!(deposit_amount(10_500, ICP_FEE), Ok(500));
    assert_eq!(deposit_amount(ICP_FEE, ICP_FEE), Err(DepositErr::BalanceLow));
    assert_eq!(deposit_amount(3, 5), Err(DepositErr::BalanceLow));
}

#[test]
fn deposit_credits_only_when_confirmed() {
    let (alice, x) = (id(1), id(10));
    let mut ex = Exchange::new();
    let d1 = ex.begin_deposit(&alice, &x, 1_000, 10).unwrap();
    let d2 = ex.begin_deposit(&alice, &x, 1_000, 10).unwrap();
    assert_eq!(d1.amount(), 990);
    assert_eq!(ex.get_balance(&alice, &x), 0);
    assert_eq!(ex.finish_deposit(d1, true), Ok(990));
    assert_eq!(ex.finish_deposit(d2, false), Err(DepositErr::TransferFailure));
    assert_eq!(ex.get_balance(&alice, &x), 990);
    assert_eq!(ex.begin_deposit(&alice, &x, 10, 10).err(), Some(DepositErr::BalanceLow));
}

#[test]
fn failed_withdrawal_restores_balance() {
    let (alice, x, y) = (id(1), id(10), id(20));
    let mut ex = Exchange::new();
    ex.credit(&alice, &x, 1_000);
    let w = ex.begin_withdraw(&alice, &x, 500, 10).unwrap();
    assert_eq!(w.total(), 510);
    assert_eq!(ex.get_balance(&alice, &x), 490);
    assert_eq!(ex.finish_withdraw(w, false), Err(WithdrawErr::TransferFailure));
    assert_eq!(ex.get_balance(&alice, &x), 1_000);
    let w = ex.begin_withdraw(&alice, &x, 500, 10).unwrap();
    assert_eq!(ex.finish_withdraw(w, true), Ok(510));
    assert_eq!(ex.get_balance(&alice, &x), 490);
    assert_eq!(ex.begin_withdraw(&alice, &y, 1, 0).err(), Some(WithdrawErr::BalanceLow));
    assert_eq!(ex.begin_withdraw(&alice, &x, 490, 1).err(), Some(WithdrawErr::BalanceLow));
    assert_eq!(ex.get_balance(&alice, &x), 490);
}

#[test]
fn withdrawal_closes_the_callers_orders_even_when_it_fails() {
    let (alice, bob, x, y, z) = (id(1), id(2), id(10), id(20), id(30));
    let mut ex = Exchange::new();
    ex.credit(&alice, &x, 100);
    ex.credit(&alice, &z, 100);
    ex.credit(&bob, &z, 100);
    ex.place_order(&alice, &x, 10, &y, 10, &AccountId::new(vec![99])).unwrap();
    ex.place_order(&alice, &z, 10, &y, 10, &AccountId::new(vec![99])).unwrap();
    ex.place_order(&bob, &z, 10, &y, 10, &AccountId::new(vec![99])).unwrap();
    let w = ex.begin_withdraw(&alice, &x, 50, 0).unwrap();
    let left: Vec<u32> = ex.get_all_orders().iter().map(|o| o.id).collect();
    assert_eq!(left, vec![3]);
    ex.finish_withdraw(w, false).unwrap_err();
    assert_eq!(ex.get_all_orders().len(), 1);
    assert_eq!(ex.begin_withdraw(&bob, &x, 1, 0).err(), Some(WithdrawErr::BalanceLow));
    assert!(ex.get_all_orders().is_empty());
}

#[test]
fn token_deposit_pulls_allowance_less_fee() {
    assert_eq!(token_deposit_amount(1_000, 10), Ok(990));
    assert_eq!(token_deposit_amount(10, 10), Ok(0));
    assert_eq!(token_deposit_amount(9, 10), Err(DepositErr::BalanceLow));
    let (alice, t) = (id(1), id(30));
    let mut ex = Exchange::new();
    let d = ex.begin_token_deposit(&alice, &t, 10, 10).unwrap();
    assert_eq!(d.amount(), 0);
    assert_eq!(ex.finish_deposit(d, true), Ok(0));
    assert_eq!(ex.get_balance(&alice, &t), 0);
    assert!(ex.get_all_balances().is_empty());
    let d = ex.begin_token_deposit(&alice, &t, 250, 50).unwrap();
    assert_eq!(ex.finish_deposit(d, true), Ok(200));
    assert_eq!(ex.get_balance(&alice, &t), 200);
    assert_eq!(ex.begin_token_deposit(&alice, &t, 49, 50).err(), Some(DepositErr::BalanceLow));
}

use defi_dapp::account::AccountId;
use defi_dapp::exchange::Exchange;
use defi_dapp::types::{CancelOrderErr, OrderPlacementErr};

fn id(b: u8) -> AccountId {
    AccountId::new(vec![b])
}

fn dex() -> AccountId {
    AccountId::new(vec![0xde, 0x0e])
}

#[test]
fn matching_orders_settle_and_spread_goes_to_exchange() {
    let (alice, bob, x, y) = (id(1), id(2), id(10), id(20));
    let mut ex = Exchange::new();
    ex.credit(&alice, &x, 100);
    ex.credit(&bob, &y, 60);
    let a = ex.place_order(&alice, &x, 100, &y, 50, &dex()).unwrap().unwrap();
    assert_eq!(a.id, 1);
    let b = ex.place_order(&bob, &y, 60, &x, 100, &dex()).unwrap();
    assert!(b.is_none());
    assert_eq!(ex.get_balance(&alice, &x), 0);
    assert_eq!(ex.get_balance(&alice, &y), 50);
    assert_eq!(ex.get_balance(&bob, &y), 0);
    assert_eq!(ex.get_balance(&bob, &x), 100);
    assert_eq!(ex.get_balance(&dex(), &y), 10);
    assert_eq!(ex.get_balance(&dex(), &x), 0);
    assert!(ex.get_all_orders().is_empty());
}

#[test]
fn partial_fill_keeps_the_rest_of_the_resting_order() {
    let (alice, bob, x, y) = (id(1), id(2), id(10), id(20));
    let mut ex = Exchange::new();
    ex.credit(&alice, &x, 100);
    ex.credit(&bob, &y, 20);
    ex.place_order(&alice, &x, 100, &y, 50, &dex()).unwrap();
    let b = ex.place_order(&bob, &y, 20, &x, 40, &dex()).unwrap();
    assert!(b.is_none());
    let rest = ex.get_order(1).unwrap();
    assert_eq!(rest.from_amount, 60);
    assert_eq!(rest.to_amount, 30);
    assert_eq!(ex.get_balance(&alice, &x), 60);
    assert_eq!(ex.get_balance(&alice, &y), 20);
    assert_eq!(ex.get_balance(&bob, &x), 40);
    assert_eq!(ex.get_balance(&bob, &y), 0);
    assert_eq!(ex.get_all_balances().len(), 3);
}

#[test]
fn partial_fill_without_whole_ratio_is_skipped() {
    let (alice, bob, x, y) = (id(1), id(2), id(10), id(20));
    let mut ex = Exchange::new();
    ex.credit(&alice, &x, 7);
    ex.credit(&bob, &y, 2);
    ex.place_order(&alice, &x, 7, &y, 3, &dex()).unwrap();
    let b = ex.place_order(&bob, &y, 2, &x, 4, &dex()).unwrap().unwrap();
    assert_eq!(b.id, 2);
    assert_eq!(b.from_amount, 2);
    assert_eq!(ex.get_all_orders().len(), 2);
    assert_eq!(ex.get_balance(&alice, &x), 7);
    assert_eq!(ex.get_balance(&bob, &y), 2);
}

#[test]
fn unprofitable_orders_do_not_match() {
    let (alice, bob, x, y) = (id(1), id(2), id(10), id(20));
    let mut ex = Exchange::new();
    ex.credit(&alice, &x, 100);
    ex.credit(&bob, &y, 50);
    ex.place_order(&alice, &x, 100, &y, 50, &dex()).unwrap();
    let b = ex.place_order(&bob, &y, 50, &x, 90 + 20, &dex()).unwrap();
    assert!(b.is_some());
    assert_eq!(ex.get_all_orders().len(), 2);
}

#[test]
fn zero_amounts_are_invalid_and_change_nothing() {
    let (alice, x, y) = (id(1), id(10), id(20));
    let mut ex = Exchange::new();
    ex.credit(&alice, &x, 100);
    assert_eq!(ex.place_order(&alice, &x, 0, &y, 5, &dex()).unwrap_err(), OrderPlacementErr::InvalidOrder);
    assert_eq!(ex.place_order(&alice, &x, 5, &y, 0, &dex()).unwrap_err(), OrderPlacementErr::InvalidOrder);
    assert!(ex.get_all_orders().is_empty());
    assert_eq!(ex.get_balance(&alice, &x), 100);
    let o = ex.place_order(&alice, &x, 5, &y, 5, &dex()).unwrap().unwrap();
    assert_eq!(o.id, 1);
}

#[test]
fn second_sell_order_and_uncovered_order_are_invalid() {
    let (alice, x, y, z) = (id(1), id(10), id(20), id(30));
    let mut ex = Exchange::new();
    ex.credit(&alice, &x, 100);
    ex.place_order(&alice, &x, 10, &y, 10, &dex()).unwrap();
    assert_eq!(ex.place_order(&alice, &x, 10, &z, 10, &dex()).unwrap_err(), OrderPlacementErr::InvalidOrder);
    assert_eq!(ex.place_order(&alice, &y, 1, &x, 1, &dex()).unwrap_err(), OrderPlacementErr::InvalidOrder);
    assert_eq!(ex.get_all_orders().len(), 1);
}

#[test]
fn cancel_checks_owner_and_existence() {
    let (alice, bob, x, y) = (id(1), id(2), id(10), id(20));
    let mut ex = Exchange::new();
    ex.credit(&alice, &x, 100);
    ex.place_order(&alice, &x, 10, &y, 10, &dex()).unwrap();
    assert_eq!(ex.cancel_order(&bob, 1), Err(CancelOrderErr::NotAllowed));
    assert_eq!(ex.cancel_order(&alice, 7), Err(CancelOrderErr::NotExistingOrder));
    assert!(ex.get_order(1).is_some());
    assert_eq!(ex.get_balance(&alice, &x), 100);
    assert_eq!(ex.cancel_order(&alice, 1), Ok(1));
    assert!(ex.get_order(1).is_none());
    assert_eq!(ex.get_balance(&alice, &x), 100);
    assert_eq!(ex.cancel_order(&alice, 1), Err(CancelOrderErr::NotExistingOrder));
}

#[test]
fn order_ids_increase_and_orders_list_in_id_order() {
    let (alice, bob, x, y, z) = (id(1), id(2), id(10), id(20), id(30));
    let mut ex = Exchange::new();
    ex.credit(&alice, &x, 100);
    ex.credit(&bob, &z, 100);
    ex.place_order(&alice, &x, 10, &y, 10, &dex()).unwrap();
    ex.place_order(&bob, &z, 10, &y, 10, &dex()).unwrap();
    let ids: Vec<u32> = ex.get_all_orders().iter().map(|o| o.id).collect();
    assert_eq!(ids, vec![1, 2]);
    assert!(ex.check_for_sell_orders(&alice, &x));
    assert!(!ex.check_for_sell_orders(&alice, &z));
}

#[test]
fn clear_drops_everything() {
    let (alice, x, y) = (id(1), id(10), id(20));
    let mut ex = Exchange::new();
    ex.credit(&alice, &x, 100);
    ex.place_order(&alice, &x, 10, &y, 10, &dex()).unwrap();
    ex.clear();
    assert!(ex.get_all_orders().is_empty());
    assert!(ex.get_all_balances().is_empty());
}

#[test]
fn snapshot_restores_the_same_exchange() {
    let (alice, bob, x, y) = (id(1), id(2), id(10), id(20));
    let mut ex = Exchange::new();
    ex.credit(&alice, &x, 100);
    ex.credit(&bob, &y, 20);
    ex.place_order(&alice, &x, 100, &y, 50, &dex()).unwrap();
    ex.place_order(&bob, &y, 20, &x, 40, &dex()).unwrap();
    let snap = ex.snapshot();
    assert_eq!(snap.next_id, 2);
    let back = Exchange::restore(&snap).unwrap();
    assert_eq!(back.get_balance(&alice, &x), 60);
    assert_eq!(back.get_balance(&bob, &x), 40);
    assert_eq!(back.get_all_balances().len(), 3);
    let o = back.get_order(1).unwrap();
    assert_eq!((o.from_amount, o.to_amount), (60, 30));
    assert_eq!(back.get_all_orders().len(), 1);
}

#[test]
fn restore_refuses_inconsistent_snapshots() {
    let (alice, x, y) = (id(1), id(10), id(20));
    let mut ex = Exchange::new();
    ex.credit(&alice, &x, 100);
    ex.place_order(&alice, &x, 10, &y, 10, &dex()).unwrap();
    let good = ex.snapshot();
    let mut dup = good.clone();
    dup.balances.push(dup.balances[0].clone());
    assert!(Exchange::restore(&dup).is_none());
    let mut uncovered = good.clone();
    uncovered.orders[0].from_amount = 101;
    assert!(Exchange::restore(&uncovered).is_none());
    let mut stale = good.clone();
    stale.next_id = 0;
    assert!(Exchange::restore(&stale).is_none());
    assert!(Exchange::restore(&good).is_some());
}

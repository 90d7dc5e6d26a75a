use defi_dapp::account::{get_deposit_address, principal_to_subaccount, AccountId};
use defi_dapp::nft::{name, supported_interfaces, symbol, total_supply, ConstrainedError, InterfaceId, NftState};
use defi_dapp::rates::{add_job_to_job_set, JobSet};

#[test]
fn subaccount_layout() {
    let p = AccountId::new(vec![7, 8, 9]);
    let s = principal_to_subaccount(&p);
    assert_eq!(s.len(), 32);
    assert_eq!(&s[..4], &[3, 7, 8, 9]);
    assert!(s[4..].iter().all(|b| *b == 0));
}

#[test]
fn deposit_address_is_the_ledger_account_identifier() {
    let dex = AccountId::new(vec![0, 0, 0, 0, 0, 0, 0, 1, 1, 1]);
    let caller = AccountId::new(vec![7, 8, 9]);
    let addr = get_deposit_address(&dex, &caller);
    let sub = principal_to_subaccount(&caller);
    let mut sub_arr = [0u8; 32];
    sub_arr.copy_from_slice(&sub);
    let expected = ic_ledger_types::AccountIdentifier::new(
        &candid::Principal::from_slice(&dex.bytes),
        &ic_ledger_types::Subaccount(sub_arr),
    );
    assert_eq!(addr.as_slice(), expected.as_ref());
    assert_ne!(addr, sub);
}

#[test]
fn collection_queries() {
    let keeper = AccountId::new(vec![1]);
    let mut st = NftState::new("Cards".to_string(), "CRD".to_string(), vec![keeper.clone()], None);
    assert_eq!(name(&st), "Cards");
    assert_eq!(symbol(&st), "CRD");
    assert_eq!(total_supply(&st), 0);
    let m = st.mint(&keeper, AccountId::new(vec![2]), vec![], vec![1, 2]).unwrap();
    assert_eq!(m.token_id, 0);
    assert_eq!(m.id, 0);
    let m = st.mint(&keeper, AccountId::new(vec![3]), vec![], vec![]).unwrap();
    assert_eq!((m.token_id, m.id), (1, 1));
    assert_eq!(total_supply(&st), 2);
    assert_eq!(st.mint(&AccountId::new(vec![2]), keeper.clone(), vec![], vec![]), Err(ConstrainedError::Unauthorized));
    assert_eq!(total_supply(&st), 2);
}

#[test]
fn interfaces_offered() {
    assert_eq!(supported_interfaces(), vec![InterfaceId::TransferNotification, InterfaceId::Burn, InterfaceId::Mint]);
}

#[test]
fn jobs_are_normalized_to_their_window() {
    let mut set = JobSet::new();
    add_job_to_job_set(&mut set, 1652454180);
    add_job_to_job_set(&mut set, 1652448000);
    assert_eq!(set.len(), 1);
    assert!(set.contains(1652448000));
    add_job_to_job_set(&mut set, 1652460000);
    assert_eq!(set.len(), 2);
    assert!(set.contains(1652460000));
}

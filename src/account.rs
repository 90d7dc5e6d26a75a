use vstd::prelude::*;

verus! {

/// Longest identity that the host assigns, in bytes.
pub const MAX_ACCOUNT_LEN: usize = 29;

/// Length of a ledger subaccount, in bytes.
pub const SUBACCOUNT_LEN: usize = 32;

/// An opaque account or asset identity, held as the bytes that the host
/// assigned to it. Two identities are the same when their bytes are.
#[derive(Clone, Debug, PartialEq, Eq, Hash)]
pub struct AccountId {
    pub bytes: Vec<u8>,
}

impl View for AccountId {
    type V = Seq<u8>;

    open spec fn view(&self) -> Seq<u8> {
        self.bytes@
    }
}

impl AccountId {
    /// An identity with the given bytes.
    pub fn new(bytes: Vec<u8>) -> (r: AccountId)
        ensures
            r@ == bytes@,
    {
        AccountId { bytes }
    }

    /// Whether the identity fits the host's length limit.
    pub open spec fn valid(&self) -> bool {
        self@.len() <= MAX_ACCOUNT_LEN
    }

    /// Whether two identities hold the same bytes.
    pub fn same(&self, other: &AccountId) -> (r: bool)
        ensures
            r == (self@ == other@),
    {
        let n = self.bytes.len();
        if n != other.bytes.len() {
            return false;
        }
        let mut i: usize = 0;
        while i < n
            invariant
                n == self@.len(),
                n == other@.len(),
                i <= n,
                forall|j: int| 0 <= j < i ==> self@[j] == other@[j],
            decreases n - i,
        {
            if self.bytes[i] != other.bytes[i] {
                return false;
            }
            i = i + 1;
        }
        proof {
            assert(self@ =~= other@);
        }
        true
    }

    /// A copy holding the same bytes.
    pub fn duplicate(&self) -> (r: AccountId)
        ensures
            r@ == self@,
    {
        let mut bytes: Vec<u8> = Vec::new();
        let mut i: usize = 0;
        while i < self.bytes.len()
            invariant
                i <= self@.len(),
                bytes@ == self@.subrange(0, i as int),
            decreases self@.len() - i,
        {
            bytes.push(self.bytes[i]);
            i = i + 1;
            proof {
                assert(bytes@ =~= self@.subrange(0, i as int));
            }
        }
        proof {
            assert(bytes@ =~= self@);
        }
        AccountId { bytes }
    }
}

/// The subaccount that holds what an identity deposits: its length, its
/// bytes, then zeros up to the subaccount length.
pub open spec fn subaccount_of(p: Seq<u8>) -> Seq<u8> {
    seq![p.len() as u8] + p + Seq::new((SUBACCOUNT_LEN - 1 - p.len()) as nat, |i: int| 0u8)
}

/// The deposit subaccount of an identity, as `subaccount_of` describes it.
pub fn principal_to_subaccount(principal_id: &AccountId) -> (r: Vec<u8>)
    requires
        principal_id.valid(),
    ensures
        r@ == subaccount_of(principal_id@),
        r@.len() == SUBACCOUNT_LEN,
{
    let n = principal_id.bytes.len();
    let mut r: Vec<u8> = Vec::new();
    r.push(n as u8);
    let mut i: usize = 0;
    while i < n
        invariant
            n == principal_id@.len(),
            n <= MAX_ACCOUNT_LEN,
            i <= n,
            r@ == seq![n as u8] + principal_id@.subrange(0, i as int),
        decreases n - i,
    {
        r.push(principal_id.bytes[i]);
        i = i + 1;
        proof {
            assert(r@ =~= seq![n as u8] + principal_id@.subrange(0, i as int));
        }
    }
    let mut k: usize = 0;
    while k < SUBACCOUNT_LEN - 1 - n
        invariant
            n == principal_id@.len(),
            n <= MAX_ACCOUNT_LEN,
            k <= SUBACCOUNT_LEN - 1 - n,
            r@ == seq![n as u8] + principal_id@ + Seq::new(k as nat, |j: int| 0u8),
        decreases SUBACCOUNT_LEN - 1 - n - k,
    {
        r.push(0u8);
        k = k + 1;
        proof {
            assert(r@ =~= seq![n as u8] + principal_id@ + Seq::new(k as nat, |j: int| 0u8));
        }
    }
    proof {
        assert(principal_id@.subrange(0, n as int) =~= principal_id@);
    }
    r
}

/// What the ledger service computes as the account identifier of an owner
/// and one of its subaccounts (a checksum followed by a digest).
pub uninterp spec fn account_identifier_of(owner: Seq<u8>, subaccount: Seq<u8>) -> Seq<u8>;

/// Relies on ic_ledger_types::AccountIdentifier::new, which hashes the
/// owner's bytes and the subaccount into 32 bytes, and on
/// candid::Principal::from_slice, which panics above 29 bytes.
#[verifier::external_body]
fn account_identifier(owner: &AccountId, subaccount: &Vec<u8>) -> (r: Vec<u8>)
    requires
        owner.valid(),
        subaccount@.len() == SUBACCOUNT_LEN,
    ensures
        r@ == account_identifier_of(owner@, subaccount@),
        r@.len() == 32,
{
    let principal = candid::Principal::from_slice(owner.bytes.as_slice());
    let mut sub = [0u8; 32];
    sub.copy_from_slice(subaccount.as_slice());
    let id = ic_ledger_types::AccountIdentifier::new(&principal, &ic_ledger_types::Subaccount(sub));
    id.as_ref().to_vec()
}

/// The ledger account into which `caller` sends native funds before a
/// deposit: the exchange's own account, under the caller's subaccount.
pub fn get_deposit_address(exchange: &AccountId, caller: &AccountId) -> (r: Vec<u8>)
    requires
        exchange.valid(),
        caller.valid(),
    ensures
        r@ == account_identifier_of(exchange@, subaccount_of(caller@)),
{
    let sub = principal_to_subaccount(caller);
    account_identifier(exchange, &sub)
}

} // verus!

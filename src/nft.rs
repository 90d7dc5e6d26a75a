use vstd::prelude::*;

use crate::account::AccountId;

verus! {

/// A collection's logo: its media type and its encoded data.
#[derive(Clone, Debug)]
pub struct LogoResult {
    pub logo_type: String,
    pub data: String,
}

/// One value of a token's metadata.
#[derive(Clone, Debug)]
pub enum MetadataVal {
    TextContent(String),
    BlobContent(Vec<u8>),
    NatContent(u128),
    Nat8Content(u8),
    Nat16Content(u16),
    Nat32Content(u32),
    Nat64Content(u64),
}

/// What a metadata part is for.
#[derive(Clone, Copy, Debug, PartialEq, Eq, Structural)]
pub enum MetadataPurpose {
    Preview,
    Rendered,
}

/// One part of a token's metadata: its purpose, named values and raw data.
#[derive(Clone, Debug)]
pub struct MetadataPart {
    pub purpose: MetadataPurpose,
    pub key_val_data: Vec<(String, MetadataVal)>,
    pub data: Vec<u8>,
}

/// A token's metadata, with the token's id.
#[derive(Clone, Debug)]
pub struct ExtendedMetadataResult {
    pub metadata_desc: Vec<MetadataPart>,
    pub token_id: u64,
}

/// What a mint reports: the new token's id and the transaction id.
#[derive(Clone, Copy, Debug, PartialEq, Eq, Structural)]
pub struct MintResult {
    pub token_id: u64,
    pub id: u128,
}

/// The optional interfaces that a collection may offer.
#[derive(Clone, Copy, Debug, PartialEq, Eq, Structural)]
pub enum InterfaceId {
    Approval,
    TransactionHistory,
    Mint,
    Burn,
    TransferNotification,
}

/// Why a collection operation was refused.
#[derive(Clone, Copy, Debug, PartialEq, Eq, Structural)]
pub enum Error {
    Unauthorized,
    InvalidTokenId,
    ZeroAddress,
    Other,
}

/// Why a restricted operation was refused.
#[derive(Clone, Copy, Debug, PartialEq, Eq, Structural)]
pub enum ConstrainedError {
    Unauthorized,
}

/// A plain HTTP request as the host hands it over.
#[derive(Clone, Debug)]
pub struct HttpRequest {
    pub method: String,
    pub url: String,
    pub headers: Vec<(String, String)>,
    pub body: Vec<u8>,
}

/// A plain HTTP response.
#[derive(Clone, Debug)]
pub struct HttpResponse {
    pub status_code: u16,
    pub headers: Vec<(String, String)>,
    pub body: Vec<u8>,
}

/// One token of the collection; its id is its position.
#[derive(Clone, Debug)]
pub struct Nft {
    pub owner: AccountId,
    pub approved: Option<AccountId>,
    pub id: u64,
    pub metadata: Vec<MetadataPart>,
    pub content: Vec<u8>,
}

/// The collection: its tokens, custodians, name, symbol and the next
/// transaction id.
pub struct NftState {
    pub nfts: Vec<Nft>,
    pub custodians: Vec<AccountId>,
    pub logo: Option<LogoResult>,
    pub name: String,
    pub symbol: String,
    pub txid: u128,
}

impl NftState {
    /// An empty collection with the given name and symbol, kept by `custodians`.
    pub fn new(name: String, symbol: String, custodians: Vec<AccountId>, logo: Option<LogoResult>) -> (r: NftState)
        ensures
            r.nfts@.len() == 0,
            r.name@ == name@,
            r.symbol@ == symbol@,
            r.custodians@ == custodians@,
            r.txid == 0,
    {
        NftState { nfts: Vec::new(), custodians, logo, name, symbol, txid: 0 }
    }

    /// Hands out the current transaction id and moves to the next one.
    pub fn next_txid(&mut self) -> (r: u128)
        requires
            old(self).txid < u128::MAX,
        ensures
            r == old(self).txid,
            final(self).txid == old(self).txid + 1,
            final(self).nfts@ == old(self).nfts@,
            final(self).custodians@ == old(self).custodians@,
            final(self).name@ == old(self).name@,
            final(self).symbol@ == old(self).symbol@,
    {
        let txid = self.txid;
        self.txid = self.txid + 1;
        txid
    }

    /// Whether `p` is one of the custodians.
    pub fn is_custodian(&self, p: &AccountId) -> (r: bool)
        ensures
            r == exists|i: int| 0 <= i < self.custodians@.len() && (#[trigger] self.custodians@[i])@ == p@,
    {
        let mut i: usize = 0;
        while i < self.custodians.len()
            invariant
                i <= self.custodians@.len(),
                forall|j: int| 0 <= j < i ==> (#[trigger] self.custodians@[j])@ != p@,
            decreases self.custodians@.len() - i,
        {
            if self.custodians[i].same(p) {
                return true;
            }
            i = i + 1;
        }
        false
    }

    /// Mints a token for `to` on behalf of `caller`, who must be a custodian.
    /// The new token's id is the number of tokens before it.
    pub fn mint(&mut self, caller: &AccountId, to: AccountId, metadata: Vec<MetadataPart>, content: Vec<u8>) -> (r:
        Result<MintResult, ConstrainedError>)
        requires
            old(self).txid < u128::MAX,
            old(self).nfts@.len() < u64::MAX,
        ensures
            final(self).custodians@ == old(self).custodians@,
            final(self).name@ == old(self).name@,
            final(self).symbol@ == old(self).symbol@,
            match r {
                Ok(m) => {
                    &&& exists|i: int| 0 <= i < old(self).custodians@.len() && (#[trigger] old(self).custodians@[i])@ == caller@
                    &&& m == MintResult { token_id: old(self).nfts@.len() as u64, id: old(self).txid }
                    &&& final(self).nfts@.len() == old(self).nfts@.len() + 1
                    &&& final(self).nfts@.subrange(0, old(self).nfts@.len() as int) == old(self).nfts@
                    &&& final(self).nfts@.last().owner@ == to@
                    &&& final(self).nfts@.last().id == old(self).nfts@.len()
                    &&& final(self).nfts@.last().approved is None
                    &&& final(self).txid == old(self).txid + 1
                },
                Err(e) => {
                    &&& e == ConstrainedError::Unauthorized
                    &&& !exists|i: int| 0 <= i < old(self).custodians@.len() && (#[trigger] old(self).custodians@[i])@ == caller@
                    &&& final(self).nfts@ == old(self).nfts@
                    &&& final(self).txid == old(self).txid
                },
            },
    {
        if !self.is_custodian(caller) {
            return Err(ConstrainedError::Unauthorized);
        }
        let new_id = self.nfts.len() as u64;
        self.nfts.push(Nft { owner: to, approved: None, id: new_id, metadata, content });
        proof {
            assert(self.nfts@.subrange(0, self.nfts@.len() - 1) =~= old(self).nfts@);
        }
        let txid = self.next_txid();
        Ok(MintResult { token_id: new_id, id: txid })
    }
}

/// The optional interfaces that this collection offers.
pub fn supported_interfaces() -> (r: Vec<InterfaceId>)
    ensures
        r@ == seq![InterfaceId::TransferNotification, InterfaceId::Burn, InterfaceId::Mint],
{
    let r = vec![InterfaceId::TransferNotification, InterfaceId::Burn, InterfaceId::Mint];
    proof {
        assert(r@ =~= seq![InterfaceId::TransferNotification, InterfaceId::Burn, InterfaceId::Mint]);
    }
    r
}

/// The collection's name.
pub fn name(state: &NftState) -> (r: String)
    ensures
        r@ == state.name@,
{
    state.name.clone()
}

/// The collection's symbol.
pub fn symbol(state: &NftState) -> (r: String)
    ensures
        r@ == state.symbol@,
{
    state.symbol.clone()
}

/// How many tokens were ever minted.
pub fn total_supply(state: &NftState) -> (r: u64)
    ensures
        r == state.nfts@.len(),
{
    state.nfts.len() as u64
}

} // verus!

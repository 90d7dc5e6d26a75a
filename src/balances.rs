use vstd::prelude::*;

use crate::account::AccountId;

verus! {

/// A ledger position: (owner, asset), each as the identity's bytes.
pub type LedgerKey = (Seq<u8>, Seq<u8>);

/// What `m` holds at `k`; absence means zero.
pub open spec fn balance_in(m: Map<LedgerKey, int>, k: LedgerKey) -> int {
    if m.contains_key(k) {
        m[k]
    } else {
        0
    }
}

/// Every stored quantity is positive: zero entries are not kept and none is negative.
pub open spec fn all_positive(m: Map<LedgerKey, int>) -> bool {
    forall|k: LedgerKey| #[trigger] m.contains_key(k) ==> m[k] > 0
}

/// `m` after adding `amount` at `k`.
pub open spec fn credited(m: Map<LedgerKey, int>, k: LedgerKey, amount: int) -> Map<LedgerKey, int> {
    if amount == 0 {
        m
    } else {
        m.insert(k, balance_in(m, k) + amount)
    }
}

/// `m` after taking `amount` from `k`, the entry dropped when it reaches zero.
pub open spec fn debited(m: Map<LedgerKey, int>, k: LedgerKey, amount: int) -> Map<LedgerKey, int> {
    if balance_in(m, k) == amount {
        m.remove(k)
    } else {
        m.insert(k, balance_in(m, k) - amount)
    }
}

/// A credit changes the credited key alone, by the amount credited.
pub proof fn lemma_credited_balance(m: Map<LedgerKey, int>, k: LedgerKey, amount: int, k2: LedgerKey)
    ensures
        balance_in(credited(m, k, amount), k2) == balance_in(m, k2) + if k2 == k {
            amount
        } else {
            0
        },
{
}

/// A debit changes the debited key alone, by the amount debited.
pub proof fn lemma_debited_balance(m: Map<LedgerKey, int>, k: LedgerKey, amount: int, k2: LedgerKey)
    ensures
        balance_in(debited(m, k, amount), k2) == balance_in(m, k2) - if k2 == k {
            amount
        } else {
            0
        },
{
}

/// Credits of non-negative amounts and debits that do not overdraw keep every entry positive.
pub proof fn lemma_updates_keep_positive(m: Map<LedgerKey, int>, k: LedgerKey, amount: int)
    requires
        all_positive(m),
        0 <= amount,
    ensures
        all_positive(credited(m, k, amount)),
        amount <= balance_in(m, k) ==> all_positive(debited(m, k, amount)),
{
}

/// One holding, as reported by the enumeration functions.
#[derive(Clone, Debug)]
pub struct Balance {
    pub owner: AccountId,
    pub token: AccountId,
    pub amount: u128,
}

/// The per-account, per-asset ledger of quantities held in custody.
pub struct Balances {
    entries: Vec<Balance>,
    model: Ghost<Map<LedgerKey, int>>,
}

impl View for Balances {
    type V = Map<LedgerKey, int>;

    closed spec fn view(&self) -> Map<LedgerKey, int> {
        self.model@
    }
}

pub open spec fn key_of(b: Balance) -> LedgerKey {
    (b.owner@, b.token@)
}

impl Balances {
    /// The internal invariant: one entry per key, each positive, and the
    /// ghost map holds exactly the entries.
    pub closed spec fn wf(&self) -> bool {
        &&& forall|i: int| 0 <= i < self.entries@.len() ==> {
            &&& (#[trigger] self.entries@[i]).amount > 0
            &&& self.model@.contains_key(key_of(self.entries@[i]))
            &&& self.model@[key_of(self.entries@[i])] == self.entries@[i].amount as int
        }
        &&& forall|i: int, j: int|
            0 <= i < self.entries@.len() && 0 <= j < self.entries@.len() && i != j ==> key_of(
                #[trigger] self.entries@[i],
            ) != key_of(#[trigger] self.entries@[j])
        &&& forall|k: LedgerKey| #[trigger]
            self.model@.contains_key(k) ==> exists|i: int|
                0 <= i < self.entries@.len() && key_of(#[trigger] self.entries@[i]) == k
    }

    /// Every recorded holding is positive and fits in 128 bits.
    pub proof fn lemma_positive(&self)
        requires
            self.wf(),
        ensures
            all_positive(self@),
            forall|k: LedgerKey| #[trigger] balance_in(self@, k) <= u128::MAX,
    {
        assert forall|k: LedgerKey| #[trigger] self@.contains_key(k) implies self@[k] > 0 && self@[k] <= u128::MAX by {
            let i = choose|i: int| 0 <= i < self.entries@.len() && key_of(#[trigger] self.entries@[i]) == k;
            assert(self.entries@[i].amount > 0);
        }
    }

    /// An empty ledger.
    pub fn new() -> (r: Balances)
        ensures
            r.wf(),
            r@ == Map::<LedgerKey, int>::empty(),
    {
        Balances { entries: Vec::new(), model: Ghost(Map::empty()) }
    }

    /// Position of the entry for (owner, token), if any.
    fn find(&self, owner: &AccountId, token: &AccountId) -> (r: Option<usize>)
        requires
            self.wf(),
        ensures
            match r {
                Some(i) => i < self.entries@.len() && key_of(self.entries@[i as int]) == (owner@, token@),
                None => !self@.contains_key((owner@, token@)),
            },
    {
        let mut i: usize = 0;
        while i < self.entries.len()
            invariant
                self.wf(),
                i <= self.entries@.len(),
                forall|j: int| 0 <= j < i ==> key_of(#[trigger] self.entries@[j]) != (owner@, token@),
            decreases self.entries@.len() - i,
        {
            let e = &self.entries[i];
            if e.owner.same(owner) && e.token.same(token) {
                return Some(i);
            }
            i = i + 1;
        }
        None
    }

    /// What `owner` holds of `token`; zero when nothing is recorded.
    pub fn balance_of(&self, owner: &AccountId, token: &AccountId) -> (r: u128)
        requires
            self.wf(),
        ensures
            r as int == balance_in(self@, (owner@, token@)),
    {
        match self.find(owner, token) {
            Some(i) => self.entries[i].amount,
            None => 0,
        }
    }

    /// Adds `delta` to what `owner` holds of `token`. A sum beyond the
    /// representable range is a fault of the caller.
    pub fn add_balance(&mut self, owner: &AccountId, token: &AccountId, delta: u128)
        requires
            old(self).wf(),
            balance_in(old(self)@, (owner@, token@)) + delta <= u128::MAX,
        ensures
            final(self).wf(),
            all_positive(final(self)@),
            final(self)@ == credited(old(self)@, (owner@, token@), delta as int),
    {
        proof {
            old(self).lemma_positive();
            lemma_updates_keep_positive(old(self)@, (owner@, token@), delta as int);
        }
        if delta == 0 {
            return;
        }
        let k: Ghost<LedgerKey> = Ghost((owner@, token@));
        match self.find(owner, token) {
            Some(i) => {
                let cur = self.entries[i].amount;
                let e = Balance { owner: owner.duplicate(), token: token.duplicate(), amount: cur + delta };
                self.entries.set(i, e);
                self.model = Ghost(self.model@.insert(k@, cur + delta));
                proof {
                    let n = self.entries@.len();
                    assert forall|k2: LedgerKey| #[trigger] self.model@.contains_key(k2) implies exists|j: int|
                        0 <= j < n && key_of(#[trigger] self.entries@[j]) == k2 by {
                        if k2 == k@ {
                            assert(key_of(self.entries@[i as int]) == k2);
                        } else {
                            let j = choose|j: int| 0 <= j < n && key_of(#[trigger] old(self).entries@[j]) == k2;
                            assert(key_of(self.entries@[j]) == k2);
                        }
                    }
                }
            },
            None => {
                let e = Balance { owner: owner.duplicate(), token: token.duplicate(), amount: delta };
                self.entries.push(e);
                self.model = Ghost(self.model@.insert(k@, delta as int));
                proof {
                    let n = self.entries@.len();
                    assert(key_of(self.entries@[n - 1]) == k@);
                    assert forall|k2: LedgerKey| #[trigger] self.model@.contains_key(k2) implies exists|j: int|
                        0 <= j < n && key_of(#[trigger] self.entries@[j]) == k2 by {
                        if k2 == k@ {
                            assert(key_of(self.entries@[n - 1]) == k2);
                        } else {
                            let j = choose|j: int| 0 <= j < n - 1 && key_of(#[trigger] old(self).entries@[j]) == k2;
                            assert(key_of(self.entries@[j]) == k2);
                        }
                    }
                    assert forall|a: int, b: int|
                        0 <= a < n && 0 <= b < n && a != b implies key_of(#[trigger] self.entries@[a]) != key_of(
                        #[trigger] self.entries@[b]) by {
                        if a == n - 1 {
                            assert(self.entries@[b] == old(self).entries@[b]);
                            assert(old(self)@.contains_key(key_of(old(self).entries@[b])));
                        } else if b == n - 1 {
                            assert(self.entries@[a] == old(self).entries@[a]);
                            assert(old(self)@.contains_key(key_of(old(self).entries@[a])));
                        }
                    }
                }
            },
        }
    }

    /// Takes `delta` from what `owner` holds of `token`. Returns false and
    /// changes nothing when the holding is smaller than `delta`; an entry
    /// that reaches zero is removed.
    pub fn subtract_balance(&mut self, owner: &AccountId, token: &AccountId, delta: u128) -> (r: bool)
        requires
            old(self).wf(),
        ensures
            final(self).wf(),
            all_positive(final(self)@),
            r == (balance_in(old(self)@, (owner@, token@)) >= delta),
            r ==> final(self)@ == debited(old(self)@, (owner@, token@), delta as int),
            !r ==> final(self)@ == old(self)@,
    {
        proof {
            old(self).lemma_positive();
            lemma_updates_keep_positive(old(self)@, (owner@, token@), delta as int);
        }
        let k: Ghost<LedgerKey> = Ghost((owner@, token@));
        match self.find(owner, token) {
            None => {
                if delta == 0 {
                    proof {
                        assert(self.model@.remove(k@) =~= self.model@);
                    }
                    true
                } else {
                    false
                }
            },
            Some(i) => {
                let cur = self.entries[i].amount;
                if cur < delta {
                    return false;
                }
                if cur == delta {
                    self.entries.remove(i);
                    self.model = Ghost(self.model@.remove(k@));
                    proof {
                        let n = self.entries@.len();
                        let oe = old(self).entries@;
                        assert forall|j: int| 0 <= j < n implies #[trigger] self.entries@[j] == if j < i {
                            oe[j]
                        } else {
                            oe[j + 1]
                        } by {}
                        assert forall|j: int| 0 <= j < n implies {
                            &&& (#[trigger] self.entries@[j]).amount > 0
                            &&& self.model@.contains_key(key_of(self.entries@[j]))
                            &&& self.model@[key_of(self.entries@[j])] == self.entries@[j].amount as int
                        } by {
                            let oj = if j < i { j } else { j + 1 };
                            assert(self.entries@[j] == oe[oj]);
                            assert(key_of(oe[oj]) != key_of(oe[i as int]));
                        }
                        assert forall|a: int, b: int|
                            0 <= a < n && 0 <= b < n && a != b implies key_of(#[trigger] self.entries@[a])
                            != key_of(#[trigger] self.entries@[b]) by {
                            let oa = if a < i { a } else { a + 1 };
                            let ob = if b < i { b } else { b + 1 };
                            assert(self.entries@[a] == oe[oa]);
                            assert(self.entries@[b] == oe[ob]);
                        }
                        assert forall|k2: LedgerKey| #[trigger] self.model@.contains_key(k2) implies exists|j: int|
                            0 <= j < n && key_of(#[trigger] self.entries@[j]) == k2 by {
                            let oj = choose|j: int| 0 <= j < n + 1 && key_of(#[trigger] oe[j]) == k2;
                            assert(oj != i);
                            let j = if oj < i { oj } else { oj - 1 };
                            assert(self.entries@[j] == oe[oj]);
                        }
                    }
                } else {
                    let e = Balance { owner: owner.duplicate(), token: token.duplicate(), amount: cur - delta };
                    self.entries.set(i, e);
                    self.model = Ghost(self.model@.insert(k@, cur - delta));
                    proof {
                        let n = self.entries@.len();
                        assert forall|k2: LedgerKey| #[trigger] self.model@.contains_key(k2) implies exists|j: int|
                            0 <= j < n && key_of(#[trigger] self.entries@[j]) == k2 by {
                            if k2 == k@ {
                                assert(key_of(self.entries@[i as int]) == k2);
                            } else {
                                let j = choose|j: int| 0 <= j < n && key_of(#[trigger] old(self).entries@[j]) == k2;
                                assert(key_of(self.entries@[j]) == k2);
                            }
                        }
                    }
                }
                true
            },
        }
    }
}

/// `r` lists the entries of `m` whose owner satisfies `pick`, each once.
pub open spec fn lists(r: Seq<Balance>, m: Map<LedgerKey, int>, pick: spec_fn(Seq<u8>) -> bool) -> bool {
    &&& forall|i: int|
        0 <= i < r.len() ==> {
            &&& pick((#[trigger] r[i]).owner@)
            &&& m.contains_key(key_of(r[i]))
            &&& m[key_of(r[i])] == r[i].amount as int
        }
    &&& forall|i: int, j: int| 0 <= i < j < r.len() ==> key_of(#[trigger] r[i]) != key_of(#[trigger] r[j])
    &&& forall|k: LedgerKey| #[trigger] m.contains_key(k) && pick(k.0) ==> exists|i: int| 0 <= i < r.len() && key_of(#[trigger] r[i]) == k
}

impl Balances {
    /// The entries whose owner satisfies `pick`, in storage order.
    fn collect(&self, owner: Option<&AccountId>) -> (r: Vec<Balance>)
        requires
            self.wf(),
        ensures
            lists(r@, self@, |o: Seq<u8>| owner is None || o == owner->0@),
    {
        let ghost pick = |o: Seq<u8>| owner is None || o == owner->0@;
        let mut r: Vec<Balance> = Vec::new();
        let ghost mut pos: Seq<int> = Seq::empty();
        let mut i: usize = 0;
        while i < self.entries.len()
            invariant
                self.wf(),
                pick == (|o: Seq<u8>| owner is None || o == owner->0@),
                i <= self.entries@.len(),
                pos.len() == r@.len(),
                forall|x: int| 0 <= x < r@.len() ==> 0 <= #[trigger] pos[x] < i && key_of(self.entries@[pos[x]]) == key_of(r@[x])
                    && r@[x].amount == self.entries@[pos[x]].amount && pick(r@[x].owner@),
                forall|x: int, y: int| 0 <= x < y < r@.len() ==> #[trigger] pos[x] < #[trigger] pos[y],
                forall|j: int| 0 <= j < i && pick((#[trigger] self.entries@[j]).owner@) ==> exists|x: int| 0 <= x < r@.len() && pos[x] == j,
            decreases self.entries@.len() - i,
        {
            let e = &self.entries[i];
            let take = match owner {
                None => true,
                Some(o) => e.owner.same(o),
            };
            if take {
                r.push(Balance { owner: e.owner.duplicate(), token: e.token.duplicate(), amount: e.amount });
                proof {
                    let old_pos = pos;
                    pos = pos.push(i as int);
                    assert forall|j: int| 0 <= j < i + 1 && pick((#[trigger] self.entries@[j]).owner@) implies exists|x: int|
                        0 <= x < r@.len() && pos[x] == j by {
                        if j == i {
                            assert(pos[r@.len() - 1] == j);
                        } else {
                            let x = choose|x: int| 0 <= x < old_pos.len() && old_pos[x] == j;
                            assert(pos[x] == j);
                        }
                    }
                }
            }
            i = i + 1;
        }
        proof {
            assert forall|x: int| 0 <= x < r@.len() implies {
                &&& pick((#[trigger] r@[x]).owner@)
                &&& self@.contains_key(key_of(r@[x]))
                &&& self@[key_of(r@[x])] == r@[x].amount as int
            } by {
                let j = pos[x];
                assert(self.entries@[j].amount > 0);
            }
            assert forall|x: int, y: int| 0 <= x < y < r@.len() implies key_of(#[trigger] r@[x]) != key_of(#[trigger] r@[y]) by {
                assert(pos[x] < pos[y]);
                assert(self.entries@[pos[x]].amount > 0);
                assert(self.entries@[pos[y]].amount > 0);
            }
            assert forall|k: LedgerKey| #[trigger] self@.contains_key(k) && pick(k.0) implies exists|x: int|
                0 <= x < r@.len() && key_of(#[trigger] r@[x]) == k by {
                let j = choose|j: int| 0 <= j < self.entries@.len() && key_of(#[trigger] self.entries@[j]) == k;
                assert(pick(self.entries@[j].owner@));
                let x = choose|x: int| 0 <= x < r@.len() && pos[x] == j;
                assert(key_of(r@[x]) == k);
            }
        }
        r
    }

    /// Every holding of `owner`, each once, in no particular order.
    pub fn all_balances_of(&self, owner: &AccountId) -> (r: Vec<Balance>)
        requires
            self.wf(),
        ensures
            lists(r@, self@, |o: Seq<u8>| o == owner@),
    {
        let r = self.collect(Some(owner));
        proof {
            let p1 = |o: Seq<u8>| Some(owner) is None || o == Some(owner)->0@;
            let p2 = |o: Seq<u8>| o == owner@;
            assert(p1 =~= p2);
        }
        r
    }

    /// Every holding of every account, each once, in no particular order.
    pub fn all_balances(&self) -> (r: Vec<Balance>)
        requires
            self.wf(),
        ensures
            lists(r@, self@, |o: Seq<u8>| true),
    {
        let r = self.collect(None);
        proof {
            let p1 = |o: Seq<u8>| None::<&AccountId> is None || o == None::<&AccountId>->0@;
            let p2 = |o: Seq<u8>| true;
            assert(p1 =~= p2);
        }
        r
    }

    /// Drops every holding.
    pub fn clear(&mut self)
        ensures
            final(self).wf(),
            final(self)@ == Map::<LedgerKey, int>::empty(),
    {
        self.entries = Vec::new();
        self.model = Ghost(Map::empty());
    }
}

/// The ledger that a list of holdings describes: each credited in turn.
pub open spec fn ledger_of(bs: Seq<Balance>) -> Map<LedgerKey, int>
    decreases bs.len(),
{
    if bs.len() == 0 {
        Map::empty()
    } else {
        credited(ledger_of(bs.drop_last()), key_of(bs.last()), bs.last().amount as int)
    }
}

/// Every listed holding is positive and no key is listed twice.
pub open spec fn distinct_positive(bs: Seq<Balance>) -> bool {
    &&& forall|i: int| 0 <= i < bs.len() ==> (#[trigger] bs[i]).amount > 0
    &&& forall|i: int, j: int| 0 <= i < j < bs.len() ==> key_of(#[trigger] bs[i]) != key_of(#[trigger] bs[j])
}

/// A list of distinct positive holdings describes a ledger holding exactly
/// those entries.
pub proof fn lemma_ledger_of(bs: Seq<Balance>)
    requires
        distinct_positive(bs),
    ensures
        all_positive(ledger_of(bs)),
        forall|i: int| 0 <= i < bs.len() ==> #[trigger] ledger_of(bs).contains_key(key_of(bs[i]))
            && ledger_of(bs)[key_of(bs[i])] == bs[i].amount as int,
        forall|k: LedgerKey| #[trigger] ledger_of(bs).contains_key(k) ==> exists|i: int| 0 <= i < bs.len() && key_of(#[trigger] bs[i]) == k,
    decreases bs.len(),
{
    if bs.len() > 0 {
        let d = bs.drop_last();
        assert(distinct_positive(d)) by {
            assert forall|i: int, j: int| 0 <= i < j < d.len() implies key_of(#[trigger] d[i]) != key_of(#[trigger] d[j]) by {
                assert(d[i] == bs[i] && d[j] == bs[j]);
            }
        }
        lemma_ledger_of(d);
        let l = ledger_of(d);
        let k = key_of(bs.last());
        if l.contains_key(k) {
            let i = choose|i: int| 0 <= i < d.len() && key_of(#[trigger] d[i]) == k;
            assert(d[i] == bs[i]);
            assert(false);
        }
        assert forall|i: int| 0 <= i < bs.len() implies #[trigger] ledger_of(bs).contains_key(key_of(bs[i]))
            && ledger_of(bs)[key_of(bs[i])] == bs[i].amount as int by {
            if i < bs.len() - 1 {
                assert(d[i] == bs[i]);
                assert(key_of(bs[i]) != k);
            }
        }
        assert forall|k2: LedgerKey| #[trigger] ledger_of(bs).contains_key(k2) implies exists|i: int|
            0 <= i < bs.len() && key_of(#[trigger] bs[i]) == k2 by {
            if k2 == k {
                assert(key_of(bs[bs.len() - 1]) == k2);
            } else {
                let i = choose|i: int| 0 <= i < d.len() && key_of(#[trigger] d[i]) == k2;
                assert(d[i] == bs[i]);
            }
        }
    }
}

/// A listing of every holding of a ledger, as the enumeration functions
/// give it, holds distinct positive entries and describes that ledger exactly.
pub proof fn lemma_listing_describes_ledger(bs: Seq<Balance>, m: Map<LedgerKey, int>)
    requires
        all_positive(m),
        lists(bs, m, |o: Seq<u8>| true),
    ensures
        distinct_positive(bs),
        ledger_of(bs) == m,
{
    assert forall|i: int| 0 <= i < bs.len() implies (#[trigger] bs[i]).amount > 0 by {
        assert(m.contains_key(key_of(bs[i])));
    }
    lemma_ledger_of(bs);
    let l = ledger_of(bs);
    assert forall|k: LedgerKey| l.contains_key(k) == m.contains_key(k) by {
        if m.contains_key(k) {
            assert(m.contains_key(k) && (|o: Seq<u8>| true)(k.0));
            let i = choose|i: int| 0 <= i < bs.len() && key_of(#[trigger] bs[i]) == k;
            assert(l.contains_key(key_of(bs[i])));
        }
        if l.contains_key(k) {
            let i = choose|i: int| 0 <= i < bs.len() && key_of(#[trigger] bs[i]) == k;
            assert(m.contains_key(key_of(bs[i])));
        }
    }
    assert forall|k: LedgerKey| #[trigger] l.contains_key(k) implies l[k] == m[k] by {
        let i = choose|i: int| 0 <= i < bs.len() && key_of(#[trigger] bs[i]) == k;
        assert(l.contains_key(key_of(bs[i])));
    }
    assert(l =~= m);
}

} // verus!

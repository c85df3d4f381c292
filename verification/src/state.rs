//! The token ledger: metadata, balances, and allowances.
//!
//! Balances and allowances are association lists with unique keys; their
//! contracts are stated over the finite maps [`amap`] builds from them. A
//! missing key means an implicit zero, read off by [`map_val`]. Every
//! mutating operation either commits the stated map change or fails with a
//! business error and leaves the state untouched.

use vstd::prelude::*;

verus! {

use vstd::pervasive::VecAdditionalExecFns;

use crate::uint256::Uint256;
use crate::types::{MintLog, TransferLog};
use crate::Error;

/// The map an association list denotes; on duplicate keys the later entry
/// wins, but well-formed lists have unique keys.
pub open spec fn amap<K>(s: Seq<(K, Uint256)>) -> Map<K, nat>
    decreases s.len(),
{
    if s.len() == 0 {
        Map::empty()
    } else {
        amap(s.drop_last()).insert(s.last().0, s.last().1.value())
    }
}

/// No key occurs twice.
pub open spec fn unique_keys<K>(s: Seq<(K, Uint256)>) -> bool {
    forall|i: int, j: int| 0 <= i < j < s.len() ==> (#[trigger] s[i]).0 != (#[trigger] s[j]).0
}

/// Every stored amount is canonical.
pub open spec fn entries_wf<K>(s: Seq<(K, Uint256)>) -> bool {
    forall|i: int| 0 <= i < s.len() ==> (#[trigger] s[i]).1.wf()
}

/// The amount a map holds under a key, with zero for a missing key.
pub open spec fn map_val<K>(m: Map<K, nat>, k: K) -> nat {
    if m.contains_key(k) {
        m[k]
    } else {
        0
    }
}

/// The map after adding `v` under `k`.
pub open spec fn credit<K>(m: Map<K, nat>, k: K, v: nat) -> Map<K, nat> {
    m.insert(k, map_val(m, k) + v)
}

/// The map after removing `v` from under `k`; meaningful when `v` is
/// covered.
pub open spec fn debit<K>(m: Map<K, nat>, k: K, v: nat) -> Map<K, nat> {
    m.insert(k, (map_val(m, k) - v) as nat)
}

/// A key is in the denoted map exactly when some entry carries it.
pub proof fn lemma_amap_key<K>(s: Seq<(K, Uint256)>, k: K)
    ensures
        amap(s).contains_key(k) <==> exists|i: int| 0 <= i < s.len() && (#[trigger] s[i]).0 == k,
    decreases s.len(),
{
    if s.len() > 0 {
        lemma_amap_key(s.drop_last(), k);
        if s.last().0 == k {
            assert(s[s.len() - 1].0 == k);
        } else if amap(s).contains_key(k) {
            let i = choose|i: int| 0 <= i < s.drop_last().len() && (#[trigger] s.drop_last()[i]).0
                == k;
            assert(s[i].0 == k);
        } else {
            assert forall|i: int| 0 <= i < s.len() implies (#[trigger] s[i]).0 != k by {
                if i < s.len() - 1 {
                    assert(s.drop_last()[i] == s[i]);
                }
            }
        }
    }
}

/// With unique keys, each entry is what the denoted map holds.
pub proof fn lemma_amap_at<K>(s: Seq<(K, Uint256)>, i: int)
    requires
        unique_keys(s),
        0 <= i < s.len(),
    ensures
        amap(s).contains_key(s[i].0),
        amap(s)[s[i].0] == s[i].1.value(),
    decreases s.len(),
{
    if i == s.len() - 1 {
    } else {
        assert(unique_keys(s.drop_last())) by {
            assert forall|x: int, y: int|
                0 <= x < y < s.drop_last().len() implies (#[trigger] s.drop_last()[x]).0 != (
            #[trigger] s.drop_last()[y]).0 by {
                assert(s[x] == s.drop_last()[x]);
                assert(s[y] == s.drop_last()[y]);
            }
        }
        assert(s.drop_last()[i] == s[i]);
        lemma_amap_at(s.drop_last(), i);
        assert(s[i].0 != s.last().0);
    }
}

/// Updating the entry at a key updates the denoted map pointwise.
pub proof fn lemma_amap_update<K>(s: Seq<(K, Uint256)>, i: int, x: Uint256)
    requires
        unique_keys(s),
        0 <= i < s.len(),
    ensures
        amap(s.update(i, (s[i].0, x))) == amap(s).insert(s[i].0, x.value()),
        unique_keys(s.update(i, (s[i].0, x))),
    decreases s.len(),
{
    let k = s[i].0;
    let t = s.update(i, (k, x));
    assert forall|a: int, b: int| 0 <= a < b < t.len() implies (#[trigger] t[a]).0 != (
    #[trigger] t[b]).0 by {
        assert(t[a].0 == s[a].0);
        assert(t[b].0 == s[b].0);
    }
    if i == s.len() - 1 {
        assert(t.drop_last() =~= s.drop_last());
        assert(t.last() == (k, x));
        assert(amap(t) == amap(s.drop_last()).insert(k, x.value()));
        assert(amap(s).insert(k, x.value()) =~= amap(s.drop_last()).insert(k, x.value()));
    } else {
        assert(unique_keys(s.drop_last())) by {
            assert forall|a: int, b: int|
                0 <= a < b < s.drop_last().len() implies (#[trigger] s.drop_last()[a]).0 != (
            #[trigger] s.drop_last()[b]).0 by {
                assert(s[a] == s.drop_last()[a]);
                assert(s[b] == s.drop_last()[b]);
            }
        }
        assert(s.drop_last()[i] == s[i]);
        lemma_amap_update(s.drop_last(), i, x);
        assert(t.drop_last() =~= s.drop_last().update(i, (k, x)));
        assert(t.last() == s.last());
        assert(s.last().0 != k);
        assert(amap(t) == amap(s.drop_last()).insert(k, x.value()).insert(
            s.last().0,
            s.last().1.value(),
        ));
        assert(amap(s.drop_last()).insert(k, x.value()).insert(s.last().0, s.last().1.value())
            =~= amap(s).insert(k, x.value()));
    }
}

/// Appending a fresh key extends the denoted map.
pub proof fn lemma_amap_push<K>(s: Seq<(K, Uint256)>, k: K, x: Uint256)
    requires
        unique_keys(s),
        forall|i: int| 0 <= i < s.len() ==> (#[trigger] s[i]).0 != k,
    ensures
        amap(s.push((k, x))) == amap(s).insert(k, x.value()),
        unique_keys(s.push((k, x))),
{
    let t = s.push((k, x));
    assert(t.drop_last() =~= s);
    assert(t.last() == (k, x));
    assert forall|a: int, b: int| 0 <= a < b < t.len() implies (#[trigger] t[a]).0 != (
    #[trigger] t[b]).0 by {
        if b < t.len() - 1 {
            assert(t[a] == s[a]);
            assert(t[b] == s[b]);
        } else {
            assert(t[a] == s[a]);
        }
    }
}

/// Finds the entry with actor key `k`.
pub(crate) fn find_bal(v: &Vec<(u64, Uint256)>, k: u64) -> (r: Option<usize>)
    ensures
        match r {
            Some(i) => i < v@.len() && v@[i as int].0 == k,
            None => forall|i: int| 0 <= i < v@.len() ==> (#[trigger] v@[i]).0 != k,
        },
{
    let mut i: usize = 0;
    while i < v.len()
        invariant
            i <= v@.len(),
            forall|j: int| 0 <= j < i ==> (#[trigger] v@[j]).0 != k,
        decreases v@.len() - i,
    {
        if v[i].0 == k {
            return Some(i);
        }
        i = i + 1;
    }
    None
}

/// Finds the entry with owner/spender key pair.
pub(crate) fn find_allow(v: &Vec<((u64, u64), Uint256)>, owner: u64, spender: u64) -> (r: Option<usize>)
    ensures
        match r {
            Some(i) => i < v@.len() && v@[i as int].0 == (owner, spender),
            None => forall|i: int| 0 <= i < v@.len() ==> (#[trigger] v@[i]).0 != (owner, spender),
        },
{
    let mut i: usize = 0;
    while i < v.len()
        invariant
            i <= v@.len(),
            forall|j: int| 0 <= j < i ==> (#[trigger] v@[j]).0 != (owner, spender),
        decreases v@.len() - i,
    {
        if v[i].0.0 == owner && v[i].0.1 == spender {
            return Some(i);
        }
        i = i + 1;
    }
    None
}

/// Stores `x` under actor key `k`, inserting or overwriting.
fn set_bal(v: &mut Vec<(u64, Uint256)>, k: u64, x: Uint256)
    requires
        unique_keys(old(v)@),
        entries_wf(old(v)@),
        x.wf(),
    ensures
        unique_keys(final(v)@),
        entries_wf(final(v)@),
        amap(final(v)@) == amap(old(v)@).insert(k, x.value()),
{
    match find_bal(v, k) {
        Some(i) => {
            proof {
                lemma_amap_update(v@, i as int, x);
            }
            let ghost pre = v@;
            v.set(i, (k, x));
            proof {
                assert(v@ == pre.update(i as int, (k, x)));
                assert forall|j: int| 0 <= j < v@.len() implies (#[trigger] v@[j]).1.wf() by {
                    if j != i {
                        assert(v@[j] == pre[j]);
                    }
                }
            }
        },
        None => {
            proof {
                lemma_amap_push(v@, k, x);
            }
            let ghost pre = v@;
            v.push((k, x));
            proof {
                assert(v@ == pre.push((k, x)));
                assert forall|j: int| 0 <= j < v@.len() implies (#[trigger] v@[j]).1.wf() by {
                    if j < v@.len() - 1 {
                        assert(v@[j] == pre[j]);
                    }
                }
            }
        },
    }
}

/// Stores `x` under the owner/spender key pair, inserting or overwriting.
fn set_allow(v: &mut Vec<((u64, u64), Uint256)>, owner: u64, spender: u64, x: Uint256)
    requires
        unique_keys(old(v)@),
        entries_wf(old(v)@),
        x.wf(),
    ensures
        unique_keys(final(v)@),
        entries_wf(final(v)@),
        amap(final(v)@) == amap(old(v)@).insert((owner, spender), x.value()),
{
    match find_allow(v, owner, spender) {
        Some(i) => {
            proof {
                lemma_amap_update(v@, i as int, x);
            }
            let ghost pre = v@;
            v.set(i, ((owner, spender), x));
            proof {
                assert(v@ == pre.update(i as int, ((owner, spender), x)));
                assert forall|j: int| 0 <= j < v@.len() implies (#[trigger] v@[j]).1.wf() by {
                    if j != i {
                        assert(v@[j] == pre[j]);
                    }
                }
            }
        },
        None => {
            proof {
                lemma_amap_push(v@, (owner, spender), x);
            }
            let ghost pre = v@;
            v.push(((owner, spender), x));
            proof {
                assert(v@ == pre.push(((owner, spender), x)));
                assert forall|j: int| 0 <= j < v@.len() implies (#[trigger] v@[j]).1.wf() by {
                    if j < v@.len() - 1 {
                        assert(v@[j] == pre[j]);
                    }
                }
            }
        },
    }
}

/// Token metadata, set once at construction and immutable afterwards. The
/// symbol is held as its UTF-8 bytes.
pub struct Token {
    pub symbol: Vec<u8>,
    pub decimal: u64,
    pub total_supply: Uint256,
}

impl Token {
    /// The metadata is well-formed when its supply is canonical.
    pub open spec fn wf(self) -> bool {
        self.total_supply.wf()
    }
}

/// The ledger: token metadata, a balance map, and an allowance map keyed by
/// owner/spender pairs. Missing entries mean zero.
pub struct State {
    pub token: Token,
    pub balances: Vec<(u64, Uint256)>,
    pub allowances: Vec<((u64, u64), Uint256)>,
}

impl State {
    /// The representation invariant: canonical amounts and unique keys.
    pub open spec fn wf(self) -> bool {
        &&& self.token.wf()
        &&& unique_keys(self.balances@)
        &&& entries_wf(self.balances@)
        &&& unique_keys(self.allowances@)
        &&& entries_wf(self.allowances@)
    }

    /// The balance map this ledger denotes.
    pub open spec fn balances_map(self) -> Map<u64, nat> {
        amap(self.balances@)
    }

    /// The allowance map this ledger denotes.
    pub open spec fn allowances_map(self) -> Map<(u64, u64), nat> {
        amap(self.allowances@)
    }

    /// The balance of an actor, zero when never credited.
    pub open spec fn bal(self, a: u64) -> nat {
        map_val(self.balances_map(), a)
    }

    /// The allowance an owner grants a spender, zero when never approved.
    pub open spec fn allow(self, owner: u64, spender: u64) -> nat {
        map_val(self.allowances_map(), (owner, spender))
    }

    /// An empty, uninitialized ledger with the given metadata.
    pub fn new(token: Token) -> (r: State)
        requires
            token.wf(),
        ensures
            r.wf(),
            r.token == token,
            r.balances_map() == Map::<u64, nat>::empty(),
            r.allowances_map() == Map::<(u64, u64), nat>::empty(),
            forall|a: u64| r.bal(a) == 0,
            forall|o: u64, s: u64| r.allow(o, s) == 0,
    {
        State { token, balances: Vec::new(), allowances: Vec::new() }
    }

    /// Replaces the metadata and clears both maps; afterwards every actor
    /// has balance zero and every pair has allowance zero. No balance is
    /// pre-minted.
    pub fn constructor(&mut self, token: Token) -> (r: Option<Vec<u8>>)
        requires
            token.wf(),
        ensures
            final(self).wf(),
            final(self).token == token,
            final(self).balances_map() == Map::<u64, nat>::empty(),
            final(self).allowances_map() == Map::<(u64, u64), nat>::empty(),
            forall|a: u64| final(self).bal(a) == 0,
            forall|o: u64, s: u64| final(self).allow(o, s) == 0,
            r is None,
    {
        self.token = token;
        self.balances = Vec::new();
        self.allowances = Vec::new();
        None
    }

    /// The token symbol, as UTF-8 bytes.
    pub fn symbol(&self) -> (r: Vec<u8>)
        ensures
            r@ == self.token.symbol@,
    {
        let mut out: Vec<u8> = Vec::new();
        let mut i: usize = 0;
        while i < self.token.symbol.len()
            invariant
                i <= self.token.symbol@.len(),
                out@ =~= self.token.symbol@.take(i as int),
            decreases self.token.symbol@.len() - i,
        {
            out.push(self.token.symbol[i]);
            i = i + 1;
        }
        proof {
            assert(out@ =~= self.token.symbol@);
        }
        out
    }

    /// The token's decimal places.
    pub fn decimal(&self) -> (r: u64)
        ensures
            r == self.token.decimal,
    {
        self.token.decimal
    }

    /// The declared total supply. Minting is not checked against it.
    pub fn total_supply(&self) -> (r: Uint256)
        ensures
            r.limbs_view() == self.token.total_supply.limbs_view(),
            r.wf() == self.token.total_supply.wf(),
            r.value() == self.token.total_supply.value(),
    {
        self.token.total_supply.dup()
    }

    /// The stored balance, or zero when the actor was never credited.
    pub fn balance_of(&self, actor: u64) -> (r: Uint256)
        requires
            self.wf(),
        ensures
            r.wf(),
            r.value() == self.bal(actor),
    {
        match find_bal(&self.balances, actor) {
            Some(i) => {
                proof {
                    lemma_amap_at(self.balances@, i as int);
                }
                self.balances[i].1.dup()
            },
            None => {
                proof {
                    lemma_amap_key(self.balances@, actor);
                }
                Uint256::zero()
            },
        }
    }

    /// The stored allowance, or zero when never approved.
    pub fn allowance(&self, from: &u64, to: &u64) -> (r: Uint256)
        requires
            self.wf(),
        ensures
            r.wf(),
            r.value() == self.allow(*from, *to),
    {
        match find_allow(&self.allowances, *from, *to) {
            Some(i) => {
                proof {
                    lemma_amap_at(self.allowances@, i as int);
                }
                self.allowances[i].1.dup()
            },
            None => {
                proof {
                    lemma_amap_key(self.allowances@, (*from, *to));
                }
                Uint256::zero()
            },
        }
    }

    /// Credits the actor unconditionally, creating the entry if absent.
    /// Not bounded by the total supply.
    pub fn mint(&mut self, actor: u64, amount: Uint256) -> (r: MintLog)
        requires
            old(self).wf(),
            amount.wf(),
        ensures
            final(self).wf(),
            final(self).balances_map() == credit(old(self).balances_map(), actor, amount.value()),
            final(self).allowances_map() == old(self).allowances_map(),
            final(self).token == old(self).token,
            r.actor == actor,
            r.amount.wf(),
            r.amount.value() == amount.value(),
    {
        let cur = self.balance_of(actor);
        let newbal = cur.add(&amount);
        set_bal(&mut self.balances, actor, newbal);
        MintLog::new(actor, amount)
    }

    /// Moves `amount` from `from` to `to`: fails with
    /// `InsufficientBalance`, changing nothing, exactly when the sender's
    /// balance cannot cover it; otherwise debits the sender and credits the
    /// recipient, creating the recipient's entry if absent.
    pub fn transfer(&mut self, from: u64, to: u64, amount: Uint256) -> (r: Result<
        TransferLog,
        Error,
    >)
        requires
            old(self).wf(),
            amount.wf(),
        ensures
            match r {
                Ok(log) => {
                    &&& amount.value() <= old(self).bal(from)
                    &&& final(self).wf()
                    &&& final(self).balances_map() == credit(
                        debit(old(self).balances_map(), from, amount.value()),
                        to,
                        amount.value(),
                    )
                    &&& final(self).allowances_map() == old(self).allowances_map()
                    &&& final(self).token == old(self).token
                    &&& log.from == from
                    &&& log.to == to
                    &&& log.amount.wf()
                    &&& log.amount.value() == amount.value()
                },
                Err(e) => {
                    &&& e == Error::InsufficientBalance
                    &&& amount.value() > old(self).bal(from)
                    &&& *final(self) == *old(self)
                },
            },
    {
        let cur = self.balance_of(from);
        let newbal = match cur.sub(&amount) {
            Err(_) => {
                return Err(Error::InsufficientBalance);
            },
            Ok(x) => x,
        };
        set_bal(&mut self.balances, from, newbal);
        let tocur = self.balance_of(to);
        let newto = tocur.add(&amount);
        set_bal(&mut self.balances, to, newto);
        Ok(TransferLog::new(from, to, amount))
    }

    /// Grants `to` a spending ceiling of `amount` on the caller's funds,
    /// overwriting any earlier ceiling. The caller's balance must cover the
    /// amount at approval time only; nothing is escrowed, and the ceiling
    /// is not reduced if the balance later drops.
    pub fn approve(&mut self, from: u64, to: u64, amount: Uint256) -> (r: Result<(), Error>)
        requires
            old(self).wf(),
            amount.wf(),
        ensures
            match r {
                Ok(_) => {
                    &&& amount.value() <= old(self).bal(from)
                    &&& final(self).wf()
                    &&& final(self).allowances_map() == old(self).allowances_map().insert(
                        (from, to),
                        amount.value(),
                    )
                    &&& final(self).balances_map() == old(self).balances_map()
                    &&& final(self).token == old(self).token
                },
                Err(e) => {
                    &&& e == Error::InsufficientBalance
                    &&& amount.value() > old(self).bal(from)
                    &&& *final(self) == *old(self)
                },
            },
    {
        let cur = self.balance_of(from);
        if cur.lt(&amount) {
            return Err(Error::InsufficientBalance);
        }
        set_allow(&mut self.allowances, from, to, amount);
        Ok(())
    }

    /// Spends `amount` of the allowance `from` granted `to`, moving the
    /// funds to `to`. Fails with `InsufficientBalance`, changing nothing,
    /// when the allowance entry is absent or too small, or when the owner's
    /// balance entry is absent or too small; otherwise debits the owner,
    /// credits the recipient, and decrements the allowance.
    pub fn transfer_from(&mut self, from: u64, to: u64, amount: Uint256) -> (r: Result<
        TransferLog,
        Error,
    >)
        requires
            old(self).wf(),
            amount.wf(),
        ensures
            match r {
                Ok(log) => {
                    &&& old(self).allowances_map().contains_key((from, to))
                    &&& amount.value() <= old(self).allow(from, to)
                    &&& old(self).balances_map().contains_key(from)
                    &&& amount.value() <= old(self).bal(from)
                    &&& final(self).wf()
                    &&& final(self).balances_map() == credit(
                        debit(old(self).balances_map(), from, amount.value()),
                        to,
                        amount.value(),
                    )
                    &&& final(self).allowances_map() == old(self).allowances_map().insert(
                        (from, to),
                        (old(self).allow(from, to) - amount.value()) as nat,
                    )
                    &&& final(self).token == old(self).token
                    &&& log.from == from
                    &&& log.to == to
                    &&& log.amount.wf()
                    &&& log.amount.value() == amount.value()
                },
                Err(e) => {
                    &&& e == Error::InsufficientBalance
                    &&& !{
                        &&& old(self).allowances_map().contains_key((from, to))
                        &&& amount.value() <= old(self).allow(from, to)
                        &&& old(self).balances_map().contains_key(from)
                        &&& amount.value() <= old(self).bal(from)
                    }
                    &&& *final(self) == *old(self)
                },
            },
    {
        let ai = match find_allow(&self.allowances, from, to) {
            None => {
                proof {
                    lemma_amap_key(self.allowances@, (from, to));
                }
                return Err(Error::InsufficientBalance);
            },
            Some(i) => i,
        };
        proof {
            lemma_amap_at(self.allowances@, ai as int);
        }
        let aval = self.allowances[ai].1.dup();
        let new_allow = match aval.sub(&amount) {
            Err(_) => {
                return Err(Error::InsufficientBalance);
            },
            Ok(x) => x,
        };
        let bi = match find_bal(&self.balances, from) {
            None => {
                proof {
                    lemma_amap_key(self.balances@, from);
                }
                return Err(Error::InsufficientBalance);
            },
            Some(i) => i,
        };
        proof {
            lemma_amap_at(self.balances@, bi as int);
        }
        let bval = self.balances[bi].1.dup();
        let new_bal = match bval.sub(&amount) {
            Err(_) => {
                return Err(Error::InsufficientBalance);
            },
            Ok(x) => x,
        };
        set_bal(&mut self.balances, from, new_bal);
        let tocur = self.balance_of(to);
        let newto = tocur.add(&amount);
        set_bal(&mut self.balances, to, newto);
        set_allow(&mut self.allowances, from, to, new_allow);
        Ok(TransferLog::new(from, to, amount))
    }
}

/// Crediting changes one key by the added amount and nothing else.
pub proof fn lemma_credit_val<K>(m: Map<K, nat>, k: K, v: nat, q: K)
    ensures
        map_val(credit(m, k, v), q) == if q == k {
            map_val(m, k) + v
        } else {
            map_val(m, q)
        },
{
}

/// Debiting a covered amount changes one key by that amount and nothing
/// else.
pub proof fn lemma_debit_val<K>(m: Map<K, nat>, k: K, v: nat, q: K)
    requires
        v <= map_val(m, k),
    ensures
        map_val(debit(m, k, v), q) == if q == k {
            map_val(m, k) - v
        } else {
            map_val(m, q) as int
        },
{
}

/// Minting accumulates additively: two mints to the same actor add both
/// amounts to that balance and change no other balance.
pub proof fn lemma_mint_accumulates(m: Map<u64, nat>, a: u64, v1: nat, v2: nat)
    ensures
        map_val(credit(credit(m, a, v1), a, v2), a) == map_val(m, a) + v1 + v2,
        forall|b: u64|
            b != a ==> map_val(credit(credit(m, a, v1), a, v2), b) == map_val(m, b),
{
    assert forall|b: u64| b != a implies map_val(credit(credit(m, a, v1), a, v2), b) == map_val(
        m,
        b,
    ) by {
        lemma_credit_val(m, a, v1, b);
        lemma_credit_val(credit(m, a, v1), a, v2, b);
    }
}

/// A covered transfer moves exactly `v` between the two parties, keeps
/// their combined holdings, and touches no one else; a self-transfer
/// changes nothing.
pub proof fn lemma_transfer_preserves_sum(m: Map<u64, nat>, from: u64, to: u64, v: nat)
    requires
        v <= map_val(m, from),
    ensures
        ({
            let m2 = credit(debit(m, from, v), to, v);
            &&& from != to ==> map_val(m2, from) + map_val(m2, to) == map_val(m, from) + map_val(
                m,
                to,
            )
            &&& from != to ==> map_val(m2, from) == map_val(m, from) - v
            &&& from != to ==> map_val(m2, to) == map_val(m, to) + v
            &&& from == to ==> map_val(m2, to) == map_val(m, to)
            &&& forall|c: u64| c != from && c != to ==> map_val(m2, c) == map_val(m, c)
        }),
{
    let m1 = debit(m, from, v);
    let m2 = credit(m1, to, v);
    lemma_debit_val(m, from, v, from);
    lemma_debit_val(m, from, v, to);
    lemma_credit_val(m1, to, v, from);
    lemma_credit_val(m1, to, v, to);
    assert forall|c: u64| c != from && c != to implies map_val(m2, c) == map_val(m, c) by {
        lemma_debit_val(m, from, v, c);
        lemma_credit_val(m1, to, v, c);
    }
}

/// Approving is an overwrite, not additive: after two approvals the
/// allowance is the second amount.
pub proof fn lemma_approve_overwrites(m: Map<(u64, u64), nat>, o: u64, sp: u64, v1: nat, v2: nat)
    ensures
        map_val(m.insert((o, sp), v1).insert((o, sp), v2), (o, sp)) == v2,
        forall|p: (u64, u64)|
            p != (o, sp) ==> map_val(m.insert((o, sp), v1).insert((o, sp), v2), p) == map_val(m, p),
{
}

/// An actor who is party to no operation keeps its balance: a fresh map
/// gives zero everywhere, and credits and covered transfers between other
/// parties leave it untouched.
pub proof fn lemma_untouched_balance(m: Map<u64, nat>, from: u64, to: u64, v: nat, a: u64)
    requires
        a != from,
        a != to,
        v <= map_val(m, from),
    ensures
        map_val(Map::<u64, nat>::empty(), a) == 0,
        map_val(credit(m, to, v), a) == map_val(m, a),
        map_val(credit(debit(m, from, v), to, v), a) == map_val(m, a),
{
    lemma_credit_val(m, to, v, a);
    lemma_transfer_preserves_sum(m, from, to, v);
}

/// A covered delegated transfer debits the owner by `v`, credits the
/// spender by `v`, and decrements the consumed allowance by `v`.
pub proof fn lemma_transfer_from_deltas(
    bm: Map<u64, nat>,
    am: Map<(u64, u64), nat>,
    owner: u64,
    spender: u64,
    v: nat,
)
    requires
        v <= map_val(bm, owner),
        v <= map_val(am, (owner, spender)),
        owner != spender,
    ensures
        map_val(credit(debit(bm, owner, v), spender, v), owner) == map_val(bm, owner) - v,
        map_val(credit(debit(bm, owner, v), spender, v), spender) == map_val(bm, spender) + v,
        map_val(
            am.insert((owner, spender), (map_val(am, (owner, spender)) - v) as nat),
            (owner, spender),
        ) == map_val(am, (owner, spender)) - v,
{
    lemma_transfer_preserves_sum(bm, owner, spender, v);
}

} // verus!

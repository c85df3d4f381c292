//! The persistence adapter and the call dispatcher.
//!
//! [`Store`] is the injected block-store interface the host provides: put a
//! block and receive an opaque identifier, get a block by identifier, and
//! read or advance the single root pointer (in the host's store the
//! identifier is a content hash; here it is an opaque handle the store
//! assigns). [`State::save`] and [`State::load`] run the persistence
//! contract against it, and [`invoke`] runs one complete
//! load-operate-save cycle per call: every failure leaves the persisted
//! root exactly as it was.

use vstd::prelude::*;

verus! {

use vstd::bytes::{spec_u64_to_le_bytes, u64_to_le_bytes};

use crate::codec::{
    amodel, append_bytes, bmodel, encode_spec, model_of, model_ok, model_lens_ok, p_model,
    lemma_parse_encode,
};
use crate::state::{amap, credit, debit, map_val, State, Token};
use crate::types::{transfer_log_json, Allowance, Approve, Mint, Transfer, TransferFrom};
use crate::uint256::{be_bytes_of, dec_digits, le_bytes_of, le_val, lemma_canonical_injective, Uint256};
use crate::Error;

/// The block stored under an identifier: the latest entry with it wins.
pub open spec fn lookup_block(s: Seq<(u64, Vec<u8>)>, id: u64) -> Option<Seq<u8>>
    decreases s.len(),
{
    if s.len() == 0 {
        None
    } else if s.last().0 == id {
        Some(s.last().1@)
    } else {
        lookup_block(s.drop_last(), id)
    }
}

/// An injected block store with a single root pointer.
pub struct Store {
    pub blocks: Vec<(u64, Vec<u8>)>,
    pub root: Option<u64>,
    pub next_id: u64,
}

impl Store {
    /// Every stored identifier was assigned below the next one.
    pub open spec fn wf(self) -> bool {
        forall|i: int| 0 <= i < self.blocks@.len() ==> (#[trigger] self.blocks@[i]).0 < self.next_id
    }

    /// An empty store with no root.
    pub fn new() -> (r: Store)
        ensures
            r.wf(),
            r.root is None,
            r.blocks@.len() == 0,
            r.next_id < u64::MAX,
    {
        Store { blocks: Vec::new(), root: None, next_id: 0 }
    }

    /// Stores a block and returns its fresh identifier; no other block and
    /// not the root are touched.
    pub fn put(&mut self, data: Vec<u8>) -> (id: u64)
        requires
            old(self).wf(),
            old(self).next_id < u64::MAX,
        ensures
            final(self).wf(),
            lookup_block(final(self).blocks@, id) == Some(data@),
            forall|other: u64|
                other != id ==> lookup_block(final(self).blocks@, other) == lookup_block(
                    old(self).blocks@,
                    other,
                ),
            final(self).root == old(self).root,
    {
        let id = self.next_id;
        let ghost pre = self.blocks@;
        self.blocks.push((id, data));
        self.next_id = self.next_id + 1;
        proof {
            assert(self.blocks@.drop_last() =~= pre);
            assert(self.blocks@.last() == (id, data));
            assert forall|i: int| 0 <= i < self.blocks@.len() implies (
            #[trigger] self.blocks@[i]).0 < self.next_id by {
                if i < self.blocks@.len() - 1 {
                    assert(self.blocks@[i] == pre[i]);
                }
            }
        }
        id
    }

    /// Fetches the block under an identifier, if any.
    pub fn get(&self, id: u64) -> (r: Option<Vec<u8>>)
        ensures
            match r {
                Some(b) => lookup_block(self.blocks@, id) == Some(b@),
                None => lookup_block(self.blocks@, id) is None,
            },
    {
        let mut i: usize = self.blocks.len();
        proof {
            assert(self.blocks@.take(i as int) =~= self.blocks@);
        }
        while i > 0
            invariant
                i <= self.blocks@.len(),
                lookup_block(self.blocks@, id) == lookup_block(self.blocks@.take(i as int), id),
            decreases i,
        {
            i = i - 1;
            proof {
                let t = self.blocks@.take(i + 1);
                assert(t.last() == self.blocks@[i as int]);
                assert(t.drop_last() =~= self.blocks@.take(i as int));
            }
            if self.blocks[i].0 == id {
                let mut out: Vec<u8> = Vec::new();
                append_bytes(&mut out, &self.blocks[i].1);
                return Some(out);
            }
        }
        proof {
            assert(self.blocks@.take(0) =~= Seq::<(u64, Vec<u8>)>::empty());
        }
        None
    }

    /// Atomically advances the root pointer; blocks are untouched.
    pub fn set_root(&mut self, id: u64)
        requires
            old(self).wf(),
        ensures
            final(self).wf(),
            final(self).root == Some(id),
            final(self).blocks == old(self).blocks,
            final(self).next_id == old(self).next_id,
    {
        self.root = Some(id);
    }

    /// The current root pointer, if one was ever set.
    pub fn root_id(&self) -> (r: Option<u64>)
        ensures
            r == self.root,
    {
        match self.root {
            None => None,
            Some(id) => Some(id),
        }
    }
}

/// The block the root pointer designates, if the pointer is set and the
/// block exists.
pub open spec fn root_block(s: Store) -> Option<Seq<u8>> {
    match s.root {
        None => None,
        Some(id) => lookup_block(s.blocks@, id),
    }
}

/// The parsed model of the root block, when there is one and it parses.
pub open spec fn root_model(s: Store) -> Option<
    ((Seq<u8>, u64, Seq<u8>), Seq<(u64, Seq<u8>)>, Seq<((u64, u64), Seq<u8>)>),
> {
    match root_block(s) {
        None => None,
        Some(b) => p_model(b),
    }
}

/// The root designates a whole, well-shaped ledger snapshot.
pub open spec fn root_ok(s: Store) -> bool {
    &&& root_block(s) is Some
    &&& root_model(s) is Some
    &&& model_ok(root_model(s)->Some_0)
}

/// The balance map a persisted model denotes.
pub open spec fn mmap_bal(ms: Seq<(u64, Seq<u8>)>) -> Map<u64, nat>
    decreases ms.len(),
{
    if ms.len() == 0 {
        Map::empty()
    } else {
        mmap_bal(ms.drop_last()).insert(ms.last().0, le_val(ms.last().1))
    }
}

/// The allowance map a persisted model denotes.
pub open spec fn mmap_allow(ms: Seq<((u64, u64), Seq<u8>)>) -> Map<(u64, u64), nat>
    decreases ms.len(),
{
    if ms.len() == 0 {
        Map::empty()
    } else {
        mmap_allow(ms.drop_last()).insert(ms.last().0, le_val(ms.last().1))
    }
}

/// A ledger's balance map is its model's balance map.
pub proof fn lemma_amap_bmodel(s: Seq<(u64, Uint256)>)
    ensures
        amap(s) == mmap_bal(bmodel(s)),
    decreases s.len(),
{
    if s.len() == 0 {
        assert(bmodel(s) =~= Seq::<(u64, Seq<u8>)>::empty());
    } else {
        lemma_amap_bmodel(s.drop_last());
        assert(bmodel(s).drop_last() =~= bmodel(s.drop_last()));
        assert(bmodel(s).last() == (s.last().0, s.last().1.limbs_view()));
    }
}

/// A ledger's allowance map is its model's allowance map.
pub proof fn lemma_amap_amodel(s: Seq<((u64, u64), Uint256)>)
    ensures
        amap(s) == mmap_allow(amodel(s)),
    decreases s.len(),
{
    if s.len() == 0 {
        assert(amodel(s) =~= Seq::<((u64, u64), Seq<u8>)>::empty());
    } else {
        lemma_amap_amodel(s.drop_last());
        assert(amodel(s).drop_last() =~= amodel(s.drop_last()));
        assert(amodel(s).last() == (s.last().0, s.last().1.limbs_view()));
    }
}

/// A well-formed ledger's model is well shaped, and its fields fit the
/// codec's 64-bit length prefixes.
pub proof fn lemma_model_of_ok(st: State)
    requires
        st.wf(),
    ensures
        model_ok(model_of(st)),
        model_lens_ok(model_of(st)),
{
    let m = model_of(st);
    assert forall|i: int| 0 <= i < m.1.len() implies crate::uint256::canonical(
        (#[trigger] m.1[i]).1,
    ) && (#[trigger] m.1[i]).1.len() < 0x1_0000_0000_0000_0000 by {
        assert(m.1[i] == (st.balances@[i].0, st.balances@[i].1.limbs_view()));
        assert(st.balances@[i].1.wf());
        assert(st.balances@[i].1.limbs.len() == st.balances@[i].1.limbs@.len());
    }
    assert forall|i: int| 0 <= i < m.2.len() implies crate::uint256::canonical(
        (#[trigger] m.2[i]).1,
    ) && (#[trigger] m.2[i]).1.len() < 0x1_0000_0000_0000_0000 by {
        assert(m.2[i] == (st.allowances@[i].0, st.allowances@[i].1.limbs_view()));
        assert(st.allowances@[i].1.wf());
        assert(st.allowances@[i].1.limbs.len() == st.allowances@[i].1.limbs@.len());
    }
    assert forall|i: int, j: int| 0 <= i < j < m.1.len() implies (#[trigger] m.1[i]).0 != (
    #[trigger] m.1[j]).0 by {
        assert(m.1[i].0 == st.balances@[i].0);
        assert(m.1[j].0 == st.balances@[j].0);
    }
    assert forall|i: int, j: int| 0 <= i < j < m.2.len() implies (#[trigger] m.2[i]).0 != (
    #[trigger] m.2[j]).0 by {
        assert(m.2[i].0 == st.allowances@[i].0);
        assert(m.2[j].0 == st.allowances@[j].0);
    }
    assert(st.token.symbol.len() == st.token.symbol@.len());
    assert(st.token.total_supply.limbs.len() == st.token.total_supply.limbs@.len());
    assert(st.balances.len() == st.balances@.len());
    assert(st.allowances.len() == st.allowances@.len());
}

/// A persisted snapshot determines the ledger it came from: two ledgers
/// with the same model have the same token metadata, balance map, and
/// allowance map, so loading what save wrote reproduces all three.
pub proof fn lemma_snapshot_determines_ledger(a: State, b: State)
    requires
        model_of(a) == model_of(b),
    ensures
        a.balances_map() == b.balances_map(),
        a.allowances_map() == b.allowances_map(),
        a.token.symbol@ == b.token.symbol@,
        a.token.decimal == b.token.decimal,
        a.token.total_supply.limbs_view() == b.token.total_supply.limbs_view(),
{
    lemma_amap_bmodel(a.balances@);
    lemma_amap_bmodel(b.balances@);
    lemma_amap_amodel(a.allowances@);
    lemma_amap_amodel(b.allowances@);
}

impl State {
    /// Serializes the ledger, stores the block, and advances the root to
    /// it: afterwards the root designates exactly this ledger's snapshot,
    /// and no other block changed.
    pub fn save(&self, store: &mut Store) -> (id: u64)
        requires
            self.wf(),
            old(store).wf(),
            old(store).next_id < u64::MAX,
        ensures
            final(store).wf(),
            final(store).root == Some(id),
            root_block(*final(store)) == Some(encode_spec(*self)),
            root_model(*final(store)) == Some(model_of(*self)),
            root_ok(*final(store)),
    {
        let bytes = self.encode();
        let id = store.put(bytes);
        store.set_root(id);
        proof {
            lemma_model_of_ok(*self);
            lemma_parse_encode(model_of(*self));
        }
        id
    }

    /// Reads the root pointer, fetches the designated block, and decodes
    /// it. `IllegalState` when the root is unset or the block is missing;
    /// `SerializationFailure` when the block is not a whole, well-shaped
    /// snapshot; otherwise the ledger the root designates.
    pub fn load(store: &Store) -> (r: Result<State, Error>)
        ensures
            match r {
                Ok(st) => {
                    &&& st.wf()
                    &&& root_ok(*store)
                    &&& root_model(*store) == Some(model_of(st))
                },
                Err(e) => {
                    &&& !root_ok(*store)
                    &&& (e == Error::IllegalState <==> root_block(*store) is None)
                    &&& (e == Error::SerializationFailure <==> root_block(*store) is Some)
                },
            },
    {
        let id = match store.root_id() {
            None => {
                return Err(Error::IllegalState);
            },
            Some(id) => id,
        };
        let block = match store.get(id) {
            None => {
                return Err(Error::IllegalState);
            },
            Some(b) => b,
        };
        match State::decode(block.as_slice()) {
            Err(_) => Err(Error::SerializationFailure),
            Ok(st) => Ok(st),
        }
    }
}

/// The big-endian form of a 64-bit integer.
pub open spec fn be_u64(x: u64) -> Seq<u8> {
    spec_u64_to_le_bytes(x).reverse()
}

/// The big-endian byte form of a magnitude given as little-endian limbs.
pub open spec fn be_form(limbs: Seq<u8>) -> Seq<u8> {
    if limbs.len() == 0 {
        seq![0u8]
    } else {
        limbs.reverse()
    }
}

/// Writes an integer as its 8 big-endian bytes.
fn u64_to_be_bytes(x: u64) -> (r: Vec<u8>)
    ensures
        r@ == be_u64(x),
{
    let le = u64_to_le_bytes(x);
    let mut out: Vec<u8> = Vec::new();
    let mut i: usize = le.len();
    while i > 0
        invariant
            i <= le@.len(),
            out@.len() == le@.len() - i,
            forall|j: int| 0 <= j < out@.len() ==> out@[j] == le@[le@.len() - 1 - j],
        decreases i,
    {
        i = i - 1;
        out.push(le[i]);
    }
    proof {
        assert(out@ =~= le@.reverse());
    }
    out
}

/// One call into the ledger: the operation and its plain inputs. The
/// caller's identity arrives separately, resolved by the host.
pub enum MethodCall {
    Constructor(Token),
    Mint(Mint),
    BalanceOf,
    Allowance(Allowance),
    TransferFrom(TransferFrom),
    Transfer(Transfer),
    Approve(Approve),
    Symbol,
    Decimal,
    TotalSupply,
}

/// The amounts a call carries are canonical.
pub open spec fn call_wf(call: MethodCall) -> bool {
    match call {
        MethodCall::Constructor(t) => t.wf(),
        MethodCall::Mint(m) => m.amount.wf(),
        MethodCall::TransferFrom(t) => t.amount.wf(),
        MethodCall::Transfer(t) => t.amount.wf(),
        MethodCall::Approve(a) => a.amount.wf(),
        _ => true,
    }
}

/// The dispatch table, call to number.
pub open spec fn method_number_spec(call: MethodCall) -> u64 {
    match call {
        MethodCall::Constructor(_) => 1,
        MethodCall::Mint(_) => 2,
        MethodCall::BalanceOf => 3,
        MethodCall::Allowance(_) => 4,
        MethodCall::TransferFrom(_) => 5,
        MethodCall::Transfer(_) => 6,
        MethodCall::Approve(_) => 7,
        MethodCall::Symbol => 8,
        MethodCall::Decimal => 9,
        MethodCall::TotalSupply => 10,
    }
}

/// The dispatch table, call to number.
pub fn method_number(call: &MethodCall) -> (r: u64)
    ensures
        r == method_number_spec(*call),
{
    match call {
        MethodCall::Constructor(_) => 1,
        MethodCall::Mint(_) => 2,
        MethodCall::BalanceOf => 3,
        MethodCall::Allowance(_) => 4,
        MethodCall::TransferFrom(_) => 5,
        MethodCall::Transfer(_) => 6,
        MethodCall::Approve(_) => 7,
        MethodCall::Symbol => 8,
        MethodCall::Decimal => 9,
        MethodCall::TotalSupply => 10,
    }
}

/// The operation a method number names, without its inputs.
pub enum MethodKind {
    Constructor,
    Mint,
    BalanceOf,
    Allowance,
    TransferFrom,
    Transfer,
    Approve,
    Symbol,
    Decimal,
    TotalSupply,
}

/// The dispatch table, number to operation: numbers outside it fail with
/// `UnhandledMethod`.
pub fn method_for(n: u64) -> (r: Result<MethodKind, Error>)
    ensures
        match r {
            Ok(k) => 1 <= n <= 10 && match k {
                MethodKind::Constructor => n == 1,
                MethodKind::Mint => n == 2,
                MethodKind::BalanceOf => n == 3,
                MethodKind::Allowance => n == 4,
                MethodKind::TransferFrom => n == 5,
                MethodKind::Transfer => n == 6,
                MethodKind::Approve => n == 7,
                MethodKind::Symbol => n == 8,
                MethodKind::Decimal => n == 9,
                MethodKind::TotalSupply => n == 10,
            },
            Err(e) => e == Error::UnhandledMethod && !(1 <= n <= 10),
        },
{
    if n == 1 {
        Ok(MethodKind::Constructor)
    } else if n == 2 {
        Ok(MethodKind::Mint)
    } else if n == 3 {
        Ok(MethodKind::BalanceOf)
    } else if n == 4 {
        Ok(MethodKind::Allowance)
    } else if n == 5 {
        Ok(MethodKind::TransferFrom)
    } else if n == 6 {
        Ok(MethodKind::Transfer)
    } else if n == 7 {
        Ok(MethodKind::Approve)
    } else if n == 8 {
        Ok(MethodKind::Symbol)
    } else if n == 9 {
        Ok(MethodKind::Decimal)
    } else if n == 10 {
        Ok(MethodKind::TotalSupply)
    } else {
        Err(Error::UnhandledMethod)
    }
}

/// The load-failure clauses every non-constructor call shares.
pub open spec fn load_errs(r: Result<Option<Vec<u8>>, Error>, pre: Store) -> bool {
    &&& ((r == Err::<Option<Vec<u8>>, Error>(Error::IllegalState)) <==> root_block(pre) is None)
    &&& ((r == Err::<Option<Vec<u8>>, Error>(Error::SerializationFailure)) <==> (root_block(
        pre,
    ) is Some && !root_ok(pre)))
}

#[verifier::spinoff_prover]
#[verifier::rlimit(50)]
fn run_constructor(store: &mut Store, t: &Token) -> (r: Result<Option<Vec<u8>>, Error>)
    requires
        old(store).wf(),
        old(store).next_id < u64::MAX,
        t.wf(),
    ensures
        final(store).wf(),
        r is Ok,
        r->Ok_0 is None,
        root_ok(*final(store)),
        ({
            let m2 = root_model(*final(store))->Some_0;
            &&& m2.0.0 == t.symbol@
            &&& m2.0.1 == t.decimal
            &&& le_val(m2.0.2) == t.total_supply.value()
            &&& mmap_bal(m2.1) == Map::<u64, nat>::empty()
            &&& mmap_allow(m2.2) == Map::<(u64, u64), nat>::empty()
        }),
{
    let mut sym: Vec<u8> = Vec::new();
    append_bytes(&mut sym, &t.symbol);
    proof {
        assert(sym@ =~= t.symbol@);
    }
    let token = Token { symbol: sym, decimal: t.decimal, total_supply: t.total_supply.dup() };
    let st = State::new(token);
    st.save(store);
    proof {
        lemma_amap_bmodel(st.balances@);
        lemma_amap_amodel(st.allowances@);
    }
    Ok(None)
}

#[verifier::spinoff_prover]
#[verifier::rlimit(50)]
fn run_mint(store: &mut Store, mc: &Mint) -> (r: Result<Option<Vec<u8>>, Error>)
    requires
        old(store).wf(),
        old(store).next_id < u64::MAX,
        mc.amount.wf(),
    ensures
        final(store).wf(),
        r is Err ==> *final(store) == *old(store),
        load_errs(r, *old(store)),
        root_ok(*old(store)) <==> r is Ok,
        r is Ok ==> ({
            let m1 = root_model(*old(store))->Some_0;
            let m2 = root_model(*final(store))->Some_0;
            &&& r->Ok_0 is None
            &&& root_ok(*final(store))
            &&& mmap_bal(m2.1) == credit(mmap_bal(m1.1), mc.actor, mc.amount.value())
            &&& mmap_allow(m2.2) == mmap_allow(m1.2)
            &&& m2.0 == m1.0
        }),
{
    let mut st = match State::load(store) {
        Err(e) => {
            return Err(e);
        },
        Ok(s) => s,
    };
    proof {
        lemma_amap_bmodel(st.balances@);
        lemma_amap_amodel(st.allowances@);
    }
    let _log = st.mint(mc.actor, mc.amount.dup());
    proof {
        lemma_amap_bmodel(st.balances@);
        lemma_amap_amodel(st.allowances@);
    }
    st.save(store);
    Ok(None)
}

#[verifier::spinoff_prover]
#[verifier::rlimit(50)]
fn run_balance_of(store: &mut Store, caller: u64) -> (r: Result<Option<Vec<u8>>, Error>)
    requires
        old(store).wf(),
    ensures
        *final(store) == *old(store),
        load_errs(r, *old(store)),
        root_ok(*old(store)) <==> r is Ok,
        r is Ok ==> ({
            let m1 = root_model(*old(store))->Some_0;
            &&& r->Ok_0 is Some
            &&& r->Ok_0->Some_0@ == dec_digits(map_val(mmap_bal(m1.1), caller))
        }),
{
    let st = match State::load(store) {
        Err(e) => {
            return Err(e);
        },
        Ok(s) => s,
    };
    proof {
        lemma_amap_bmodel(st.balances@);
    }
    let bal = st.balance_of(caller);
    Ok(Some(bal.to_decimal()))
}

#[verifier::spinoff_prover]
#[verifier::rlimit(50)]
fn run_allowance(store: &mut Store, al: &Allowance) -> (r: Result<Option<Vec<u8>>, Error>)
    requires
        old(store).wf(),
    ensures
        *final(store) == *old(store),
        load_errs(r, *old(store)),
        root_ok(*old(store)) <==> r is Ok,
        r is Ok ==> ({
            let m1 = root_model(*old(store))->Some_0;
            &&& r->Ok_0 is Some
            &&& r->Ok_0->Some_0@ == dec_digits(map_val(mmap_allow(m1.2), (al.from, al.to)))
        }),
{
    let st = match State::load(store) {
        Err(e) => {
            return Err(e);
        },
        Ok(s) => s,
    };
    proof {
        lemma_amap_amodel(st.allowances@);
    }
    let x = st.allowance(&al.from, &al.to);
    Ok(Some(x.to_decimal()))
}

/// A delegated transfer is covered when the allowance entry exists and
/// carries enough, and the owner's balance entry exists and carries
/// enough.
pub open spec fn tf_covered(
    m1: ((Seq<u8>, u64, Seq<u8>), Seq<(u64, Seq<u8>)>, Seq<((u64, u64), Seq<u8>)>),
    tf: TransferFrom,
) -> bool {
    &&& mmap_allow(m1.2).contains_key((tf.from, tf.to))
    &&& tf.amount.value() <= map_val(mmap_allow(m1.2), (tf.from, tf.to))
    &&& mmap_bal(m1.1).contains_key(tf.from)
    &&& tf.amount.value() <= map_val(mmap_bal(m1.1), tf.from)
}

#[verifier::spinoff_prover]
#[verifier::rlimit(50)]
fn run_transfer_from(store: &mut Store, tf: &TransferFrom) -> (r: Result<Option<Vec<u8>>, Error>)
    requires
        old(store).wf(),
        old(store).next_id < u64::MAX,
        tf.amount.wf(),
    ensures
        final(store).wf(),
        r is Err ==> *final(store) == *old(store),
        load_errs(r, *old(store)),
        (root_ok(*old(store)) && tf_covered(root_model(*old(store))->Some_0, *tf)) <==> r is Ok,
        (r == Err::<Option<Vec<u8>>, Error>(Error::InsufficientBalance)) <==> (root_ok(
            *old(store),
        ) && !tf_covered(root_model(*old(store))->Some_0, *tf)),
        r is Ok ==> ({
            let m1 = root_model(*old(store))->Some_0;
            let m2 = root_model(*final(store))->Some_0;
            let v = tf.amount.value();
            &&& root_ok(*final(store))
            &&& mmap_bal(m2.1) == credit(debit(mmap_bal(m1.1), tf.from, v), tf.to, v)
            &&& mmap_allow(m2.2) == mmap_allow(m1.2).insert(
                (tf.from, tf.to),
                (map_val(mmap_allow(m1.2), (tf.from, tf.to)) - v) as nat,
            )
            &&& m2.0 == m1.0
            &&& r->Ok_0 is Some
            &&& r->Ok_0->Some_0@ == transfer_log_json(tf.from, tf.to, le_bytes_of(tf.amount))
        }),
{
    let mut st = match State::load(store) {
        Err(e) => {
            return Err(e);
        },
        Ok(s) => s,
    };
    proof {
        lemma_amap_bmodel(st.balances@);
        lemma_amap_amodel(st.allowances@);
    }
    let log = match st.transfer_from(tf.from, tf.to, tf.amount.dup()) {
        Err(e) => {
            return Err(e);
        },
        Ok(log) => log,
    };
    proof {
        lemma_amap_bmodel(st.balances@);
        lemma_amap_amodel(st.allowances@);
        lemma_canonical_injective(log.amount.limbs_view(), tf.amount.limbs_view());
        assert(le_bytes_of(log.amount) == le_bytes_of(tf.amount));
    }
    st.save(store);
    Ok(Some(log.to_bytes()))
}

#[verifier::spinoff_prover]
#[verifier::rlimit(50)]
fn run_transfer(store: &mut Store, caller: u64, t: &Transfer) -> (r: Result<Option<Vec<u8>>, Error>)
    requires
        old(store).wf(),
        old(store).next_id < u64::MAX,
        t.amount.wf(),
    ensures
        final(store).wf(),
        r is Err ==> *final(store) == *old(store),
        load_errs(r, *old(store)),
        (root_ok(*old(store)) && t.amount.value() <= map_val(
            mmap_bal(root_model(*old(store))->Some_0.1),
            caller,
        )) <==> r is Ok,
        (r == Err::<Option<Vec<u8>>, Error>(Error::InsufficientBalance)) <==> (root_ok(
            *old(store),
        ) && t.amount.value() > map_val(mmap_bal(root_model(*old(store))->Some_0.1), caller)),
        r is Ok ==> ({
            let m1 = root_model(*old(store))->Some_0;
            let m2 = root_model(*final(store))->Some_0;
            let v = t.amount.value();
            &&& root_ok(*final(store))
            &&& mmap_bal(m2.1) == credit(debit(mmap_bal(m1.1), caller, v), t.to, v)
            &&& mmap_allow(m2.2) == mmap_allow(m1.2)
            &&& m2.0 == m1.0
            &&& r->Ok_0 is Some
            &&& r->Ok_0->Some_0@ == transfer_log_json(caller, t.to, le_bytes_of(t.amount))
        }),
{
    let mut st = match State::load(store) {
        Err(e) => {
            return Err(e);
        },
        Ok(s) => s,
    };
    proof {
        lemma_amap_bmodel(st.balances@);
        lemma_amap_amodel(st.allowances@);
    }
    let log = match st.transfer(caller, t.to, t.amount.dup()) {
        Err(e) => {
            return Err(e);
        },
        Ok(log) => log,
    };
    proof {
        lemma_amap_bmodel(st.balances@);
        lemma_amap_amodel(st.allowances@);
        lemma_canonical_injective(log.amount.limbs_view(), t.amount.limbs_view());
        assert(le_bytes_of(log.amount) == le_bytes_of(t.amount));
    }
    st.save(store);
    Ok(Some(log.to_bytes()))
}

#[verifier::spinoff_prover]
#[verifier::rlimit(50)]
fn run_approve(store: &mut Store, caller: u64, a: &Approve) -> (r: Result<Option<Vec<u8>>, Error>)
    requires
        old(store).wf(),
        old(store).next_id < u64::MAX,
        a.amount.wf(),
    ensures
        final(store).wf(),
        r is Err ==> *final(store) == *old(store),
        load_errs(r, *old(store)),
        (root_ok(*old(store)) && a.amount.value() <= map_val(
            mmap_bal(root_model(*old(store))->Some_0.1),
            caller,
        )) <==> r is Ok,
        (r == Err::<Option<Vec<u8>>, Error>(Error::InsufficientBalance)) <==> (root_ok(
            *old(store),
        ) && a.amount.value() > map_val(mmap_bal(root_model(*old(store))->Some_0.1), caller)),
        r is Ok ==> ({
            let m1 = root_model(*old(store))->Some_0;
            let m2 = root_model(*final(store))->Some_0;
            &&& root_ok(*final(store))
            &&& r->Ok_0 is None
            &&& mmap_bal(m2.1) == mmap_bal(m1.1)
            &&& mmap_allow(m2.2) == mmap_allow(m1.2).insert((caller, a.actor), a.amount.value())
            &&& m2.0 == m1.0
        }),
{
    let mut st = match State::load(store) {
        Err(e) => {
            return Err(e);
        },
        Ok(s) => s,
    };
    proof {
        lemma_amap_bmodel(st.balances@);
        lemma_amap_amodel(st.allowances@);
    }
    match st.approve(caller, a.actor, a.amount.dup()) {
        Err(e) => {
            return Err(e);
        },
        Ok(_) => {},
    }
    proof {
        lemma_amap_bmodel(st.balances@);
        lemma_amap_amodel(st.allowances@);
    }
    st.save(store);
    Ok(None)
}

#[verifier::spinoff_prover]
#[verifier::rlimit(50)]
fn run_symbol(store: &mut Store) -> (r: Result<Option<Vec<u8>>, Error>)
    requires
        old(store).wf(),
    ensures
        *final(store) == *old(store),
        load_errs(r, *old(store)),
        root_ok(*old(store)) <==> r is Ok,
        r is Ok ==> r->Ok_0 is Some && r->Ok_0->Some_0@ == root_model(*old(store))->Some_0.0.0,
{
    let st = match State::load(store) {
        Err(e) => {
            return Err(e);
        },
        Ok(s) => s,
    };
    Ok(Some(st.symbol()))
}

#[verifier::spinoff_prover]
#[verifier::rlimit(50)]
fn run_decimal(store: &mut Store) -> (r: Result<Option<Vec<u8>>, Error>)
    requires
        old(store).wf(),
    ensures
        *final(store) == *old(store),
        load_errs(r, *old(store)),
        root_ok(*old(store)) <==> r is Ok,
        r is Ok ==> r->Ok_0 is Some && r->Ok_0->Some_0@ == be_u64(root_model(
            *old(store),
        )->Some_0.0.1),
{
    let st = match State::load(store) {
        Err(e) => {
            return Err(e);
        },
        Ok(s) => s,
    };
    Ok(Some(u64_to_be_bytes(st.decimal())))
}

#[verifier::spinoff_prover]
#[verifier::rlimit(50)]
fn run_total_supply(store: &mut Store) -> (r: Result<Option<Vec<u8>>, Error>)
    requires
        old(store).wf(),
    ensures
        *final(store) == *old(store),
        load_errs(r, *old(store)),
        root_ok(*old(store)) <==> r is Ok,
        r is Ok ==> r->Ok_0 is Some && r->Ok_0->Some_0@ == be_form(root_model(
            *old(store),
        )->Some_0.0.2),
{
    let st = match State::load(store) {
        Err(e) => {
            return Err(e);
        },
        Ok(s) => s,
    };
    let supply = st.total_supply();
    proof {
        assert(be_bytes_of(supply) == be_form(model_of(st).0.2));
    }
    Ok(Some(supply.to_bytes_be()))
}

/// Runs one complete call against the persisted ledger: load the snapshot
/// the root designates (the constructor starts fresh instead), apply the
/// operation, and persist the result before answering. Any failure leaves
/// the persisted root exactly as it was, and the response bytes follow the
/// dispatch table: decimal strings for the balance and allowance queries,
/// receipt bytes for the transfers, UTF-8 symbol bytes, 8 big-endian bytes
/// for the decimals, and the big-endian magnitude for the total supply.
#[verifier::rlimit(50)]
pub fn invoke(store: &mut Store, caller: u64, call: &MethodCall) -> (r: Result<
    Option<Vec<u8>>,
    Error,
>)
    requires
        old(store).wf(),
        old(store).next_id < u64::MAX,
        call_wf(*call),
    ensures
        final(store).wf(),
        r is Err ==> *final(store) == *old(store),
        (r == Err::<Option<Vec<u8>>, Error>(Error::IllegalState)) <==> (!(call is Constructor)
            && root_block(*old(store)) is None),
        (r == Err::<Option<Vec<u8>>, Error>(Error::SerializationFailure)) <==> (!(
        call is Constructor) && root_block(*old(store)) is Some && !root_ok(*old(store))),
        match *call {
            MethodCall::Constructor(t) => r is Ok && r->Ok_0 is None && ({
                let m2 = root_model(*final(store))->Some_0;
                &&& root_ok(*final(store))
                &&& m2.0.0 == t.symbol@
                &&& m2.0.1 == t.decimal
                &&& le_val(m2.0.2) == t.total_supply.value()
                &&& mmap_bal(m2.1) == Map::<u64, nat>::empty()
                &&& mmap_allow(m2.2) == Map::<(u64, u64), nat>::empty()
            }),
            MethodCall::Mint(mc) => {
                &&& (root_ok(*old(store)) <==> r is Ok)
                &&& r is Ok ==> ({
                    let m1 = root_model(*old(store))->Some_0;
                    let m2 = root_model(*final(store))->Some_0;
                    &&& r->Ok_0 is None
                    &&& root_ok(*final(store))
                    &&& mmap_bal(m2.1) == credit(mmap_bal(m1.1), mc.actor, mc.amount.value())
                    &&& mmap_allow(m2.2) == mmap_allow(m1.2)
                    &&& m2.0 == m1.0
                })
            },
            MethodCall::BalanceOf => {
                &&& (root_ok(*old(store)) <==> r is Ok)
                &&& r is Ok ==> ({
                    let m1 = root_model(*old(store))->Some_0;
                    &&& *final(store) == *old(store)
                    &&& r->Ok_0 is Some
                    &&& r->Ok_0->Some_0@ == dec_digits(map_val(mmap_bal(m1.1), caller))
                })
            },
            MethodCall::Allowance(al) => {
                &&& (root_ok(*old(store)) <==> r is Ok)
                &&& r is Ok ==> ({
                    let m1 = root_model(*old(store))->Some_0;
                    &&& *final(store) == *old(store)
                    &&& r->Ok_0 is Some
                    &&& r->Ok_0->Some_0@ == dec_digits(map_val(mmap_allow(m1.2), (al.from, al.to)))
                })
            },
            MethodCall::TransferFrom(tf) => {
                &&& ((root_ok(*old(store)) && tf_covered(root_model(*old(store))->Some_0, tf))
                    <==> r is Ok)
                &&& ((r == Err::<Option<Vec<u8>>, Error>(Error::InsufficientBalance)) <==> (
                root_ok(*old(store)) && !tf_covered(root_model(*old(store))->Some_0, tf)))
                &&& r is Ok ==> ({
                    let m1 = root_model(*old(store))->Some_0;
                    let m2 = root_model(*final(store))->Some_0;
                    let v = tf.amount.value();
                    &&& root_ok(*final(store))
                    &&& mmap_bal(m2.1) == credit(debit(mmap_bal(m1.1), tf.from, v), tf.to, v)
                    &&& mmap_allow(m2.2) == mmap_allow(m1.2).insert(
                        (tf.from, tf.to),
                        (map_val(mmap_allow(m1.2), (tf.from, tf.to)) - v) as nat,
                    )
                    &&& m2.0 == m1.0
                    &&& r->Ok_0 is Some
                    &&& r->Ok_0->Some_0@ == transfer_log_json(
                        tf.from,
                        tf.to,
                        le_bytes_of(tf.amount),
                    )
                })
            },
            MethodCall::Transfer(t) => {
                &&& ((root_ok(*old(store)) && t.amount.value() <= map_val(
                    mmap_bal(root_model(*old(store))->Some_0.1),
                    caller,
                )) <==> r is Ok)
                &&& ((r == Err::<Option<Vec<u8>>, Error>(Error::InsufficientBalance)) <==> (
                root_ok(*old(store)) && t.amount.value() > map_val(
                    mmap_bal(root_model(*old(store))->Some_0.1),
                    caller,
                )))
                &&& r is Ok ==> ({
                    let m1 = root_model(*old(store))->Some_0;
                    let m2 = root_model(*final(store))->Some_0;
                    let v = t.amount.value();
                    &&& root_ok(*final(store))
                    &&& mmap_bal(m2.1) == credit(debit(mmap_bal(m1.1), caller, v), t.to, v)
                    &&& mmap_allow(m2.2) == mmap_allow(m1.2)
                    &&& m2.0 == m1.0
                    &&& r->Ok_0 is Some
                    &&& r->Ok_0->Some_0@ == transfer_log_json(caller, t.to, le_bytes_of(t.amount))
                })
            },
            MethodCall::Approve(a) => {
                &&& ((root_ok(*old(store)) && a.amount.value() <= map_val(
                    mmap_bal(root_model(*old(store))->Some_0.1),
                    caller,
                )) <==> r is Ok)
                &&& ((r == Err::<Option<Vec<u8>>, Error>(Error::InsufficientBalance)) <==> (
                root_ok(*old(store)) && a.amount.value() > map_val(
                    mmap_bal(root_model(*old(store))->Some_0.1),
                    caller,
                )))
                &&& r is Ok ==> ({
                    let m1 = root_model(*old(store))->Some_0;
                    let m2 = root_model(*final(store))->Some_0;
                    &&& root_ok(*final(store))
                    &&& r->Ok_0 is None
                    &&& mmap_bal(m2.1) == mmap_bal(m1.1)
                    &&& mmap_allow(m2.2) == mmap_allow(m1.2).insert(
                        (caller, a.actor),
                        a.amount.value(),
                    )
                    &&& m2.0 == m1.0
                })
            },
            MethodCall::Symbol => {
                &&& (root_ok(*old(store)) <==> r is Ok)
                &&& r is Ok ==> *final(store) == *old(store) && r->Ok_0 is Some
                    && r->Ok_0->Some_0@ == root_model(*old(store))->Some_0.0.0
            },
            MethodCall::Decimal => {
                &&& (root_ok(*old(store)) <==> r is Ok)
                &&& r is Ok ==> *final(store) == *old(store) && r->Ok_0 is Some
                    && r->Ok_0->Some_0@ == be_u64(root_model(*old(store))->Some_0.0.1)
            },
            MethodCall::TotalSupply => {
                &&& (root_ok(*old(store)) <==> r is Ok)
                &&& r is Ok ==> *final(store) == *old(store) && r->Ok_0 is Some
                    && r->Ok_0->Some_0@ == be_form(root_model(*old(store))->Some_0.0.2)
            },
        },
{
    match call {
        MethodCall::Constructor(t) => run_constructor(store, t),
        MethodCall::Mint(mc) => run_mint(store, mc),
        MethodCall::BalanceOf => run_balance_of(store, caller),
        MethodCall::Allowance(al) => run_allowance(store, al),
        MethodCall::TransferFrom(tf) => run_transfer_from(store, tf),
        MethodCall::Transfer(t) => run_transfer(store, caller, t),
        MethodCall::Approve(a) => run_approve(store, caller, a),
        MethodCall::Symbol => run_symbol(store),
        MethodCall::Decimal => run_decimal(store),
        MethodCall::TotalSupply => run_total_supply(store),
    }
}

} // verus!
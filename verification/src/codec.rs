//! The persistence codec for the ledger.
//!
//! The persisted root object is the ordered tuple (token, balances,
//! allowances): all integers as 8 little-endian bytes, every byte field
//! length-prefixed, every list count-prefixed, and every amount as its raw
//! little-endian limbs. The encoder writes exactly [`encode_spec`]; the
//! decoder accepts exactly the streams the spec parser [`p_model`] accepts
//! and rejects non-canonical amounts and duplicate keys, so a decoded
//! ledger is well-formed and re-encodes to the same stream.

use vstd::prelude::*;

verus! {

use vstd::bytes::{
    lemma_auto_spec_u64_to_from_le_bytes,
    spec_u64_from_le_bytes,
    spec_u64_to_le_bytes,
    u64_from_le_bytes,
    u64_to_le_bytes,
};
use vstd::slice::slice_subrange;

use crate::state::{State, Token, unique_keys, entries_wf};
use crate::uint256::{canonical, Uint256};
use crate::Error;

/// The shape of a persisted token: symbol bytes, decimals, supply limbs.
pub open spec fn token_model(t: Token) -> (Seq<u8>, u64, Seq<u8>) {
    (t.symbol@, t.decimal, t.total_supply.limbs_view())
}

/// Balance entries as the codec sees them: actor and raw limbs.
pub open spec fn bmodel(s: Seq<(u64, Uint256)>) -> Seq<(u64, Seq<u8>)> {
    s.map_values(|e: (u64, Uint256)| (e.0, e.1.limbs_view()))
}

/// Allowance entries as the codec sees them: key pair and raw limbs.
pub open spec fn amodel(s: Seq<((u64, u64), Uint256)>) -> Seq<((u64, u64), Seq<u8>)> {
    s.map_values(|e: ((u64, u64), Uint256)| (e.0, e.1.limbs_view()))
}

/// The shape of a persisted ledger: token, balance entries as actor/limbs
/// pairs, allowance entries as owner/spender/limbs triples.
pub open spec fn model_of(st: State) -> (
    (Seq<u8>, u64, Seq<u8>),
    Seq<(u64, Seq<u8>)>,
    Seq<((u64, u64), Seq<u8>)>,
) {
    (token_model(st.token), bmodel(st.balances@), amodel(st.allowances@))
}

/// A persisted model is acceptable when every amount is canonical and no
/// key repeats: exactly the shapes well-formed ledgers produce.
pub open spec fn model_ok(
    m: ((Seq<u8>, u64, Seq<u8>), Seq<(u64, Seq<u8>)>, Seq<((u64, u64), Seq<u8>)>),
) -> bool {
    &&& canonical(m.0.2)
    &&& forall|i: int| 0 <= i < m.1.len() ==> canonical((#[trigger] m.1[i]).1)
    &&& forall|i: int| 0 <= i < m.2.len() ==> canonical((#[trigger] m.2[i]).1)
    &&& forall|i: int, j: int| 0 <= i < j < m.1.len() ==> (#[trigger] m.1[i]).0 != (
    #[trigger] m.1[j]).0
    &&& forall|i: int, j: int| 0 <= i < j < m.2.len() ==> (#[trigger] m.2[i]).0 != (
    #[trigger] m.2[j]).0
}

/// An integer as its 8 little-endian bytes.
pub open spec fn enc_u64(x: u64) -> Seq<u8> {
    spec_u64_to_le_bytes(x)
}

/// A byte field with its length prefix.
pub open spec fn enc_bytes(b: Seq<u8>) -> Seq<u8> {
    enc_u64(b.len() as u64) + b
}

/// One balance entry: actor, then the amount's limbs.
pub open spec fn enc_bentry(e: (u64, Seq<u8>)) -> Seq<u8> {
    enc_u64(e.0) + enc_bytes(e.1)
}

/// The balance entries in order.
pub open spec fn enc_bentries(s: Seq<(u64, Seq<u8>)>) -> Seq<u8>
    decreases s.len(),
{
    if s.len() == 0 {
        Seq::empty()
    } else {
        enc_bentries(s.drop_last()) + enc_bentry(s.last())
    }
}

/// One allowance entry: owner, spender, then the amount's limbs.
pub open spec fn enc_aentry(e: ((u64, u64), Seq<u8>)) -> Seq<u8> {
    enc_u64(e.0.0) + enc_u64(e.0.1) + enc_bytes(e.1)
}

/// The allowance entries in order.
pub open spec fn enc_aentries(s: Seq<((u64, u64), Seq<u8>)>) -> Seq<u8>
    decreases s.len(),
{
    if s.len() == 0 {
        Seq::empty()
    } else {
        enc_aentries(s.drop_last()) + enc_aentry(s.last())
    }
}

/// The whole persisted stream of a model.
pub open spec fn enc_model(
    m: ((Seq<u8>, u64, Seq<u8>), Seq<(u64, Seq<u8>)>, Seq<((u64, u64), Seq<u8>)>),
) -> Seq<u8> {
    enc_bytes(m.0.0) + enc_u64(m.0.1) + enc_bytes(m.0.2) + enc_u64(m.1.len() as u64) + enc_bentries(
        m.1,
    ) + enc_u64(m.2.len() as u64) + enc_aentries(m.2)
}

/// The persisted stream of a ledger.
pub open spec fn encode_spec(st: State) -> Seq<u8> {
    enc_model(model_of(st))
}

/// Appends all of `src` to `out`.
pub(crate) fn append_bytes(out: &mut Vec<u8>, src: &Vec<u8>)
    ensures
        final(out)@ == old(out)@ + src@,
{
    let mut i: usize = 0;
    while i < src.len()
        invariant
            i <= src@.len(),
            out@ == old(out)@ + src@.take(i as int),
        decreases src@.len() - i,
    {
        let ghost pre = out@;
        out.push(src[i]);
        proof {
            assert(pre.push(src@[i as int]) =~= old(out)@ + src@.take(i + 1));
        }
        i = i + 1;
    }
    proof {
        assert(src@.take(src@.len() as int) =~= src@);
    }
}

/// Appends an integer as its 8 little-endian bytes.
fn push_u64(out: &mut Vec<u8>, x: u64)
    ensures
        final(out)@ == old(out)@ + enc_u64(x),
{
    let bytes = u64_to_le_bytes(x);
    append_bytes(out, &bytes);
}

/// Appends a length-prefixed byte field.
fn push_bytes_field(out: &mut Vec<u8>, b: &Vec<u8>)
    ensures
        final(out)@ == old(out)@ + enc_bytes(b@),
{
    push_u64(out, b.len() as u64);
    append_bytes(out, b);
    proof {
        assert(old(out)@ + enc_u64(b@.len() as u64) + b@ =~= old(out)@ + enc_bytes(b@));
    }
}

impl State {
    /// Serializes the ledger into its persisted stream.
    pub fn encode(&self) -> (r: Vec<u8>)
        requires
            self.wf(),
        ensures
            r@ == encode_spec(*self),
    {
        let ghost m = model_of(*self);
        let mut out: Vec<u8> = Vec::new();
        push_bytes_field(&mut out, &self.token.symbol);
        push_u64(&mut out, self.token.decimal);
        push_bytes_field(&mut out, &self.token.total_supply.limbs);
        push_u64(&mut out, self.balances.len() as u64);
        let ghost head = out@;
        let mut i: usize = 0;
        while i < self.balances.len()
            invariant
                i <= self.balances@.len(),
                m == model_of(*self),
                head == enc_bytes(m.0.0) + enc_u64(m.0.1) + enc_bytes(m.0.2) + enc_u64(
                    m.1.len() as u64,
                ),
                out@ == head + enc_bentries(m.1.take(i as int)),
            decreases self.balances@.len() - i,
        {
            push_u64(&mut out, self.balances[i].0);
            push_bytes_field(&mut out, &self.balances[i].1.limbs);
            proof {
                assert(m.1.take(i + 1).drop_last() =~= m.1.take(i as int));
                assert(m.1.take(i + 1).last() == m.1[i as int]);
                assert(m.1[i as int] == (self.balances@[i as int].0, self.balances@[
                i as int].1.limbs_view()));
                assert(out@ =~= head + enc_bentries(m.1.take(i + 1)));
            }
            i = i + 1;
        }
        proof {
            assert(m.1.take(m.1.len() as int) =~= m.1);
        }
        push_u64(&mut out, self.allowances.len() as u64);
        let ghost head2 = out@;
        let mut j: usize = 0;
        while j < self.allowances.len()
            invariant
                j <= self.allowances@.len(),
                m == model_of(*self),
                head2 == enc_bytes(m.0.0) + enc_u64(m.0.1) + enc_bytes(m.0.2) + enc_u64(
                    m.1.len() as u64,
                ) + enc_bentries(m.1) + enc_u64(m.2.len() as u64),
                out@ == head2 + enc_aentries(m.2.take(j as int)),
            decreases self.allowances@.len() - j,
        {
            let ghost pre = out@;
            push_u64(&mut out, self.allowances[j].0.0);
            push_u64(&mut out, self.allowances[j].0.1);
            push_bytes_field(&mut out, &self.allowances[j].1.limbs);
            proof {
                assert(m.2.take(j + 1).drop_last() =~= m.2.take(j as int));
                assert(m.2.take(j + 1).last() == m.2[j as int]);
                assert(m.2[j as int] == (self.allowances@[j as int].0, self.allowances@[
                j as int].1.limbs_view()));
                assert(pre + enc_u64(self.allowances@[j as int].0.0) + enc_u64(self.allowances@[
                j as int].0.1) + enc_bytes(self.allowances@[j as int].1.limbs_view()) =~= head2
                    + enc_aentries(m.2.take(j + 1)));
            }
            j = j + 1;
        }
        proof {
            assert(m.2.take(m.2.len() as int) =~= m.2);
            assert(out@ =~= enc_model(m));
        }
        out
    }
}

/// Reads 8 little-endian bytes as an integer.
pub open spec fn p_u64(s: Seq<u8>, i: int) -> Option<(u64, int)> {
    if 0 <= i && i + 8 <= s.len() {
        Some((spec_u64_from_le_bytes(s.subrange(i, i + 8)), i + 8))
    } else {
        None
    }
}

/// Reads a length-prefixed byte field.
pub open spec fn p_bytes(s: Seq<u8>, i: int) -> Option<(Seq<u8>, int)> {
    match p_u64(s, i) {
        None => None,
        Some((n, j)) => if j + n <= s.len() {
            Some((s.subrange(j, j + n), j + n))
        } else {
            None
        },
    }
}

/// Reads `c` balance entries.
pub open spec fn p_bentries(s: Seq<u8>, i: int, c: nat) -> Option<(Seq<(u64, Seq<u8>)>, int)>
    decreases c,
{
    if c == 0 {
        Some((Seq::empty(), i))
    } else {
        match p_u64(s, i) {
            None => None,
            Some((k, j)) => match p_bytes(s, j) {
                None => None,
                Some((b, j2)) => match p_bentries(s, j2, (c - 1) as nat) {
                    None => None,
                    Some((rest, j3)) => Some((seq![(k, b)] + rest, j3)),
                },
            },
        }
    }
}

/// Reads `c` allowance entries.
pub open spec fn p_aentries(s: Seq<u8>, i: int, c: nat) -> Option<(Seq<((u64, u64), Seq<u8>)>, int)>
    decreases c,
{
    if c == 0 {
        Some((Seq::empty(), i))
    } else {
        match p_u64(s, i) {
            None => None,
            Some((o, j)) => match p_u64(s, j) {
                None => None,
                Some((sp, j1)) => match p_bytes(s, j1) {
                    None => None,
                    Some((b, j2)) => match p_aentries(s, j2, (c - 1) as nat) {
                        None => None,
                        Some((rest, j3)) => Some((seq![((o, sp), b)] + rest, j3)),
                    },
                },
            },
        }
    }
}

/// Reads a whole persisted ledger; the stream must be consumed exactly.
pub open spec fn p_model(s: Seq<u8>) -> Option<
    ((Seq<u8>, u64, Seq<u8>), Seq<(u64, Seq<u8>)>, Seq<((u64, u64), Seq<u8>)>),
> {
    match p_bytes(s, 0) {
        None => None,
        Some((sym, i1)) => match p_u64(s, i1) {
            None => None,
            Some((dec, i2)) => match p_bytes(s, i2) {
                None => None,
                Some((sup, i3)) => match p_u64(s, i3) {
                    None => None,
                    Some((bn, i4)) => match p_bentries(s, i4, bn as nat) {
                        None => None,
                        Some((bs, i5)) => match p_u64(s, i5) {
                            None => None,
                            Some((an, i6)) => match p_aentries(s, i6, an as nat) {
                                None => None,
                                Some((aes, i7)) => if i7 == s.len() {
                                    Some(((sym, dec, sup), bs, aes))
                                } else {
                                    None
                                },
                            },
                        },
                    },
                },
            },
        },
    }
}

/// The field lengths and counts a 64-bit prefix can carry.
pub open spec fn model_lens_ok(
    m: ((Seq<u8>, u64, Seq<u8>), Seq<(u64, Seq<u8>)>, Seq<((u64, u64), Seq<u8>)>),
) -> bool {
    &&& m.0.0.len() < 0x1_0000_0000_0000_0000
    &&& m.0.2.len() < 0x1_0000_0000_0000_0000
    &&& m.1.len() < 0x1_0000_0000_0000_0000
    &&& m.2.len() < 0x1_0000_0000_0000_0000
    &&& forall|i: int| 0 <= i < m.1.len() ==> (#[trigger] m.1[i]).1.len() < 0x1_0000_0000_0000_0000
    &&& forall|i: int| 0 <= i < m.2.len() ==> (#[trigger] m.2[i]).1.len() < 0x1_0000_0000_0000_0000
}

proof fn lemma_p_u64_at(s: Seq<u8>, i: int, x: u64)
    requires
        0 <= i,
        i + 8 <= s.len(),
        s.subrange(i, i + 8) == enc_u64(x),
    ensures
        p_u64(s, i) == Some((x, i + 8)),
{
    lemma_auto_spec_u64_to_from_le_bytes();
}

proof fn lemma_p_bytes_at(s: Seq<u8>, i: int, b: Seq<u8>)
    requires
        0 <= i,
        b.len() < 0x1_0000_0000_0000_0000,
        i + 8 + b.len() <= s.len(),
        s.subrange(i, i + 8 + b.len()) == enc_bytes(b),
    ensures
        p_bytes(s, i) == Some((b, i + 8 + b.len())),
{
    lemma_auto_spec_u64_to_from_le_bytes();
    let whole = s.subrange(i, i + 8 + b.len());
    assert(enc_u64(b.len() as u64).len() == 8);
    assert(s.subrange(i, i + 8) =~= whole.subrange(0, 8));
    assert(whole.subrange(0, 8) =~= enc_u64(b.len() as u64));
    lemma_p_u64_at(s, i, b.len() as u64);
    assert((b.len() as u64) as int == b.len() as int);
    assert(s.subrange(i + 8, i + 8 + b.len()) =~= whole.subrange(8, 8 + b.len() as int));
    assert(whole.subrange(8, 8 + b.len() as int) =~= b);
}

proof fn lemma_enc_bentries_head(s: Seq<(u64, Seq<u8>)>)
    requires
        s.len() > 0,
    ensures
        enc_bentries(s) == enc_bentry(s.first()) + enc_bentries(s.drop_first()),
    decreases s.len(),
{
    if s.len() == 1 {
        assert(s.drop_last() =~= Seq::<(u64, Seq<u8>)>::empty());
        assert(s.drop_first() =~= Seq::<(u64, Seq<u8>)>::empty());
        assert(s.first() == s.last());
        assert(enc_bentries(s) =~= enc_bentry(s.first()) + enc_bentries(s.drop_first()));
    } else {
        lemma_enc_bentries_head(s.drop_last());
        assert(s.drop_last().first() == s.first());
        assert(s.drop_last().drop_first() =~= s.drop_first().drop_last());
        assert(s.drop_first().last() == s.last());
        assert(enc_bentries(s.drop_first()) == enc_bentries(s.drop_first().drop_last())
            + enc_bentry(s.last()));
        assert((enc_bentry(s.first()) + enc_bentries(s.drop_first().drop_last())) + enc_bentry(
            s.last(),
        ) =~= enc_bentry(s.first()) + (enc_bentries(s.drop_first().drop_last()) + enc_bentry(
            s.last(),
        )));
    }
}

proof fn lemma_enc_aentries_head(s: Seq<((u64, u64), Seq<u8>)>)
    requires
        s.len() > 0,
    ensures
        enc_aentries(s) == enc_aentry(s.first()) + enc_aentries(s.drop_first()),
    decreases s.len(),
{
    if s.len() == 1 {
        assert(s.drop_last() =~= Seq::<((u64, u64), Seq<u8>)>::empty());
        assert(s.drop_first() =~= Seq::<((u64, u64), Seq<u8>)>::empty());
        assert(s.first() == s.last());
        assert(enc_aentries(s) =~= enc_aentry(s.first()) + enc_aentries(s.drop_first()));
    } else {
        lemma_enc_aentries_head(s.drop_last());
        assert(s.drop_last().first() == s.first());
        assert(s.drop_last().drop_first() =~= s.drop_first().drop_last());
        assert(s.drop_first().last() == s.last());
        assert(enc_aentries(s.drop_first()) == enc_aentries(s.drop_first().drop_last())
            + enc_aentry(s.last()));
        assert((enc_aentry(s.first()) + enc_aentries(s.drop_first().drop_last())) + enc_aentry(
            s.last(),
        ) =~= enc_aentry(s.first()) + (enc_aentries(s.drop_first().drop_last()) + enc_aentry(
            s.last(),
        )));
    }
}

proof fn lemma_p_bentries_at(s: Seq<u8>, i: int, entries: Seq<(u64, Seq<u8>)>)
    requires
        0 <= i,
        i + enc_bentries(entries).len() <= s.len(),
        s.subrange(i, i + enc_bentries(entries).len()) == enc_bentries(entries),
        forall|k: int|
            0 <= k < entries.len() ==> (#[trigger] entries[k]).1.len() < 0x1_0000_0000_0000_0000,
    ensures
        p_bentries(s, i, entries.len()) == Some((entries, i + enc_bentries(entries).len())),
    decreases entries.len(),
{
    if entries.len() == 0 {
        assert(entries =~= Seq::<(u64, Seq<u8>)>::empty());
    } else {
        lemma_enc_bentries_head(entries);
        let e = entries.first();
        let rest = entries.drop_first();
        let whole = s.subrange(i, i + enc_bentries(entries).len());
        let l0 = enc_bentry(e).len();
        let lr = enc_bentries(rest).len();
        assert(enc_u64(e.0).len() == 8 && enc_u64(e.1.len() as u64).len() == 8) by {
            lemma_auto_spec_u64_to_from_le_bytes();
        }
        assert(s.subrange(i, i + 8) =~= enc_u64(e.0)) by {
            assert(s.subrange(i, i + 8) =~= whole.subrange(0, 8));
            assert(whole.subrange(0, 8) =~= enc_u64(e.0));
        }
        lemma_p_u64_at(s, i, e.0);
        assert(s.subrange(i + 8, i + 8 + 8 + e.1.len()) =~= enc_bytes(e.1)) by {
            assert(s.subrange(i + 8, i + 8 + 8 + e.1.len()) =~= whole.subrange(
                8,
                8 + 8 + e.1.len() as int,
            ));
            assert(whole.subrange(8, 8 + 8 + e.1.len() as int) =~= enc_bytes(e.1));
        }
        lemma_p_bytes_at(s, i + 8, e.1);
        let j2 = i + 8 + 8 + e.1.len();
        assert(j2 == i + l0);
        assert(s.subrange(j2, j2 + lr) =~= enc_bentries(rest)) by {
            assert(s.subrange(j2, j2 + lr) =~= whole.subrange(l0 as int, (l0 + lr) as int));
            assert(whole.subrange(l0 as int, (l0 + lr) as int) =~= enc_bentries(rest));
        }
        assert forall|k: int| 0 <= k < rest.len() implies (#[trigger] rest[k]).1.len()
            < 0x1_0000_0000_0000_0000 by {
            assert(rest[k] == entries[k + 1]);
        }
        lemma_p_bentries_at(s, j2, rest);
        assert(seq![(e.0, e.1)] + rest =~= entries);
    }
}

proof fn lemma_p_aentries_at(s: Seq<u8>, i: int, entries: Seq<((u64, u64), Seq<u8>)>)
    requires
        0 <= i,
        i + enc_aentries(entries).len() <= s.len(),
        s.subrange(i, i + enc_aentries(entries).len()) == enc_aentries(entries),
        forall|k: int|
            0 <= k < entries.len() ==> (#[trigger] entries[k]).1.len() < 0x1_0000_0000_0000_0000,
    ensures
        p_aentries(s, i, entries.len()) == Some((entries, i + enc_aentries(entries).len())),
    decreases entries.len(),
{
    if entries.len() == 0 {
        assert(entries =~= Seq::<((u64, u64), Seq<u8>)>::empty());
    } else {
        lemma_enc_aentries_head(entries);
        let e = entries.first();
        let rest = entries.drop_first();
        let whole = s.subrange(i, i + enc_aentries(entries).len());
        let l0 = enc_aentry(e).len();
        let lr = enc_aentries(rest).len();
        assert(enc_u64(e.0.0).len() == 8 && enc_u64(e.0.1).len() == 8 && enc_u64(
            e.1.len() as u64,
        ).len() == 8) by {
            lemma_auto_spec_u64_to_from_le_bytes();
        }
        assert(s.subrange(i, i + 8) =~= enc_u64(e.0.0)) by {
            assert(s.subrange(i, i + 8) =~= whole.subrange(0, 8));
            assert(whole.subrange(0, 8) =~= enc_u64(e.0.0));
        }
        lemma_p_u64_at(s, i, e.0.0);
        assert(s.subrange(i + 8, i + 16) =~= enc_u64(e.0.1)) by {
            assert(s.subrange(i + 8, i + 16) =~= whole.subrange(8, 16));
            assert(whole.subrange(8, 16) =~= enc_u64(e.0.1));
        }
        lemma_p_u64_at(s, i + 8, e.0.1);
        assert(s.subrange(i + 16, i + 16 + 8 + e.1.len()) =~= enc_bytes(e.1)) by {
            assert(s.subrange(i + 16, i + 16 + 8 + e.1.len()) =~= whole.subrange(
                16,
                16 + 8 + e.1.len() as int,
            ));
            assert(whole.subrange(16, 16 + 8 + e.1.len() as int) =~= enc_bytes(e.1));
        }
        lemma_p_bytes_at(s, i + 16, e.1);
        let j2 = i + 16 + 8 + e.1.len();
        assert(j2 == i + l0);
        assert(s.subrange(j2, j2 + lr) =~= enc_aentries(rest)) by {
            assert(s.subrange(j2, j2 + lr) =~= whole.subrange(l0 as int, (l0 + lr) as int));
            assert(whole.subrange(l0 as int, (l0 + lr) as int) =~= enc_aentries(rest));
        }
        assert forall|k: int| 0 <= k < rest.len() implies (#[trigger] rest[k]).1.len()
            < 0x1_0000_0000_0000_0000 by {
            assert(rest[k] == entries[k + 1]);
        }
        lemma_p_aentries_at(s, j2, rest);
        assert(seq![((e.0.0, e.0.1), e.1)] + rest =~= entries);
    }
}

/// Round trip: the spec parser reads back exactly what the encoder wrote.
/// Saving a ledger and loading the stored stream reproduces its token
/// metadata, balance entries, and allowance entries.
pub proof fn lemma_parse_encode(
    m: ((Seq<u8>, u64, Seq<u8>), Seq<(u64, Seq<u8>)>, Seq<((u64, u64), Seq<u8>)>),
)
    requires
        model_lens_ok(m),
    ensures
        p_model(enc_model(m)) == Some(m),
{
    lemma_auto_spec_u64_to_from_le_bytes();
    let s = enc_model(m);
    let l_sym = enc_bytes(m.0.0).len() as int;
    let l_sup = enc_bytes(m.0.2).len() as int;
    let l_bs = enc_bentries(m.1).len() as int;
    let l_as = enc_aentries(m.2).len() as int;
    let i1 = l_sym;
    let i2 = i1 + 8;
    let i3 = i2 + l_sup;
    let i4 = i3 + 8;
    let i5 = i4 + l_bs;
    let i6 = i5 + 8;
    let i7 = i6 + l_as;
    assert(s.len() == i7);
    assert(s.subrange(0, i1) =~= enc_bytes(m.0.0));
    lemma_p_bytes_at(s, 0, m.0.0);
    assert(s.subrange(i1, i2) =~= enc_u64(m.0.1));
    lemma_p_u64_at(s, i1, m.0.1);
    assert(s.subrange(i2, i3) =~= enc_bytes(m.0.2));
    lemma_p_bytes_at(s, i2, m.0.2);
    assert(s.subrange(i3, i4) =~= enc_u64(m.1.len() as u64));
    lemma_p_u64_at(s, i3, m.1.len() as u64);
    assert(s.subrange(i4, i5) =~= enc_bentries(m.1));
    lemma_p_bentries_at(s, i4, m.1);
    assert((m.1.len() as u64) as nat == m.1.len());
    assert(s.subrange(i5, i6) =~= enc_u64(m.2.len() as u64));
    lemma_p_u64_at(s, i5, m.2.len() as u64);
    assert(s.subrange(i6, i7) =~= enc_aentries(m.2));
    lemma_p_aentries_at(s, i6, m.2);
    assert((m.2.len() as u64) as nat == m.2.len());
}

/// Reads 8 little-endian bytes at `pos`, as the spec parser does.
fn read_u64(bytes: &[u8], pos: usize) -> (r: Option<(u64, usize)>)
    ensures
        match r {
            Some(t) => {
                &&& p_u64(bytes@, pos as int) == Some((t.0, t.1 as int))
                &&& t.1 == pos + 8
                &&& t.1 <= bytes@.len()
            },
            None => p_u64(bytes@, pos as int) is None,
        },
{
    if bytes.len() < 8 || pos > bytes.len() - 8 {
        return None;
    }
    let sl = slice_subrange(bytes, pos, pos + 8);
    let x = u64_from_le_bytes(sl);
    Some((x, pos + 8))
}

/// Reads a length-prefixed byte field at `pos`, as the spec parser does.
fn read_bytes_field(bytes: &[u8], pos: usize) -> (r: Option<(Vec<u8>, usize)>)
    ensures
        match r {
            Some(t) => {
                &&& p_bytes(bytes@, pos as int) == Some((t.0@, t.1 as int))
                &&& t.1 <= bytes@.len()
            },
            None => p_bytes(bytes@, pos as int) is None,
        },
{
    let (n, j) = match read_u64(bytes, pos) {
        None => {
            return None;
        },
        Some(t) => t,
    };
    let rem = bytes.len() - j;
    if n > rem as u64 {
        return None;
    }
    let n_us = n as usize;
    let sl = slice_subrange(bytes, j, j + n_us);
    let v = vstd::slice::slice_to_vec(sl);
    Some((v, j + n_us))
}

/// Folds parsed-so-far entries into the pending rest of a balance parse.
pub open spec fn bent_cont(s: Seq<u8>, i: int, c: nat, done: Seq<(u64, Seq<u8>)>) -> Option<
    (Seq<(u64, Seq<u8>)>, int),
> {
    match p_bentries(s, i, c) {
        None => None,
        Some((r, j)) => Some((done + r, j)),
    }
}

/// Folds parsed-so-far entries into the pending rest of an allowance parse.
pub open spec fn aent_cont(s: Seq<u8>, i: int, c: nat, done: Seq<((u64, u64), Seq<u8>)>) -> Option<
    (Seq<((u64, u64), Seq<u8>)>, int),
> {
    match p_aentries(s, i, c) {
        None => None,
        Some((r, j)) => Some((done + r, j)),
    }
}

impl State {
    /// Deserializes a persisted stream. Returns `SerializationFailure`
    /// exactly when the stream is not a whole, well-shaped encoding: when
    /// the spec parser rejects it, or an amount is not canonical, or a key
    /// repeats. A decoded ledger is well-formed and re-encodes to the
    /// parsed model.
    pub fn decode(bytes: &[u8]) -> (r: Result<State, Error>)
        ensures
            match r {
                Ok(st) => {
                    &&& st.wf()
                    &&& p_model(bytes@) == Some(model_of(st))
                    &&& model_ok(model_of(st))
                },
                Err(e) => {
                    &&& e == Error::SerializationFailure
                    &&& match p_model(bytes@) {
                        None => true,
                        Some(m) => !model_ok(m),
                    }
                },
            },
    {
        let (sym, i1) = match read_bytes_field(bytes, 0) {
            None => {
                return Err(Error::SerializationFailure);
            },
            Some(t) => t,
        };
        let (dec, i2) = match read_u64(bytes, i1) {
            None => {
                return Err(Error::SerializationFailure);
            },
            Some(t) => t,
        };
        let (sup, i3) = match read_bytes_field(bytes, i2) {
            None => {
                return Err(Error::SerializationFailure);
            },
            Some(t) => t,
        };
        if sup.len() > 0 && sup[sup.len() - 1] == 0 {
            return Err(Error::SerializationFailure);
        }
        proof {
            assert(canonical(sup@));
        }
        let (bn, i4) = match read_u64(bytes, i3) {
            None => {
                return Err(Error::SerializationFailure);
            },
            Some(t) => t,
        };
        let mut bals: Vec<(u64, Uint256)> = Vec::new();
        let mut pos: usize = i4;
        let mut k: u64 = 0;
        proof {
            assert(bmodel(bals@) =~= Seq::<(u64, Seq<u8>)>::empty());
        }
        while k < bn
            invariant
                k <= bn,
                pos <= bytes@.len(),
                bals@.len() == k,
                unique_keys(bals@),
                entries_wf(bals@),
                bmodel(bals@).len() == k,
                forall|x: int|
                    0 <= x < k ==> (#[trigger] bmodel(bals@)[x]) == (
                bals@[x].0, bals@[x].1.limbs_view()),
                p_bytes(bytes@, 0) == Some((sym@, i1 as int)),
                p_u64(bytes@, i1 as int) == Some((dec, i2 as int)),
                p_bytes(bytes@, i2 as int) == Some((sup@, i3 as int)),
                canonical(sup@),
                p_u64(bytes@, i3 as int) == Some((bn, i4 as int)),
                p_bentries(bytes@, i4 as int, bn as nat) == bent_cont(
                    bytes@,
                    pos as int,
                    (bn - k) as nat,
                    bmodel(bals@),
                ),
            decreases bn - k,
        {
            let ghost done = bmodel(bals@);
            let (key, p1) = match read_u64(bytes, pos) {
                None => {
                    return Err(Error::SerializationFailure);
                },
                Some(t) => t,
            };
            let (limbs, p2) = match read_bytes_field(bytes, p1) {
                None => {
                    return Err(Error::SerializationFailure);
                },
                Some(t) => t,
            };
            proof {
                if p_bentries(bytes@, pos as int, (bn - k) as nat) is Some {
                    let inner = p_bentries(bytes@, p2 as int, (bn - k - 1) as nat);
                    assert(inner is Some);
                }
            }
            if limbs.len() > 0 && limbs[limbs.len() - 1] == 0 {
                proof {
                    lemma_decode_abort_bal(bytes@, i4 as int, bn, k, pos as int, done, key, limbs@, p2 as int);
                    if p_model(bytes@) is Some {
                        let m = p_model(bytes@)->Some_0;
                        assert(m.1[k as int] == (key, limbs@));
                        assert(!canonical(m.1[k as int].1));
                    }
                }
                return Err(Error::SerializationFailure);
            }
            let dup = match crate::state::find_bal(&bals, key) {
                Some(_) => true,
                None => false,
            };
            if dup {
                proof {
                    lemma_decode_abort_bal(bytes@, i4 as int, bn, k, pos as int, done, key, limbs@, p2 as int);
                    if p_model(bytes@) is Some {
                        let m = p_model(bytes@)->Some_0;
                        assert(m.1[k as int] == (key, limbs@));
                        let x = choose|x: int| 0 <= x < bals@.len() && (#[trigger] bals@[x]).0 == key;
                        assert(m.1[x] == (bals@[x].0, bals@[x].1.limbs_view()));
                        assert(m.1[x].0 == m.1[k as int].0);
                    }
                }
                return Err(Error::SerializationFailure);
            }
            let ghost prebals = bals@;
            bals.push((key, Uint256 { limbs }));
            proof {
                assert(bals@ == prebals.push((key, Uint256 { limbs: limbs }))) by {
                    assert(bals@ =~= prebals.push((key, Uint256 { limbs: limbs })));
                }
                assert(bmodel(bals@) =~= done.push((key, limbs@)));
                assert forall|a: int, b: int|
                    0 <= a < b < bals@.len() implies (#[trigger] bals@[a]).0 != (
                #[trigger] bals@[b]).0 by {
                    if b < bals@.len() - 1 {
                        assert(bals@[a] == prebals[a]);
                        assert(bals@[b] == prebals[b]);
                    } else {
                        assert(bals@[a] == prebals[a]);
                    }
                }
                assert forall|x: int| 0 <= x < bals@.len() implies (#[trigger] bals@[x]).1.wf() by {
                    if x < bals@.len() - 1 {
                        assert(bals@[x] == prebals[x]);
                    }
                }
                lemma_bent_cont_step(bytes@, i4 as int, bn, k, pos as int, done, key, limbs@, p2 as int);
            }
            pos = p2;
            k = k + 1;
        }
        proof {
            assert(p_bentries(bytes@, pos as int, 0) == Some((Seq::<(u64, Seq<u8>)>::empty(), pos as int)));
            assert(bmodel(bals@) + Seq::<(u64, Seq<u8>)>::empty() =~= bmodel(bals@));
            assert(p_bentries(bytes@, i4 as int, bn as nat) == Some((bmodel(bals@), pos as int)));
        }
        let i5 = pos;
        let ghost bdone = bmodel(bals@);
        let (an, i6) = match read_u64(bytes, i5) {
            None => {
                return Err(Error::SerializationFailure);
            },
            Some(t) => t,
        };
        let mut allows: Vec<((u64, u64), Uint256)> = Vec::new();
        let mut apos: usize = i6;
        let mut q: u64 = 0;
        proof {
            assert(amodel(allows@) =~= Seq::<((u64, u64), Seq<u8>)>::empty());
        }
        while q < an
            invariant
                q <= an,
                apos <= bytes@.len(),
                allows@.len() == q,
                unique_keys(allows@),
                entries_wf(allows@),
                amodel(allows@).len() == q,
                forall|x: int|
                    0 <= x < q ==> (#[trigger] amodel(allows@)[x]) == (
                allows@[x].0, allows@[x].1.limbs_view()),
                p_bytes(bytes@, 0) == Some((sym@, i1 as int)),
                p_u64(bytes@, i1 as int) == Some((dec, i2 as int)),
                p_bytes(bytes@, i2 as int) == Some((sup@, i3 as int)),
                canonical(sup@),
                p_u64(bytes@, i3 as int) == Some((bn, i4 as int)),
                p_bentries(bytes@, i4 as int, bn as nat) == Some((bdone, i5 as int)),
                bdone == bmodel(bals@),
                unique_keys(bals@),
                entries_wf(bals@),
                p_u64(bytes@, i5 as int) == Some((an, i6 as int)),
                p_aentries(bytes@, i6 as int, an as nat) == aent_cont(
                    bytes@,
                    apos as int,
                    (an - q) as nat,
                    amodel(allows@),
                ),
            decreases an - q,
        {
            let ghost done = amodel(allows@);
            let (owner, p0) = match read_u64(bytes, apos) {
                None => {
                    return Err(Error::SerializationFailure);
                },
                Some(t) => t,
            };
            let (spender, p1) = match read_u64(bytes, p0) {
                None => {
                    return Err(Error::SerializationFailure);
                },
                Some(t) => t,
            };
            let (limbs, p2) = match read_bytes_field(bytes, p1) {
                None => {
                    return Err(Error::SerializationFailure);
                },
                Some(t) => t,
            };
            if limbs.len() > 0 && limbs[limbs.len() - 1] == 0 {
                proof {
                    lemma_decode_abort_allow(bytes@, i6 as int, an, q, apos as int, done, owner, spender, limbs@, p2 as int);
                    if p_model(bytes@) is Some {
                        let m = p_model(bytes@)->Some_0;
                        assert(m.2[q as int] == ((owner, spender), limbs@));
                        assert(!canonical(m.2[q as int].1));
                    }
                }
                return Err(Error::SerializationFailure);
            }
            let dup = match crate::state::find_allow(&allows, owner, spender) {
                Some(_) => true,
                None => false,
            };
            if dup {
                proof {
                    lemma_decode_abort_allow(bytes@, i6 as int, an, q, apos as int, done, owner, spender, limbs@, p2 as int);
                    if p_model(bytes@) is Some {
                        let m = p_model(bytes@)->Some_0;
                        assert(m.2[q as int] == ((owner, spender), limbs@));
                        let x = choose|x: int|
                            0 <= x < allows@.len() && (#[trigger] allows@[x]).0 == (owner, spender);
                        assert(m.2[x] == (allows@[x].0, allows@[x].1.limbs_view()));
                        assert(m.2[x].0 == m.2[q as int].0);
                    }
                }
                return Err(Error::SerializationFailure);
            }
            let ghost preallows = allows@;
            allows.push(((owner, spender), Uint256 { limbs }));
            proof {
                assert(allows@ =~= preallows.push(((owner, spender), Uint256 { limbs: limbs })));
                assert(amodel(allows@) =~= done.push(((owner, spender), limbs@)));
                assert forall|a: int, b: int|
                    0 <= a < b < allows@.len() implies (#[trigger] allows@[a]).0 != (
                #[trigger] allows@[b]).0 by {
                    if b < allows@.len() - 1 {
                        assert(allows@[a] == preallows[a]);
                        assert(allows@[b] == preallows[b]);
                    } else {
                        assert(allows@[a] == preallows[a]);
                    }
                }
                assert forall|x: int| 0 <= x < allows@.len() implies (
                #[trigger] allows@[x]).1.wf() by {
                    if x < allows@.len() - 1 {
                        assert(allows@[x] == preallows[x]);
                    }
                }
                lemma_aent_cont_step(bytes@, i6 as int, an, q, apos as int, done, owner, spender, limbs@, p2 as int);
            }
            apos = p2;
            q = q + 1;
        }
        proof {
            assert(p_aentries(bytes@, apos as int, 0) == Some(
                (Seq::<((u64, u64), Seq<u8>)>::empty(), apos as int),
            ));
            assert(amodel(allows@) + Seq::<((u64, u64), Seq<u8>)>::empty() =~= amodel(allows@));
            assert(p_aentries(bytes@, i6 as int, an as nat) == Some((amodel(allows@), apos as int)));
        }
        if apos != bytes.len() {
            return Err(Error::SerializationFailure);
        }
        let st = State {
            token: Token { symbol: sym, decimal: dec, total_supply: Uint256 { limbs: sup } },
            balances: bals,
            allowances: allows,
        };
        proof {
            assert(model_of(st) == ((sym@, dec, sup@), bmodel(st.balances@), amodel(st.allowances@)));
            assert(p_model(bytes@) == Some(model_of(st)));
        }
        Ok(st)
    }
}

/// One successful entry read advances the balance continuation by one.
proof fn lemma_bent_cont_step(
    s: Seq<u8>,
    i4: int,
    bn: u64,
    k: u64,
    pos: int,
    done: Seq<(u64, Seq<u8>)>,
    key: u64,
    limbs: Seq<u8>,
    p2: int,
)
    requires
        k < bn,
        p_u64(s, pos) is Some,
        p_u64(s, pos)->Some_0.0 == key,
        p_bytes(s, p_u64(s, pos)->Some_0.1) == Some((limbs, p2)),
        p_bentries(s, i4, bn as nat) == bent_cont(s, pos, (bn - k) as nat, done),
    ensures
        p_bentries(s, i4, bn as nat) == bent_cont(
            s,
            p2,
            (bn - k - 1) as nat,
            done.push((key, limbs)),
        ),
{
    let c = (bn - k) as nat;
    match p_bentries(s, p2, (c - 1) as nat) {
        None => {
            assert(p_bentries(s, pos, c) is None);
        },
        Some((rest, j3)) => {
            assert(p_bentries(s, pos, c) == Some((seq![(key, limbs)] + rest, j3)));
            assert(done + (seq![(key, limbs)] + rest) =~= done.push((key, limbs)) + rest);
        },
    }
}

/// One successful entry read advances the allowance continuation by one.
proof fn lemma_aent_cont_step(
    s: Seq<u8>,
    i6: int,
    an: u64,
    q: u64,
    pos: int,
    done: Seq<((u64, u64), Seq<u8>)>,
    owner: u64,
    spender: u64,
    limbs: Seq<u8>,
    p2: int,
)
    requires
        q < an,
        p_u64(s, pos) is Some,
        p_u64(s, pos)->Some_0.0 == owner,
        p_u64(s, p_u64(s, pos)->Some_0.1) is Some,
        p_u64(s, p_u64(s, pos)->Some_0.1)->Some_0.0 == spender,
        p_bytes(s, p_u64(s, p_u64(s, pos)->Some_0.1)->Some_0.1) == Some((limbs, p2)),
        p_aentries(s, i6, an as nat) == aent_cont(s, pos, (an - q) as nat, done),
    ensures
        p_aentries(s, i6, an as nat) == aent_cont(
            s,
            p2,
            (an - q - 1) as nat,
            done.push(((owner, spender), limbs)),
        ),
{
    let c = (an - q) as nat;
    match p_aentries(s, p2, (c - 1) as nat) {
        None => {
            assert(p_aentries(s, pos, c) is None);
        },
        Some((rest, j3)) => {
            assert(p_aentries(s, pos, c) == Some((seq![((owner, spender), limbs)] + rest, j3)));
            assert(done + (seq![((owner, spender), limbs)] + rest) =~= done.push(
                ((owner, spender), limbs),
            ) + rest);
        },
    }
}

/// When the whole balance list parses, the entry the decoder is looking at
/// is the next element of the parsed list.
proof fn lemma_decode_abort_bal(
    s: Seq<u8>,
    i4: int,
    bn: u64,
    k: u64,
    pos: int,
    done: Seq<(u64, Seq<u8>)>,
    key: u64,
    limbs: Seq<u8>,
    p2: int,
)
    requires
        k < bn,
        done.len() == k,
        p_u64(s, pos) is Some,
        p_u64(s, pos)->Some_0.0 == key,
        p_bytes(s, p_u64(s, pos)->Some_0.1) == Some((limbs, p2)),
        p_bentries(s, i4, bn as nat) == bent_cont(s, pos, (bn - k) as nat, done),
    ensures
        p_bentries(s, i4, bn as nat) is Some ==> {
            let full = p_bentries(s, i4, bn as nat)->Some_0.0;
            &&& full.len() >= k + 1
            &&& full[k as int] == (key, limbs)
            &&& forall|x: int| 0 <= x < k ==> full[x] == done[x]
        },
{
    let c = (bn - k) as nat;
    if p_bentries(s, i4, bn as nat) is Some {
        assert(p_bentries(s, pos, c) is Some);
        let inner = p_bentries(s, p2, (c - 1) as nat);
        assert(inner is Some);
        let rest = inner->Some_0.0;
        assert(p_bentries(s, pos, c)->Some_0.0 == seq![(key, limbs)] + rest);
        let full = p_bentries(s, i4, bn as nat)->Some_0.0;
        assert(full == done + (seq![(key, limbs)] + rest));
        assert(full[k as int] == (key, limbs));
        assert forall|x: int| 0 <= x < k implies full[x] == done[x] by {
        }
    }
}

/// When the whole allowance list parses, the entry the decoder is looking
/// at is the next element of the parsed list.
proof fn lemma_decode_abort_allow(
    s: Seq<u8>,
    i6: int,
    an: u64,
    q: u64,
    pos: int,
    done: Seq<((u64, u64), Seq<u8>)>,
    owner: u64,
    spender: u64,
    limbs: Seq<u8>,
    p2: int,
)
    requires
        q < an,
        done.len() == q,
        p_u64(s, pos) is Some,
        p_u64(s, pos)->Some_0.0 == owner,
        p_u64(s, p_u64(s, pos)->Some_0.1) is Some,
        p_u64(s, p_u64(s, pos)->Some_0.1)->Some_0.0 == spender,
        p_bytes(s, p_u64(s, p_u64(s, pos)->Some_0.1)->Some_0.1) == Some((limbs, p2)),
        p_aentries(s, i6, an as nat) == aent_cont(s, pos, (an - q) as nat, done),
    ensures
        p_aentries(s, i6, an as nat) is Some ==> {
            let full = p_aentries(s, i6, an as nat)->Some_0.0;
            &&& full.len() >= q + 1
            &&& full[q as int] == ((owner, spender), limbs)
            &&& forall|x: int| 0 <= x < q ==> full[x] == done[x]
        },
{
    let c = (an - q) as nat;
    if p_aentries(s, i6, an as nat) is Some {
        assert(p_aentries(s, pos, c) is Some);
        let inner = p_aentries(s, p2, (c - 1) as nat);
        assert(inner is Some);
        let rest = inner->Some_0.0;
        assert(p_aentries(s, pos, c)->Some_0.0 == seq![((owner, spender), limbs)] + rest);
        let full = p_aentries(s, i6, an as nat)->Some_0.0;
        assert(full == done + (seq![((owner, spender), limbs)] + rest));
        assert(full[q as int] == ((owner, spender), limbs));
    }
}

} // verus!

//! Arbitrary-precision non-negative integers.
//!
//! A [`Uint256`] holds a little-endian sequence of base-256 limbs with no
//! trailing zero limb, so every value has exactly one representation. The
//! type offers addition, checked subtraction, ordering, big-endian and
//! little-endian byte conversions, and decimal conversions. Contracts are
//! stated over the mathematical value [`le_val`] of the limb sequence.

use vstd::prelude::*;

verus! {

use core::cmp::Ordering;
use vstd::std_specs::cmp::PartialOrdSpec;

use crate::Error;

/// 256 raised to the power `n`.
pub open spec fn pow256(n: nat) -> nat
    decreases n,
{
    if n == 0 {
        1
    } else {
        256 * pow256((n - 1) as nat)
    }
}

/// The numeric value of a little-endian base-256 limb sequence.
pub open spec fn le_val(s: Seq<u8>) -> nat
    decreases s.len(),
{
    if s.len() == 0 {
        0
    } else {
        le_val(s.drop_last()) + (s.last() as nat) * pow256((s.len() - 1) as nat)
    }
}

/// A limb sequence is canonical when it has no trailing zero limb.
pub open spec fn canonical(s: Seq<u8>) -> bool {
    s.len() == 0 || s.last() != 0
}

/// `s` with its trailing zero limbs removed.
pub open spec fn trim(s: Seq<u8>) -> Seq<u8>
    decreases s.len(),
{
    if s.len() > 0 && s.last() == 0 {
        trim(s.drop_last())
    } else {
        s
    }
}

pub proof fn lemma_pow256_pos(n: nat)
    ensures
        pow256(n) >= 1,
    decreases n,
{
    if n > 0 {
        lemma_pow256_pos((n - 1) as nat);
    }
}

pub proof fn lemma_pow256_mono(m: nat, n: nat)
    requires
        m <= n,
    ensures
        pow256(m) <= pow256(n),
    decreases n,
{
    if m < n {
        lemma_pow256_mono(m, (n - 1) as nat);
        lemma_pow256_pos((n - 1) as nat);
    }
}

/// Appending a limb adds its value at the next weight.
pub proof fn lemma_le_val_push(s: Seq<u8>, x: u8)
    ensures
        le_val(s.push(x)) == le_val(s) + (x as nat) * pow256(s.len()),
{
    assert(s.push(x).drop_last() =~= s);
}

/// A trailing zero limb does not change the value.
pub proof fn lemma_le_val_trim(s: Seq<u8>)
    ensures
        le_val(trim(s)) == le_val(s),
        canonical(trim(s)),
        trim(s).len() <= s.len(),
    decreases s.len(),
{
    if s.len() > 0 && s.last() == 0 {
        lemma_le_val_trim(s.drop_last());
    }
}

/// The value of `n` limbs is below `256^n`.
pub proof fn lemma_le_val_bound(s: Seq<u8>)
    ensures
        le_val(s) < pow256(s.len()),
    decreases s.len(),
{
    if s.len() == 0 {
    } else {
        let n1 = (s.len() - 1) as nat;
        lemma_le_val_bound(s.drop_last());
        lemma_pow256_pos(n1);
        assert((s.last() as nat) * pow256(n1) <= 255 * pow256(n1)) by (nonlinear_arith)
            requires
                s.last() as nat <= 255,
                pow256(n1) >= 1,
        ;
        assert(pow256(n1) + 255 * pow256(n1) == 256 * pow256(n1)) by (nonlinear_arith);
    }
}

/// A canonical, non-empty limb sequence has value at least `256^(n-1)`.
pub proof fn lemma_le_val_lower(s: Seq<u8>)
    requires
        canonical(s),
        s.len() > 0,
    ensures
        le_val(s) >= pow256((s.len() - 1) as nat),
{
    let n1 = (s.len() - 1) as nat;
    lemma_pow256_pos(n1);
    assert((s.last() as nat) * pow256(n1) >= 1 * pow256(n1)) by (nonlinear_arith)
        requires
            s.last() as nat >= 1,
            pow256(n1) >= 1,
    ;
}

/// A canonical sequence with value zero is empty; a canonical comparison of
/// lengths orders the values.
pub proof fn lemma_canonical_len_order(a: Seq<u8>, b: Seq<u8>)
    requires
        canonical(a),
        canonical(b),
        a.len() < b.len(),
    ensures
        le_val(a) < le_val(b),
{
    lemma_le_val_bound(a);
    lemma_le_val_lower(b);
    lemma_pow256_mono(a.len(), (b.len() - 1) as nat);
}

/// Two canonical limb sequences with the same value are the same sequence.
pub proof fn lemma_canonical_injective(a: Seq<u8>, b: Seq<u8>)
    requires
        canonical(a),
        canonical(b),
        le_val(a) == le_val(b),
    ensures
        a == b,
    decreases a.len(),
{
    if a.len() != b.len() {
        if a.len() < b.len() {
            lemma_canonical_len_order(a, b);
        } else {
            lemma_canonical_len_order(b, a);
        }
    } else if a.len() == 0 {
        assert(a =~= b);
    } else {
        let n1 = (a.len() - 1) as nat;
        let p = pow256(n1);
        lemma_le_val_bound(a.drop_last());
        lemma_le_val_bound(b.drop_last());
        lemma_pow256_pos(n1);
        assert(a.last() == b.last()) by (nonlinear_arith)
            requires
                le_val(a.drop_last()) + (a.last() as nat) * p == le_val(b.drop_last()) + (
                b.last() as nat) * p,
                le_val(a.drop_last()) < p,
                le_val(b.drop_last()) < p,
                p >= 1,
        ;
        assert(le_val(a.drop_last()) == le_val(b.drop_last()));
        lemma_le_val_trim(a.drop_last());
        lemma_le_val_trim(b.drop_last());
        lemma_canonical_injective(trim(a.drop_last()), trim(b.drop_last()));
        lemma_trim_prefix_same(a.drop_last(), b.drop_last());
        assert forall|i: int| 0 <= i < a.len() implies a[i] == b[i] by {
            if i < a.len() - 1 {
                assert(a[i] == a.drop_last()[i]);
                assert(b[i] == b.drop_last()[i]);
            }
        }
        assert(a =~= b);
    }
}

/// Sequences with equal trims and equal values are equal when they have the
/// same length.
proof fn lemma_trim_prefix_same(a: Seq<u8>, b: Seq<u8>)
    requires
        a.len() == b.len(),
        trim(a) == trim(b),
    ensures
        a == b,
    decreases a.len(),
{
    lemma_trim_len_or_last(a);
    lemma_trim_len_or_last(b);
    if a.len() == 0 {
        assert(a =~= b);
    } else if a.last() == 0 || b.last() == 0 {
        if a.last() == 0 && b.last() != 0 {
            // then trim(a) is shorter than a, while trim(b) == b
            assert(trim(b) == b);
            assert(trim(a).len() < a.len());
        } else if b.last() == 0 && a.last() != 0 {
            assert(trim(a) == a);
            assert(trim(b).len() < b.len());
        } else {
            lemma_trim_prefix_same(a.drop_last(), b.drop_last());
            assert forall|i: int| 0 <= i < a.len() implies a[i] == b[i] by {
                if i < a.len() - 1 {
                    assert(a[i] == a.drop_last()[i]);
                    assert(b[i] == b.drop_last()[i]);
                }
            }
            assert(a =~= b);
        }
    } else {
        assert(trim(a) == a && trim(b) == b);
    }
}

proof fn lemma_trim_len_or_last(a: Seq<u8>)
    ensures
        a.len() == 0 || (a.last() == 0 ==> trim(a).len() < a.len()),
        a.len() == 0 || (a.last() != 0 ==> trim(a) == a),
        trim(a).len() <= a.len(),
    decreases a.len(),
{
    if a.len() > 0 && a.last() == 0 {
        lemma_trim_len_or_last(a.drop_last());
    }
}

/// An arbitrary-precision non-negative integer: little-endian base-256
/// limbs with no trailing zero limb.
#[derive(Clone, Debug)]
pub struct Uint256 {
    pub limbs: Vec<u8>,
}

impl Uint256 {
    /// The representation invariant: the limb sequence is canonical.
    pub open spec fn wf(self) -> bool {
        canonical(self.limbs@)
    }

    /// The mathematical value this integer denotes.
    pub open spec fn value(self) -> nat {
        le_val(self.limbs@)
    }

    /// The little-endian limb sequence (for the persistence codec).
    pub open spec fn limbs_view(self) -> Seq<u8> {
        self.limbs@
    }

    /// The zero value.
    pub fn zero() -> (r: Uint256)
        ensures
            r.wf(),
            r.value() == 0,
    {
        Uint256 { limbs: Vec::new() }
    }

    /// True exactly when the value is zero.
    pub fn is_zero(&self) -> (r: bool)
        requires
            self.wf(),
        ensures
            r == (self.value() == 0),
    {
        proof {
            if self.limbs@.len() > 0 {
                lemma_le_val_lower(self.limbs@);
                lemma_pow256_pos((self.limbs@.len() - 1) as nat);
            }
        }
        self.limbs.len() == 0
    }

    /// A copy with the same limbs, hence the same value.
    pub fn dup(&self) -> (r: Uint256)
        ensures
            r.limbs@ == self.limbs@,
            r.wf() == self.wf(),
            r.value() == self.value(),
    {
        let mut out: Vec<u8> = Vec::new();
        let mut i: usize = 0;
        while i < self.limbs.len()
            invariant
                i <= self.limbs@.len(),
                out@ =~= self.limbs@.take(i as int),
            decreases self.limbs@.len() - i,
        {
            out.push(self.limbs[i]);
            i = i + 1;
        }
        proof {
            assert(out@ =~= self.limbs@);
        }
        Uint256 { limbs: out }
    }
}

/// Removes trailing zero limbs, keeping the value.
fn normalize(v: &mut Vec<u8>)
    ensures
        final(v)@ == trim(old(v)@),
        canonical(final(v)@),
        le_val(final(v)@) == le_val(old(v)@),
{
    while v.len() > 0 && v[v.len() - 1] == 0
        invariant
            trim(v@) == trim(old(v)@),
        decreases v@.len(),
    {
        proof {
            assert(v@.last() == 0);
        }
        let ghost pre = v@;
        v.pop();
        proof {
            assert(v@ =~= pre.drop_last());
        }
    }
    proof {
        if v@.len() > 0 {
            assert(v@.last() != 0);
        }
        assert(trim(v@) == v@);
        lemma_le_val_trim(old(v)@);
    }
}

impl Uint256 {
    /// Builds the value of a machine integer.
    pub fn from_u64(x: u64) -> (r: Uint256)
        ensures
            r.wf(),
            r.value() == x,
    {
        let mut out: Vec<u8> = Vec::new();
        let mut rest: u64 = x;
        proof {
            assert((x as nat) * pow256(0) == x as nat) by (nonlinear_arith)
                requires
                    pow256(0) == 1,
            ;
        }
        while rest > 0
            invariant
                le_val(out@) + (rest as nat) * pow256(out@.len()) == x as nat,
            decreases rest,
        {
            let limb: u8 = (rest % 256) as u8;
            let ghost pre = out@;
            let ghost prerest = rest as nat;
            out.push(limb);
            proof {
                lemma_le_val_push(pre, limb);
            }
            rest = rest / 256;
            proof {
                lemma_pow256_pos(pre.len());
                assert(le_val(out@) + (rest as nat) * pow256(out@.len()) == x as nat)
                    by (nonlinear_arith)
                    requires
                        le_val(out@) == le_val(pre) + (prerest % 256) * pow256(pre.len()),
                        out@.len() == pre.len() + 1,
                        pow256(out@.len()) == 256 * pow256(pre.len()),
                        rest as nat == prerest / 256,
                        le_val(pre) + prerest * pow256(pre.len()) == x as nat,
                        prerest == 256 * (prerest / 256) + prerest % 256,
                ;
            }
        }
        let mut out = out;
        normalize(&mut out);
        Uint256 { limbs: out }
    }

    /// The sum of two values. Magnitude grows without bound; addition never
    /// fails.
    pub fn add(&self, other: &Uint256) -> (r: Uint256)
        ensures
            r.wf(),
            r.value() == self.value() + other.value(),
    {
        let a = &self.limbs;
        let b = &other.limbs;
        let n: usize = if a.len() >= b.len() {
            a.len()
        } else {
            b.len()
        };
        let mut out: Vec<u8> = Vec::new();
        let mut carry: u16 = 0;
        let mut i: usize = 0;
        proof {
            lemma_le_val_trim(a@);
            lemma_le_val_trim(b@);
        }
        while i < n
            invariant
                i <= n,
                n == if a@.len() >= b@.len() {
                    a@.len()
                } else {
                    b@.len()
                },
                out@.len() == i,
                carry <= 1,
                le_val(out@) + (carry as nat) * pow256(i as nat) == prefix_val(a@, i as int)
                    + prefix_val(b@, i as int),
            decreases n - i,
        {
            let ai: u16 = if i < a.len() {
                a[i] as u16
            } else {
                0
            };
            let bi: u16 = if i < b.len() {
                b[i] as u16
            } else {
                0
            };
            let sum: u16 = ai + bi + carry;
            let limb: u8 = (sum % 256) as u8;
            let ghost pre = out@;
            let ghost precarry = carry as nat;
            out.push(limb);
            carry = sum / 256;
            proof {
                lemma_le_val_push(pre, limb);
                lemma_prefix_val_step(a@, i as int);
                lemma_prefix_val_step(b@, i as int);
                let p = pow256(i as nat);
                assert(le_val(out@) + (carry as nat) * pow256((i + 1) as nat) == prefix_val(
                    a@,
                    i + 1,
                ) + prefix_val(b@, i + 1)) by (nonlinear_arith)
                    requires
                        le_val(out@) == le_val(pre) + ((sum % 256) as nat) * p,
                        carry as nat == (sum as nat) / 256,
                        sum as nat == 256 * ((sum as nat) / 256) + (sum as nat) % 256,
                        (sum as nat) % 256 == (sum % 256) as nat,
                        pow256((i + 1) as nat) == 256 * p,
                        le_val(pre) + precarry * p == prefix_val(a@, i as int) + prefix_val(
                            b@,
                            i as int,
                        ),
                        sum as nat == (ai as nat) + (bi as nat) + precarry,
                        prefix_val(a@, i + 1) == prefix_val(a@, i as int) + (ai as nat) * p,
                        prefix_val(b@, i + 1) == prefix_val(b@, i as int) + (bi as nat) * p,
                ;
            }
            i = i + 1;
        }
        if carry > 0 {
            let c: u8 = carry as u8;
            let ghost pre = out@;
            out.push(c);
            proof {
                lemma_le_val_push(pre, c);
            }
        }
        let mut out = out;
        normalize(&mut out);
        proof {
            lemma_prefix_val_full(a@, n as int);
            lemma_prefix_val_full(b@, n as int);
        }
        Uint256 { limbs: out }
    }
}


proof fn lemma_sub_step(pa: nat, pb: nat, ov: nat, p: nat, ai: nat, bi: nat, bin: nat, bout: nat, limb: nat)
    requires
        pa + bin * p == ov + pb,
        limb + bi + bin == ai + 256 * bout,
    ensures
        (pa + ai * p) + bout * (256 * p) == (ov + limb * p) + (pb + bi * p),
{
    assert((pa + ai * p) + bout * (256 * p) == (ov + limb * p) + (pb + bi * p))
        by (nonlinear_arith)
        requires
            pa + bin * p == ov + pb,
            limb + bi + bin == ai + 256 * bout,
    ;
}

impl Uint256 {
    /// The difference `self - other`, or `Underflow` when `other` is larger.
    pub fn sub(&self, other: &Uint256) -> (r: Result<Uint256, Error>)
        requires
            self.wf(),
            other.wf(),
        ensures
            match r {
                Ok(d) => {
                    &&& d.wf()
                    &&& other.value() <= self.value()
                    &&& d.value() == self.value() - other.value()
                },
                Err(e) => {
                    &&& e == Error::Underflow
                    &&& other.value() > self.value()
                },
            },
    {
        let a = &self.limbs;
        let b = &other.limbs;
        let n: usize = if a.len() >= b.len() {
            a.len()
        } else {
            b.len()
        };
        let mut out: Vec<u8> = Vec::new();
        let mut borrow: i16 = 0;
        let mut i: usize = 0;
        while i < n
            invariant
                i <= n,
                n == if a@.len() >= b@.len() {
                    a@.len()
                } else {
                    b@.len()
                },
                out@.len() == i,
                0 <= borrow <= 1,
                prefix_val(a@, i as int) + (borrow as nat) * pow256(i as nat) == le_val(out@)
                    + prefix_val(b@, i as int),
            decreases n - i,
        {
            let ai: i16 = if i < a.len() {
                a[i] as i16
            } else {
                0
            };
            let bi: i16 = if i < b.len() {
                b[i] as i16
            } else {
                0
            };
            let t: i16 = ai - bi - borrow;
            let ghost prebin = borrow as nat;
            let limb: u8;
            if t < 0 {
                limb = (t + 256) as u8;
                borrow = 1;
            } else {
                limb = t as u8;
                borrow = 0;
            }
            let ghost pre = out@;
            out.push(limb);
            proof {
                lemma_le_val_push(pre, limb);
                lemma_prefix_val_step(a@, i as int);
                lemma_prefix_val_step(b@, i as int);
                let p = pow256(i as nat);
                assert((limb as nat) + (bi as nat) + prebin == (ai as nat) + 256 * (
                borrow as nat));
                lemma_sub_step(
                    prefix_val(a@, i as int),
                    prefix_val(b@, i as int),
                    le_val(pre),
                    p,
                    ai as nat,
                    bi as nat,
                    prebin,
                    borrow as nat,
                    limb as nat,
                );
                assert(pow256((i + 1) as nat) == 256 * p);
                assert((borrow as nat) * pow256((i + 1) as nat) == (borrow as nat) * (256 * p));
            }
            i = i + 1;
        }
        proof {
            lemma_prefix_val_full(a@, n as int);
            lemma_prefix_val_full(b@, n as int);
        }
        if borrow == 1 {
            proof {
                lemma_le_val_bound(out@);
                lemma_pow256_pos(n as nat);
                assert(le_val(a@) + 1 * pow256(n as nat) == le_val(out@) + le_val(b@));
            }
            Err(Error::Underflow)
        } else {
            let mut out = out;
            normalize(&mut out);
            proof {
                assert(le_val(a@) + 0 * pow256(n as nat) == le_val(a@)) by (nonlinear_arith);
            }
            Ok(Uint256 { limbs: out })
        }
    }

    /// True exactly when `self` denotes the smaller value.
    pub fn lt(&self, other: &Uint256) -> (r: bool)
        ensures
            r == (self.value() < other.value()),
    {
        match self.partial_cmp(other) {
            Some(Ordering::Less) => true,
            _ => false,
        }
    }
}

/// The effective length of a limb vector: its length with trailing zero
/// limbs ignored.
fn eff_len(v: &Vec<u8>) -> (r: usize)
    ensures
        r <= v@.len(),
        v@.take(r as int) == trim(v@),
{
    let mut r: usize = v.len();
    proof {
        assert(v@.take(r as int) =~= v@);
    }
    while r > 0 && v[r - 1] == 0
        invariant
            r <= v@.len(),
            trim(v@.take(r as int)) == trim(v@),
        decreases r,
    {
        proof {
            let t = v@.take(r as int);
            assert(t.last() == 0);
            assert(t.drop_last() =~= v@.take(r - 1));
        }
        r = r - 1;
    }
    proof {
        let t = v@.take(r as int);
        if r > 0 {
            assert(t.last() == v@[r - 1]);
            assert(trim(t) == t);
        } else {
            assert(t =~= Seq::<u8>::empty());
        }
    }
    r
}

/// Equal-length limb sequences that agree above position `i` are ordered by
/// their limbs at `i`.
proof fn lemma_lex_cmp(a: Seq<u8>, b: Seq<u8>, i: int)
    requires
        a.len() == b.len(),
        0 <= i < a.len(),
        forall|j: int| i < j < a.len() ==> a[j] == b[j],
        a[i] < b[i],
    ensures
        le_val(a) < le_val(b),
    decreases a.len(),
{
    let n1 = (a.len() - 1) as nat;
    let p = pow256(n1);
    if i == a.len() - 1 {
        lemma_le_val_bound(a.drop_last());
        lemma_pow256_pos(n1);
        assert(le_val(a) < le_val(b)) by (nonlinear_arith)
            requires
                le_val(a) == le_val(a.drop_last()) + (a[i] as nat) * p,
                le_val(b) == le_val(b.drop_last()) + (b[i] as nat) * p,
                le_val(a.drop_last()) < p,
                (a[i] as nat) + 1 <= b[i] as nat,
                p >= 1,
        ;
    } else {
        assert(forall|j: int| i < j < a.drop_last().len() ==> a.drop_last()[j] == b.drop_last()[j]);
        lemma_lex_cmp(a.drop_last(), b.drop_last(), i);
        assert(a.last() == b.last());
    }
}

impl PartialEq for Uint256 {
    /// Equality of the denoted values.
    fn eq(&self, other: &Self) -> (r: bool) {
        match self.partial_cmp(other) {
            Some(Ordering::Equal) => true,
            _ => false,
        }
    }
}

impl vstd::std_specs::cmp::PartialEqSpecImpl for Uint256 {
    open spec fn obeys_eq_spec() -> bool {
        true
    }

    open spec fn eq_spec(&self, other: &Self) -> bool {
        self.value() == other.value()
    }
}

impl PartialOrd for Uint256 {
    /// The total order on the denoted values.
    fn partial_cmp(&self, other: &Self) -> (r: Option<Ordering>) {
        let ea = eff_len(&self.limbs);
        let eb = eff_len(&other.limbs);
        let ghost ta = trim(self.limbs@);
        let ghost tb = trim(other.limbs@);
        proof {
            lemma_le_val_trim(self.limbs@);
            lemma_le_val_trim(other.limbs@);
        }
        if ea < eb {
            proof {
                lemma_canonical_len_order(ta, tb);
            }
            return Some(Ordering::Less);
        }
        if ea > eb {
            proof {
                lemma_canonical_len_order(tb, ta);
            }
            return Some(Ordering::Greater);
        }
        let mut i: usize = ea;
        while i > 0
            invariant
                i <= ea,
                ea == eb,
                ta == trim(self.limbs@),
                tb == trim(other.limbs@),
                ea <= self.limbs@.len(),
                eb <= other.limbs@.len(),
                self.limbs@.take(ea as int) == ta,
                other.limbs@.take(eb as int) == tb,
                ta.len() == ea,
                tb.len() == eb,
                le_val(ta) == self.value(),
                le_val(tb) == other.value(),
                forall|j: int| i <= j < ea ==> ta[j] == tb[j],
            decreases i,
        {
            i = i - 1;
            let x = self.limbs[i];
            let y = other.limbs[i];
            proof {
                assert(ta[i as int] == self.limbs@[i as int]);
                assert(tb[i as int] == other.limbs@[i as int]);
            }
            if x < y {
                proof {
                    lemma_lex_cmp(ta, tb, i as int);
                }
                return Some(Ordering::Less);
            }
            if x > y {
                proof {
                    lemma_lex_cmp(tb, ta, i as int);
                }
                return Some(Ordering::Greater);
            }
        }
        proof {
            assert(ta =~= tb);
            assert(le_val(ta) == le_val(tb));
        }
        Some(Ordering::Equal)
    }
}

impl vstd::std_specs::cmp::PartialOrdSpecImpl for Uint256 {
    open spec fn obeys_partial_cmp_spec() -> bool {
        true
    }

    open spec fn partial_cmp_spec(&self, other: &Self) -> Option<Ordering> {
        if self.value() < other.value() {
            Some(Ordering::Less)
        } else if self.value() == other.value() {
            Some(Ordering::Equal)
        } else {
            Some(Ordering::Greater)
        }
    }
}

/// The value of the first `i` limbs of `s`; beyond the end it is the whole
/// value.
pub open spec fn prefix_val(s: Seq<u8>, i: int) -> nat {
    if i <= s.len() {
        le_val(s.take(i))
    } else {
        le_val(s)
    }
}

proof fn lemma_prefix_val_step(s: Seq<u8>, i: int)
    requires
        0 <= i,
    ensures
        prefix_val(s, i + 1) == prefix_val(s, i) + (if i < s.len() {
            (s[i] as nat)
        } else {
            0
        }) * pow256(i as nat),
{
    if i < s.len() {
        assert(s.take(i + 1).drop_last() =~= s.take(i));
        assert(s.take(i + 1).last() == s[i]);
    } else {
        if i == s.len() {
            assert(s.take(i) =~= s);
        }
        assert(prefix_val(s, i + 1) == prefix_val(s, i));
        assert(0 * pow256(i as nat) == 0) by (nonlinear_arith);
    }
}

proof fn lemma_prefix_val_full(s: Seq<u8>, i: int)
    requires
        s.len() <= i,
    ensures
        prefix_val(s, i) == le_val(s),
{
    if i == s.len() {
        assert(s.take(i) =~= s);
    }
}

/// The value read off the head limb and the rest.
proof fn lemma_le_val_head(s: Seq<u8>)
    requires
        s.len() > 0,
    ensures
        le_val(s) == (s[0] as nat) + 256 * le_val(s.drop_first()),
    decreases s.len(),
{
    if s.len() == 1 {
        assert(s.drop_first() =~= Seq::<u8>::empty());
        assert(s.drop_last() =~= Seq::<u8>::empty());
        assert(s.last() == s[0]);
        assert((s[0] as nat) * 1 == s[0] as nat) by (nonlinear_arith);
    } else {
        let dl = s.drop_last();
        let df = s.drop_first();
        lemma_le_val_head(dl);
        assert(dl.drop_first() =~= df.drop_last());
        assert(df.last() == s.last());
        assert(dl[0] == s[0]);
        let p2 = pow256((s.len() - 2) as nat);
        let lv = s.last() as nat;
        assert(pow256((s.len() - 1) as nat) == 256 * p2);
        assert(le_val(s) == (s[0] as nat) + 256 * le_val(df)) by (nonlinear_arith)
            requires
                le_val(s) == le_val(dl) + lv * (256 * p2),
                le_val(dl) == (s[0] as nat) + 256 * le_val(dl.drop_first()),
                le_val(df) == le_val(dl.drop_first()) + lv * p2,
        ;
    }
}

proof fn lemma_mul10_step(ov: nat, p: nat, ai: nat, cin: nat, cout: nat, limb: nat, pa: nat, d: nat)
    requires
        ov + cin * p == 10 * pa + d,
        limb + 256 * cout == 10 * ai + cin,
    ensures
        (ov + limb * p) + cout * (256 * p) == 10 * (pa + ai * p) + d,
{
    assert((ov + limb * p) + cout * (256 * p) == 10 * (pa + ai * p) + d) by (nonlinear_arith)
        requires
            ov + cin * p == 10 * pa + d,
            limb + 256 * cout == 10 * ai + cin,
    ;
}

impl Uint256 {
    /// Ten times the value, plus a decimal digit.
    pub fn mul10_add(&self, d: u8) -> (r: Uint256)
        requires
            self.wf(),
            d < 10,
        ensures
            r.wf(),
            r.value() == 10 * self.value() + d,
    {
        let a = &self.limbs;
        let mut out: Vec<u8> = Vec::new();
        let mut carry: u16 = d as u16;
        let mut i: usize = 0;
        proof {
            assert(a@.take(0) =~= Seq::<u8>::empty());
            assert((carry as nat) * pow256(0) == carry as nat) by (nonlinear_arith)
                requires
                    pow256(0) == 1,
            ;
        }
        while i < a.len()
            invariant
                i <= a@.len(),
                out@.len() == i,
                carry <= 10,
                le_val(out@) + (carry as nat) * pow256(i as nat) == 10 * le_val(
                    a@.take(i as int),
                ) + d,
            decreases a@.len() - i,
        {
            let cur: u16 = (a[i] as u16) * 10 + carry;
            let limb: u8 = (cur % 256) as u8;
            let ghost precarry = carry as nat;
            let ghost pre = out@;
            out.push(limb);
            carry = cur / 256;
            proof {
                lemma_le_val_push(pre, limb);
                assert(a@.take(i + 1).drop_last() =~= a@.take(i as int));
                assert(a@.take(i + 1).last() == a@[i as int]);
                assert((limb as nat) + 256 * (carry as nat) == 10 * (a@[i as int] as nat)
                    + precarry);
                lemma_mul10_step(
                    le_val(pre),
                    pow256(i as nat),
                    a@[i as int] as nat,
                    precarry,
                    carry as nat,
                    limb as nat,
                    le_val(a@.take(i as int)),
                    d as nat,
                );
                assert(pow256((i + 1) as nat) == 256 * pow256(i as nat));
                assert((carry as nat) * pow256((i + 1) as nat) == (carry as nat) * (256 * pow256(
                    i as nat,
                )));
                lemma_le_val_push_take(a@, i as int);
            }
            i = i + 1;
        }
        proof {
            assert(a@.take(a@.len() as int) =~= a@);
        }
        while carry > 0
            invariant
                le_val(out@) + (carry as nat) * pow256(out@.len()) == 10 * le_val(a@) + d,
            decreases carry,
        {
            let limb: u8 = (carry % 256) as u8;
            let ghost pre = out@;
            let ghost precarry = carry as nat;
            out.push(limb);
            carry = carry / 256;
            proof {
                lemma_le_val_push(pre, limb);
                assert(le_val(out@) + (carry as nat) * pow256(out@.len()) == 10 * le_val(a@) + d)
                    by (nonlinear_arith)
                    requires
                        le_val(out@) == le_val(pre) + ((precarry % 256) as nat) * pow256(pre.len()),
                        out@.len() == pre.len() + 1,
                        pow256(out@.len()) == 256 * pow256(pre.len()),
                        carry as nat == precarry / 256,
                        le_val(pre) + precarry * pow256(pre.len()) == 10 * le_val(a@) + d,
                        precarry == 256 * (precarry / 256) + precarry % 256,
                ;
            }
        }
        normalize(&mut out);
        Uint256 { limbs: out }
    }

    /// The quotient and remainder of division by ten.
    pub fn div_rem_10(&self) -> (r: (Uint256, u8))
        requires
            self.wf(),
        ensures
            r.0.wf(),
            r.1 < 10,
            10 * r.0.value() + r.1 == self.value(),
            self.value() > 0 ==> r.0.value() < self.value(),
    {
        let a = &self.limbs;
        let mut qrev: Vec<u8> = Vec::new();
        let mut rem: u16 = 0;
        let mut i: usize = a.len();
        proof {
            assert(a@.skip(a@.len() as int) =~= Seq::<u8>::empty());
            assert(Seq::<u8>::empty().reverse() =~= Seq::<u8>::empty());
        }
        while i > 0
            invariant
                i <= a@.len(),
                qrev@.len() == a@.len() - i,
                rem < 10,
                le_val(a@.skip(i as int)) == 10 * le_val(qrev@.reverse()) + rem,
            decreases i,
        {
            i = i - 1;
            let cur: u16 = rem * 256 + (a[i] as u16);
            let qd: u8 = (cur / 10) as u8;
            let ghost prerem = rem as nat;
            let ghost preq = qrev@;
            qrev.push(qd);
            rem = cur % 10;
            proof {
                let tail = a@.skip(i + 1);
                let head = a@.skip(i as int);
                assert(head[0] == a@[i as int]);
                assert(head.drop_first() =~= tail);
                lemma_le_val_head(head);
                assert(qrev@.reverse()[0] == qd);
                assert(qrev@.reverse().drop_first() =~= preq.reverse());
                lemma_le_val_head(qrev@.reverse());
                assert((qd as nat) * 10 + ((cur % 10) as nat) == cur as nat);
                assert(le_val(head) == 10 * le_val(qrev@.reverse()) + (rem as nat))
                    by (nonlinear_arith)
                    requires
                        le_val(head) == (a@[i as int] as nat) + 256 * le_val(tail),
                        le_val(tail) == 10 * le_val(preq.reverse()) + prerem,
                        le_val(qrev@.reverse()) == (qd as nat) + 256 * le_val(preq.reverse()),
                        (qd as nat) * 10 + ((cur % 10) as nat) == cur as nat,
                        cur as nat == prerem * 256 + (a@[i as int] as nat),
                        rem as nat == (cur % 10) as nat,
                ;
            }
        }
        proof {
            assert(a@.skip(0) =~= a@);
        }
        let mut q = reversed(&qrev);
        normalize(&mut q);
        let quot = Uint256 { limbs: q };
        proof {
            if self.value() > 0 {
                assert(quot.value() < self.value()) by (nonlinear_arith)
                    requires
                        10 * quot.value() + (rem as nat) == self.value(),
                        rem < 10,
                        self.value() > 0,
                ;
            }
        }
        (quot, rem as u8)
    }
}

proof fn lemma_le_val_push_take(s: Seq<u8>, i: int)
    requires
        0 <= i < s.len(),
    ensures
        le_val(s.take(i + 1)) == le_val(s.take(i)) + (s[i] as nat) * pow256(i as nat),
{
    assert(s.take(i + 1).drop_last() =~= s.take(i));
    assert(s.take(i + 1).last() == s[i]);
}

/// The numeric value of a big-endian byte sequence.
pub open spec fn be_val(s: Seq<u8>) -> nat {
    le_val(s.reverse())
}

/// The canonical big-endian byte form: a single zero byte for zero,
/// otherwise the limbs from most to least significant.
pub open spec fn be_bytes_of(x: Uint256) -> Seq<u8> {
    if x.limbs@.len() == 0 {
        seq![0u8]
    } else {
        x.limbs@.reverse()
    }
}

/// The little-endian byte form used for persistence: a single zero byte for
/// zero, otherwise the limbs from least to most significant.
pub open spec fn le_bytes_of(x: Uint256) -> Seq<u8> {
    if x.limbs@.len() == 0 {
        seq![0u8]
    } else {
        x.limbs@
    }
}

proof fn lemma_single_zero()
    ensures
        le_val(seq![0u8]) == 0,
        trim(seq![0u8]) == Seq::<u8>::empty(),
{
    let s = seq![0u8];
    assert(s.len() == 1);
    assert(s[0] == 0);
    assert(s.last() == 0);
    assert(s.drop_last() =~= Seq::<u8>::empty());
    assert(le_val(Seq::<u8>::empty()) == 0);
    assert((0u8 as nat) * pow256(0) == 0) by (nonlinear_arith);
    assert(le_val(s) == 0);
    assert(trim(s) == trim(s.drop_last()));
    assert(trim(Seq::<u8>::empty()) =~= Seq::<u8>::empty());
}

/// The bytes of `v` in the opposite order.
fn reversed(v: &Vec<u8>) -> (r: Vec<u8>)
    ensures
        r@ == v@.reverse(),
{
    let mut out: Vec<u8> = Vec::new();
    let mut i: usize = v.len();
    while i > 0
        invariant
            i <= v@.len(),
            out@.len() == v@.len() - i,
            forall|j: int| 0 <= j < out@.len() ==> out@[j] == v@[v@.len() - 1 - j],
        decreases i,
    {
        i = i - 1;
        out.push(v[i]);
    }
    proof {
        assert(out@ =~= v@.reverse());
    }
    out
}

impl Uint256 {
    /// Reads a big-endian magnitude; leading zero bytes are ignored.
    pub fn from_bytes_be(bytes: &[u8]) -> (r: Self)
        ensures
            r.wf(),
            r.value() == be_val(bytes@),
            r.limbs@ == trim(bytes@.reverse()),
    {
        let mut out: Vec<u8> = Vec::new();
        let mut i: usize = bytes.len();
        while i > 0
            invariant
                i <= bytes@.len(),
                out@.len() == bytes@.len() - i,
                forall|j: int| 0 <= j < out@.len() ==> out@[j] == bytes@[bytes@.len() - 1 - j],
            decreases i,
        {
            i = i - 1;
            out.push(bytes[i]);
        }
        proof {
            assert(out@ =~= bytes@.reverse());
        }
        normalize(&mut out);
        Uint256 { limbs: out }
    }

    /// Writes the canonical big-endian magnitude; zero becomes the single
    /// byte `0`.
    pub fn to_bytes_be(&self) -> (r: Vec<u8>)
        requires
            self.wf(),
        ensures
            r@ == be_bytes_of(*self),
            be_val(r@) == self.value(),
    {
        proof {
            lemma_reverse_twice(self.limbs@);
        }
        if self.limbs.len() == 0 {
            let mut out: Vec<u8> = Vec::new();
            out.push(0);
            proof {
                lemma_single_zero();
                assert(out@ =~= seq![0u8]);
                assert(seq![0u8].reverse() =~= seq![0u8]);
            }
            out
        } else {
            reversed(&self.limbs)
        }
    }

    /// Reads a little-endian magnitude; trailing zero bytes are ignored.
    pub fn from_bytes_le(bytes: &[u8]) -> (r: Self)
        ensures
            r.wf(),
            r.value() == le_val(bytes@),
            r.limbs@ == trim(bytes@),
    {
        let mut out: Vec<u8> = Vec::new();
        let mut i: usize = 0;
        while i < bytes.len()
            invariant
                i <= bytes@.len(),
                out@ =~= bytes@.take(i as int),
            decreases bytes@.len() - i,
        {
            out.push(bytes[i]);
            i = i + 1;
        }
        proof {
            assert(out@ =~= bytes@);
        }
        normalize(&mut out);
        Uint256 { limbs: out }
    }

    /// Writes the little-endian persistence form; zero becomes the single
    /// byte `0`.
    pub fn to_bytes_le(&self) -> (r: Vec<u8>)
        requires
            self.wf(),
        ensures
            r@ == le_bytes_of(*self),
            le_val(r@) == self.value(),
    {
        if self.limbs.len() == 0 {
            let mut out: Vec<u8> = Vec::new();
            out.push(0);
            proof {
                lemma_single_zero();
                assert(out@ =~= seq![0u8]);
            }
            out
        } else {
            let x = self.dup();
            x.limbs
        }
    }
}

proof fn lemma_reverse_twice(s: Seq<u8>)
    ensures
        s.reverse().reverse() == s,
{
    assert(s.reverse().reverse() =~= s);
}

/// Reading back the written little-endian form gives the number back: the
/// persistence byte form determines the value and the representation.
pub proof fn lemma_le_bytes_round_trip(x: Uint256)
    requires
        x.wf(),
    ensures
        trim(le_bytes_of(x)) == x.limbs@,
        le_val(le_bytes_of(x)) == x.value(),
{
    if x.limbs@.len() == 0 {
        lemma_single_zero();
        assert(x.limbs@ =~= Seq::<u8>::empty());
    } else {
        assert(trim(x.limbs@) == x.limbs@);
    }
}

/// Reading back the written big-endian form gives the number back.
pub proof fn lemma_be_bytes_round_trip(x: Uint256)
    requires
        x.wf(),
    ensures
        trim(be_bytes_of(x).reverse()) == x.limbs@,
        be_val(be_bytes_of(x)) == x.value(),
{
    lemma_reverse_twice(x.limbs@);
    if x.limbs@.len() == 0 {
        lemma_single_zero();
        assert(seq![0u8].reverse() =~= seq![0u8]);
        assert(x.limbs@ =~= Seq::<u8>::empty());
    } else {
        assert(trim(x.limbs@) == x.limbs@);
    }
}

/// The ASCII decimal digits of `n`, most significant first.
pub open spec fn dec_digits(n: nat) -> Seq<u8>
    decreases n,
{
    if n < 10 {
        seq![(48 + n) as u8]
    } else {
        dec_digits(n / 10).push((48 + n % 10) as u8)
    }
}

/// The ASCII decimal digits of `n` as characters.
pub open spec fn dec_chars(n: nat) -> Seq<char> {
    dec_digits(n).map_values(|b: u8| b as char)
}

/// Every byte of a decimal rendering is an ASCII digit.
pub proof fn lemma_dec_digits_ascii(n: nat)
    ensures
        forall|i: int| 0 <= i < dec_digits(n).len() ==> 48 <= #[trigger] dec_digits(n)[i] <= 57,
    decreases n,
{
    if n < 10 {
    } else {
        lemma_dec_digits_ascii(n / 10);
        assert(dec_digits(n) == dec_digits(n / 10).push((48 + n % 10) as u8));
    }
}

/// The numeric value of a sequence of ASCII decimal digits.
pub open spec fn dec_val(s: Seq<u8>) -> nat
    decreases s.len(),
{
    if s.len() == 0 {
        0
    } else {
        dec_val(s.drop_last()) * 10 + (s.last() - 48) as nat
    }
}

/// True when every byte of `s` is an ASCII decimal digit.
pub open spec fn all_dec_digits(s: Seq<u8>) -> bool {
    forall|i: int| 0 <= i < s.len() ==> 48 <= #[trigger] s[i] <= 57
}

impl Uint256 {
    /// The decimal rendering of the value, as ASCII bytes.
    pub fn to_decimal(&self) -> (r: Vec<u8>)
        requires
            self.wf(),
        ensures
            r@ == dec_digits(self.value()),
    {
        let mut digits_rev: Vec<u8> = Vec::new();
        let mut cur = self.dup();
        while !cur.is_zero()
            invariant
                cur.wf(),
                cur.value() == 0 && digits_rev@.len() == 0 ==> self.value() == 0,
                cur.value() > 0 ==> dec_digits(self.value()) == dec_digits(cur.value())
                    + digits_rev@.reverse(),
                cur.value() == 0 && digits_rev@.len() > 0 ==> dec_digits(self.value())
                    == digits_rev@.reverse(),
            decreases cur.value(),
        {
            let ghost v = cur.value();
            let ghost predigits = digits_rev@;
            let (q, d) = cur.div_rem_10();
            digits_rev.push(48 + d);
            proof {
                assert(q.value() == v / 10 && d as nat == v % 10) by (nonlinear_arith)
                    requires
                        10 * q.value() + (d as nat) == v,
                        d < 10,
                ;
                assert(digits_rev@.reverse() =~= seq![(48 + d) as u8] + predigits.reverse());
                if q.value() > 0 {
                    assert(v >= 10) by (nonlinear_arith)
                        requires
                            q.value() == v / 10,
                            q.value() > 0,
                    ;
                    assert(dec_digits(v) == dec_digits(q.value()).push((48 + v % 10) as u8));
                    assert(dec_digits(v) =~= dec_digits(q.value()) + seq![(48 + d) as u8]);
                    assert(dec_digits(self.value()) =~= dec_digits(q.value())
                        + digits_rev@.reverse());
                } else {
                    assert(v < 10) by (nonlinear_arith)
                        requires
                            q.value() == v / 10,
                            q.value() == 0,
                            10 * q.value() + (d as nat) == v,
                            d < 10,
                    ;
                    assert(dec_digits(v) =~= seq![(48 + d) as u8]);
                    assert(dec_digits(self.value()) =~= digits_rev@.reverse());
                }
            }
            cur = q;
        }
        if digits_rev.len() == 0 {
            let mut out: Vec<u8> = Vec::new();
            out.push(48);
            proof {
                assert(out@ =~= dec_digits(0));
            }
            out
        } else {
            let out = reversed(&digits_rev);
            out
        }
    }

    /// The decimal rendering of the value, as a `String`.
    pub fn to_string(&self) -> (r: String)
        requires
            self.wf(),
        ensures
            r@ == dec_chars(self.value()),
    {
        let digits = self.to_decimal();
        proof {
            lemma_dec_digits_ascii(self.value());
        }
        ascii_to_string(digits)
    }

    /// Parses an ASCII decimal rendering; any non-empty run of digits is
    /// accepted, including redundant leading zeros.
    pub fn from_decimal(s: &[u8]) -> (r: Option<Uint256>)
        ensures
            match r {
                Some(x) => {
                    &&& x.wf()
                    &&& s@.len() > 0
                    &&& all_dec_digits(s@)
                    &&& x.value() == dec_val(s@)
                },
                None => !(s@.len() > 0 && all_dec_digits(s@)),
            },
    {
        if s.len() == 0 {
            return None;
        }
        let mut acc = Uint256::zero();
        let mut i: usize = 0;
        while i < s.len()
            invariant
                i <= s@.len(),
                acc.wf(),
                acc.value() == dec_val(s@.take(i as int)),
                forall|j: int| 0 <= j < i ==> 48 <= #[trigger] s@[j] <= 57,
            decreases s@.len() - i,
        {
            let d = s[i];
            if d < 48 || d > 57 {
                return None;
            }
            acc = acc.mul10_add(d - 48);
            proof {
                assert(s@.take(i + 1).drop_last() =~= s@.take(i as int));
                assert(s@.take(i + 1).last() == s@[i as int]);
            }
            i = i + 1;
        }
        proof {
            assert(s@.take(s@.len() as int) =~= s@);
        }
        Some(acc)
    }
}

/// Relies on `String::from_utf8`: ASCII bytes are valid UTF-8 and decode to
/// the characters with the same code points, so on ASCII input the call
/// cannot fail and returns exactly those characters.
#[verifier::external_body]
fn ascii_to_string(bytes: Vec<u8>) -> (r: String)
    requires
        forall|i: int| 0 <= i < bytes@.len() ==> bytes@[i] < 128,
    ensures
        r@ == bytes@.map_values(|b: u8| b as char),
{
    match String::from_utf8(bytes) {
        Ok(text) => text,
        Err(_) => String::new(),
    }
}

/// Adding and then subtracting the same value is the identity, and a sum is
/// never below either summand: the values form a monoid ordered by
/// magnitude, with subtraction defined exactly on the ordered pairs.
pub proof fn lemma_add_sub_cancel(a: Uint256, b: Uint256)
    ensures
        (a.value() + b.value()) - b.value() == a.value(),
        a.value() + b.value() >= a.value(),
        a.value() + b.value() >= b.value(),
{
}

/// The comparison is a total order that agrees with the numeric values:
/// every pair is ordered, in exactly one way, and equality of the order is
/// equality of the values.
pub proof fn lemma_order_total(a: Uint256, b: Uint256)
    ensures
        a.partial_cmp_spec(&b) is Some,
        a.partial_cmp_spec(&b) == Some(Ordering::Less) <==> a.value() < b.value(),
        a.partial_cmp_spec(&b) == Some(Ordering::Equal) <==> a.value() == b.value(),
        a.partial_cmp_spec(&b) == Some(Ordering::Greater) <==> a.value() > b.value(),
        (a.partial_cmp_spec(&b) == Some(Ordering::Less)) ==> (b.partial_cmp_spec(&a) == Some(
            Ordering::Greater,
        )),
{
}

/// The order is transitive over the values.
pub proof fn lemma_order_transitive(a: Uint256, b: Uint256, c: Uint256)
    requires
        a.value() < b.value(),
        b.value() < c.value(),
    ensures
        a.value() < c.value(),
{
}

} // verus!

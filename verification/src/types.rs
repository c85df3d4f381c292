//! Call parameter records and operation receipts.
//!
//! The request types carry the plain inputs of each ledger operation; the
//! receipt types are immutable records returned by the mutating operations,
//! meant for external audit or event logs and never read back by the ledger.

use vstd::prelude::*;

verus! {

use crate::codec::append_bytes;
use crate::uint256::{dec_digits, le_bytes_of, Uint256};

/// Parameters of a mint call: the credited actor and the amount.
pub struct Mint {
    pub actor: u64,
    pub amount: Uint256,
}

/// Parameters of a transfer call: the recipient and the amount; the sender
/// is the authenticated caller.
pub struct Transfer {
    pub to: u64,
    pub amount: Uint256,
}

/// Parameters of an approve call: the spender and the ceiling; the owner is
/// the authenticated caller.
pub struct Approve {
    pub actor: u64,
    pub amount: Uint256,
}

/// Parameters of an allowance query: owner and spender.
pub struct Allowance {
    pub from: u64,
    pub to: u64,
}

/// Parameters of a delegated transfer: owner, recipient (who is also the
/// spender of the allowance), and the amount.
pub struct TransferFrom {
    pub from: u64,
    pub to: u64,
    pub amount: Uint256,
}

/// The receipt of a mint: who was credited, and by how much.
pub struct MintLog {
    pub actor: u64,
    pub amount: Uint256,
}

impl MintLog {
    /// Builds the receipt of a mint.
    pub fn new(actor: u64, amount: Uint256) -> (r: Self)
        ensures
            r.actor == actor,
            r.amount == amount,
    {
        MintLog { actor, amount }
    }
}

/// The receipt of a transfer: the debited actor, the credited actor, and
/// the amount moved.
pub struct TransferLog {
    pub from: u64,
    pub to: u64,
    pub amount: Uint256,
}

impl TransferLog {
    /// Builds the receipt of a transfer.
    pub fn new(from: u64, to: u64, amount: Uint256) -> (r: Self)
        ensures
            r.from == from,
            r.to == to,
            r.amount == amount,
    {
        TransferLog { from, to, amount }
    }
}

/// The decimal renderings of the bytes, joined by commas: the body of a
/// serialized byte array.
pub open spec fn json_byte_list(s: Seq<u8>) -> Seq<u8>
    decreases s.len(),
{
    if s.len() == 0 {
        Seq::empty()
    } else if s.len() == 1 {
        dec_digits(s[0] as nat)
    } else {
        json_byte_list(s.drop_last()) + seq![44u8] + dec_digits(s.last() as nat)
    }
}

/// The serialized form of a mint receipt: an object with the actor and the
/// amount's little-endian bytes, as `{"actor":A,"amount":{"big_uint":[..]}}`.
pub open spec fn mint_log_json(actor: u64, amount_le: Seq<u8>) -> Seq<u8> {
    seq![123u8, 34u8, 97u8, 99u8, 116u8, 111u8, 114u8, 34u8, 58u8] + dec_digits(actor as nat)
        + seq![
        44u8, 34u8, 97u8, 109u8, 111u8, 117u8, 110u8, 116u8, 34u8, 58u8, 123u8, 34u8, 98u8, 105u8,
        103u8, 95u8, 117u8, 105u8, 110u8, 116u8, 34u8, 58u8, 91u8,
    ] + json_byte_list(amount_le) + seq![93u8, 125u8, 125u8]
}

/// The serialized form of a transfer receipt, as
/// `{"from":F,"to":T,"amount":{"big_uint":[..]}}`.
pub open spec fn transfer_log_json(from: u64, to: u64, amount_le: Seq<u8>) -> Seq<u8> {
    seq![123u8, 34u8, 102u8, 114u8, 111u8, 109u8, 34u8, 58u8] + dec_digits(from as nat) + seq![
        44u8, 34u8, 116u8, 111u8, 34u8, 58u8,
    ] + dec_digits(to as nat) + seq![
        44u8, 34u8, 97u8, 109u8, 111u8, 117u8, 110u8, 116u8, 34u8, 58u8, 123u8, 34u8, 98u8, 105u8,
        103u8, 95u8, 117u8, 105u8, 110u8, 116u8, 34u8, 58u8, 91u8,
    ] + json_byte_list(amount_le) + seq![93u8, 125u8, 125u8]
}

/// Appends the decimal rendering of `x`.
fn push_u64_decimal(out: &mut Vec<u8>, x: u64)
    ensures
        final(out)@ == old(out)@ + dec_digits(x as nat),
{
    let n = Uint256::from_u64(x);
    let digits = n.to_decimal();
    append_bytes(out, &digits);
}

/// Appends the comma-separated decimal renderings of the bytes.
fn push_byte_list(out: &mut Vec<u8>, bytes: &Vec<u8>)
    ensures
        final(out)@ == old(out)@ + json_byte_list(bytes@),
{
    let mut i: usize = 0;
    while i < bytes.len()
        invariant
            i <= bytes@.len(),
            out@ == old(out)@ + json_byte_list(bytes@.take(i as int)),
        decreases bytes@.len() - i,
    {
        if i > 0 {
            out.push(44);
        }
        push_u64_decimal(out, bytes[i] as u64);
        proof {
            let t = bytes@.take(i + 1);
            assert(t.drop_last() =~= bytes@.take(i as int));
            assert(t.last() == bytes@[i as int]);
            if i == 0 {
                assert(bytes@.take(0) =~= Seq::<u8>::empty());
                assert(out@ =~= old(out)@ + json_byte_list(t));
            } else {
                assert(out@ =~= old(out)@ + json_byte_list(t));
            }
        }
        i = i + 1;
    }
    proof {
        assert(bytes@.take(bytes@.len() as int) =~= bytes@);
    }
}

impl MintLog {
    /// Serializes the receipt for an external caller's audit record.
    pub fn to_bytes(&self) -> (r: Vec<u8>)
        requires
            self.amount.wf(),
        ensures
            r@ == mint_log_json(self.actor, le_bytes_of(self.amount)),
    {
        let mut out: Vec<u8> = Vec::new();
        let head: Vec<u8> = vec![123u8, 34, 97, 99, 116, 111, 114, 34, 58];
        proof {
            assert(head@ =~= seq![123u8, 34u8, 97u8, 99u8, 116u8, 111u8, 114u8, 34u8, 58u8]);
        }
        append_bytes(&mut out, &head);
        push_u64_decimal(&mut out, self.actor);
        let mid: Vec<u8> = vec![
            44u8, 34, 97, 109, 111, 117, 110, 116, 34, 58, 123, 34, 98, 105, 103, 95, 117, 105,
            110, 116, 34, 58, 91,
        ];
        proof {
            assert(mid@ =~= seq![
                44u8, 34u8, 97u8, 109u8, 111u8, 117u8, 110u8, 116u8, 34u8, 58u8, 123u8, 34u8, 98u8,
                105u8, 103u8, 95u8, 117u8, 105u8, 110u8, 116u8, 34u8, 58u8, 91u8,
            ]);
        }
        append_bytes(&mut out, &mid);
        let le = self.amount.to_bytes_le();
        push_byte_list(&mut out, &le);
        let tail: Vec<u8> = vec![93u8, 125, 125];
        proof {
            assert(tail@ =~= seq![93u8, 125u8, 125u8]);
        }
        append_bytes(&mut out, &tail);
        proof {
            assert(out@ =~= mint_log_json(self.actor, le_bytes_of(self.amount)));
        }
        out
    }
}

impl TransferLog {
    /// Serializes the receipt for an external caller's audit record.
    pub fn to_bytes(&self) -> (r: Vec<u8>)
        requires
            self.amount.wf(),
        ensures
            r@ == transfer_log_json(self.from, self.to, le_bytes_of(self.amount)),
    {
        let mut out: Vec<u8> = Vec::new();
        let head: Vec<u8> = vec![123u8, 34, 102, 114, 111, 109, 34, 58];
        proof {
            assert(head@ =~= seq![123u8, 34u8, 102u8, 114u8, 111u8, 109u8, 34u8, 58u8]);
        }
        append_bytes(&mut out, &head);
        push_u64_decimal(&mut out, self.from);
        let mid1: Vec<u8> = vec![44u8, 34, 116, 111, 34, 58];
        proof {
            assert(mid1@ =~= seq![44u8, 34u8, 116u8, 111u8, 34u8, 58u8]);
        }
        append_bytes(&mut out, &mid1);
        push_u64_decimal(&mut out, self.to);
        let mid2: Vec<u8> = vec![
            44u8, 34, 97, 109, 111, 117, 110, 116, 34, 58, 123, 34, 98, 105, 103, 95, 117, 105,
            110, 116, 34, 58, 91,
        ];
        proof {
            assert(mid2@ =~= seq![
                44u8, 34u8, 97u8, 109u8, 111u8, 117u8, 110u8, 116u8, 34u8, 58u8, 123u8, 34u8, 98u8,
                105u8, 103u8, 95u8, 117u8, 105u8, 110u8, 116u8, 34u8, 58u8, 91u8,
            ]);
        }
        append_bytes(&mut out, &mid2);
        let le = self.amount.to_bytes_le();
        push_byte_list(&mut out, &le);
        let tail: Vec<u8> = vec![93u8, 125, 125];
        proof {
            assert(tail@ =~= seq![93u8, 125u8, 125u8]);
        }
        append_bytes(&mut out, &tail);
        proof {
            assert(out@ =~= transfer_log_json(self.from, self.to, le_bytes_of(self.amount)));
        }
        out
    }
}

} // verus!

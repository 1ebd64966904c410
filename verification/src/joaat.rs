//! The forward hash, the finalization inverter and the preimage validator.
use vstd::prelude::*;
use vstd::string::StringSliceAdditionalSpecFns;

use crate::model::{
    fold_bytes, joaat_hash, lemma_wrapping_add_eq, lemma_wrapping_mul_eq, lemma_wrapping_sub_eq,
    undo_finalize, unscramble, unwind_bytes,
};

verus! {

/// Hashes the given string with the Jenkins one-at-a-time mix: per byte,
/// add the byte, multiply by 1025 and avalanche; then finalize.
pub fn hash(input: &str) -> (r: u32)
    ensures
        r == joaat_hash(input.spec_bytes()),
{
    let bytes = input.as_bytes();
    let mut acc: u32 = 0;
    let mut i: usize = 0;
    while i < bytes.len()
        invariant
            i <= bytes@.len(),
            bytes@ == input.spec_bytes(),
            acc == fold_bytes(0, bytes@.take(i as int)),
        decreases bytes@.len() - i,
    {
        let a = acc.wrapping_add(bytes[i] as u32);
        let b = a.wrapping_add(a << 10);
        proof {
            lemma_wrapping_add_eq(acc, bytes@[i as int] as u32);
            lemma_wrapping_add_eq(a, a << 10);
            assert(bytes@.take(i + 1).drop_last() =~= bytes@.take(i as int));
            assert(bytes@.take(i + 1).last() == bytes@[i as int]);
        }
        acc = b ^ (b >> 6);
        i += 1;
    }
    proof {
        assert(bytes@.take(bytes@.len() as int) =~= bytes@);
    }
    let f = acc.wrapping_add(acc << 3);
    let g = f ^ (f >> 11);
    let h = g.wrapping_add(g << 15);
    proof {
        lemma_wrapping_add_eq(acc, acc << 3);
        lemma_wrapping_add_eq(g, g << 15);
    }
    h
}

/// Undoes the finalization step of a target hash, returning the accumulator
/// state as of just after the last input byte was folded in.
pub fn undo_finalization(hash: u32) -> (r: u32)
    ensures
        r == undo_finalize(hash),
{
    let a = hash.wrapping_mul(0x3FFF_8001);  // inverse of hash += hash << 15
    let b = a ^ (a >> 11) ^ (a >> 22);
    let c = b.wrapping_mul(0x38E3_8E39);  // inverse of hash += hash << 3
    proof {
        lemma_wrapping_mul_eq(hash, 0x3FFF_8001);
        lemma_wrapping_mul_eq(b, 0x38E3_8E39);
    }
    c
}

/// Checks whether an input is a valid pre-image of an unfinalized hash:
/// replay the inversion of one mixing round per byte, last byte first, and
/// test whether the accumulator comes back to its initial value 0.
pub fn is_preimage(input: &str, target: u32) -> (r: bool)
    ensures
        r == (unwind_bytes(target, input.spec_bytes()) == 0),
{
    let bytes = input.as_bytes();
    let mut acc: u32 = target;
    let mut i: usize = bytes.len();
    proof {
        assert(bytes@.take(bytes@.len() as int) =~= bytes@);
    }
    while i > 0
        invariant
            i <= bytes@.len(),
            bytes@ == input.spec_bytes(),
            unwind_bytes(target, bytes@) == unwind_bytes(acc, bytes@.take(i as int)),
        decreases i,
    {
        i -= 1;
        let y = acc ^ (acc >> 6) ^ (acc >> 12) ^ (acc >> 18) ^ (acc >> 24) ^ (acc >> 30);
        let m = y.wrapping_mul(0xC00F_FC01);  // inverse of hash += hash << 10
        let next = m.wrapping_sub(bytes[i] as u32);
        proof {
            lemma_wrapping_mul_eq(y, 0xC00F_FC01);
            assert(m == unscramble(acc));
            lemma_wrapping_sub_eq(m, bytes@[i as int] as u32);
            assert(bytes@.take(i + 1).drop_last() =~= bytes@.take(i as int));
            assert(bytes@.take(i + 1).last() == bytes@[i as int]);
        }
        acc = next;
    }
    acc == 0
}

} // verus!

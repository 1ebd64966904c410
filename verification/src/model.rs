//! Mathematical model of the Jenkins one-at-a-time checksum and of the
//! backward preimage search.
//!
//! Everything here is specification-level: wrapping 32-bit arithmetic,
//! the per-byte mixing round and its inverse, the finalization mix and its
//! inverse, and the sequence of strings that the pruned depth-first search
//! emits.  The executable code is proved to return exactly these values.
use vstd::prelude::*;

verus! {

/// Addition modulo 2^32.
pub open spec fn wadd(a: u32, b: u32) -> u32 {
    (a + b) as u32
}

/// Subtraction modulo 2^32.
pub open spec fn wsub(a: u32, b: u32) -> u32 {
    (a - b) as u32
}

/// Multiplication modulo 2^32.
pub open spec fn wmul(a: u32, b: u32) -> u32 {
    (a * b) as u32
}

/// The mixing applied after a byte has been added into the accumulator:
/// multiply by 1025 (as `x += x << 10`), then avalanche with `x ^= x >> 6`.
pub open spec fn scramble(x: u32) -> u32 {
    let y = wadd(x, x << 10);
    y ^ (y >> 6)
}

/// One full per-byte round of the hash: add the byte value, then scramble.
pub open spec fn mix_round(acc: u32, v: u32) -> u32 {
    scramble(wadd(acc, v))
}

/// Inverse of [`scramble`]: cancel the avalanche by XOR-folding shifted
/// copies, then multiply by the inverse of 1025 modulo 2^32.
pub open spec fn unscramble(x: u32) -> u32 {
    wmul(x ^ (x >> 6) ^ (x >> 12) ^ (x >> 18) ^ (x >> 24) ^ (x >> 30), 0xC00F_FC01)
}

/// The accumulator after folding every byte of `s`, in order, into `acc`.
pub open spec fn fold_bytes(acc: u32, s: Seq<u8>) -> u32
    decreases s.len(),
{
    if s.len() == 0 {
        acc
    } else {
        mix_round(fold_bytes(acc, s.drop_last()), s.last() as u32)
    }
}

/// The accumulator after folding every character code of `s`, in order,
/// into `acc`.  The backward search treats each position as one code.
pub open spec fn fold_codes(acc: u32, s: Seq<char>) -> u32
    decreases s.len(),
{
    if s.len() == 0 {
        acc
    } else {
        mix_round(fold_codes(acc, s.drop_last()), s.last() as u32)
    }
}

/// The post-loop finalization mix: `x += x << 3`, `x ^= x >> 11`,
/// `x += x << 15`.
pub open spec fn finalize_mix(x: u32) -> u32 {
    let a = wadd(x, x << 3);
    let b = a ^ (a >> 11);
    wadd(b, b << 15)
}

/// The complete hash of a byte sequence: fold from 0, then finalize.
pub open spec fn joaat_hash(s: Seq<u8>) -> u32 {
    finalize_mix(fold_bytes(0, s))
}

/// Inverse of [`finalize_mix`]: undo the three finalization operations in
/// reverse order, using the modular inverses of 32769 and 9.
pub open spec fn undo_finalize(h: u32) -> u32 {
    let a = wmul(h, 0x3FFF_8001);
    let b = a ^ (a >> 11) ^ (a >> 22);
    wmul(b, 0x38E3_8E39)
}

/// The validator's replay: undo one round per byte, last byte first.
/// A candidate is a preimage of the unfinalized state `h` exactly when the
/// replay of all its bytes ends at 0.
pub open spec fn unwind_bytes(h: u32, s: Seq<u8>) -> u32
    decreases s.len(),
{
    if s.len() == 0 {
        h
    } else {
        unwind_bytes(wsub(unscramble(h), s.last() as u32), s.drop_last())
    }
}

/// The smallest character code in `s` (0 if `s` is empty).
pub open spec fn min_code(s: Seq<char>) -> u32
    decreases s.len(),
{
    if s.len() == 0 {
        0
    } else if s.len() == 1 {
        s[0] as u32
    } else {
        let m = min_code(s.drop_last());
        let c = s.last() as u32;
        if c < m {
            c
        } else {
            m
        }
    }
}

/// The largest character code in `s` (0 if `s` is empty).
pub open spec fn max_code(s: Seq<char>) -> u32
    decreases s.len(),
{
    if s.len() == 0 {
        0
    } else if s.len() == 1 {
        s[0] as u32
    } else {
        let m = max_code(s.drop_last());
        let c = s.last() as u32;
        if c > m {
            c
        } else {
            m
        }
    }
}

/// Every character of `s` has a code of at most `hi`.
pub open spec fn codes_at_most(s: Seq<char>, hi: u32) -> bool {
    forall|i: int| #![trigger s[i]] 0 <= i < s.len() ==> (s[i] as u32) <= hi
}

/// The alphabet leaves no hole in its code range: every code between its
/// smallest and largest members is the code of one of its characters.
pub open spec fn covers_code_range(s: Seq<char>) -> bool {
    forall|v: u32|
        #![trigger s.contains(((v as u8) as char))]
        min_code(s) <= v <= max_code(s) ==> s.contains(((v as u8) as char))
}

/// The string emitted when the search bottoms out at the first position
/// with recovered value `v`: if `v` lies within the alphabet's code range,
/// one string whose first character carries code `v`, else nothing.
pub open spec fn emit_first(v: u32, suffix: Seq<char>, lo: u32, hi: u32) -> Seq<Seq<char>> {
    if lo <= v && v <= hi {
        seq![seq![((v as u8) as char)] + suffix]
    } else {
        Seq::empty()
    }
}

/// The depth-dependent pruning bound: a branch whose recovered value
/// exceeds the bound at depth 1 or 2 cannot reach a valid first character
/// and is discarded.  The products are taken over the unbounded integers,
/// so the comparison never wraps.
pub open spec fn depth_pruned(v: u32, depth: nat, hi: u32) -> bool {
    ||| (depth == 1 && v > hi * 1_043)
    ||| (depth == 2 && v > hi * 1_084_746)
}

/// Everything the pruned backward search emits from accumulator `h` at
/// `depth`, with the characters of `suffix` already fixed at the positions
/// above `depth`.  Strings appear in the order the recursion finds them:
/// characters at decreasing depth enumerated in alphabet order.
pub open spec fn search_results(
    h: u32,
    depth: nat,
    suffix: Seq<char>,
    alphabet: Seq<char>,
    lo: u32,
    hi: u32,
) -> Seq<Seq<char>>
    decreases depth, alphabet.len() + 1,
{
    let v = unscramble(h);
    if depth == 0 {
        emit_first(v, suffix, lo, hi)
    } else if depth_pruned(v, depth, hi) {
        Seq::empty()
    } else {
        search_results_from(v, depth, suffix, alphabet, lo, hi, 0)
    }
}

/// The part of [`search_results`] contributed by the alphabet characters
/// from index `i` on, once the recovered value `v` at `depth` is known.
pub open spec fn search_results_from(
    v: u32,
    depth: nat,
    suffix: Seq<char>,
    alphabet: Seq<char>,
    lo: u32,
    hi: u32,
    i: nat,
) -> Seq<Seq<char>>
    decreases depth, alphabet.len() - i,
{
    if depth == 0 || i >= alphabet.len() {
        Seq::empty()
    } else {
        let c = alphabet[i as int];
        search_results(wsub(v, c as u32), (depth - 1) as nat, seq![c] + suffix, alphabet, lo, hi)
            + search_results_from(v, depth, suffix, alphabet, lo, hi, i + 1)
    }
}

/// What one dispatched worker emits: the search with the character at the
/// current depth pinned to `c` instead of ranging over the whole alphabet.
/// At depth 0 there is no position left to pin, and the pin is ignored.
pub open spec fn pinned_results(
    h: u32,
    depth: nat,
    c: char,
    suffix: Seq<char>,
    alphabet: Seq<char>,
    lo: u32,
    hi: u32,
) -> Seq<Seq<char>> {
    let v = unscramble(h);
    if depth == 0 {
        emit_first(v, suffix, lo, hi)
    } else if depth_pruned(v, depth, hi) {
        Seq::empty()
    } else {
        search_results(
            wsub(v, c as u32),
            (depth - 1) as nat,
            seq![c] + suffix,
            alphabet,
            lo,
            hi,
        )
    }
}

/// What one call of the backward search emits, pinned or not.
pub open spec fn reverse_results(
    h: u32,
    depth: nat,
    suffix: Seq<char>,
    alphabet: Seq<char>,
    lo: u32,
    hi: u32,
    force: Option<char>,
) -> Seq<Seq<char>> {
    match force {
        Option::None => search_results(h, depth, suffix, alphabet, lo, hi),
        Option::Some(c) => pinned_results(h, depth, c, suffix, alphabet, lo, hi),
    }
}

/// The concatenation, in alphabet order from index `i` on, of what the
/// workers pinned to each alphabet character emit.  The dispatcher joins
/// its workers into exactly this sequence.
pub open spec fn pinned_concat(
    h: u32,
    depth: nat,
    suffix: Seq<char>,
    alphabet: Seq<char>,
    lo: u32,
    hi: u32,
    i: nat,
) -> Seq<Seq<char>>
    decreases alphabet.len() - i,
{
    if i >= alphabet.len() {
        Seq::empty()
    } else {
        pinned_results(h, depth, alphabet[i as int], suffix, alphabet, lo, hi) + pinned_concat(
            h,
            depth,
            suffix,
            alphabet,
            lo,
            hi,
            i + 1,
        )
    }
}

/// The full result list of a preimage search: undo the finalization of the
/// target, then run the backward search from the last position with the
/// alphabet's code range as the first-position bounds.
pub open spec fn preimages(target: u32, length: nat, alphabet: Seq<char>) -> Seq<Seq<char>>
    recommends
        length >= 1,
{
    search_results(
        undo_finalize(target),
        (length - 1) as nat,
        Seq::empty(),
        alphabet,
        min_code(alphabet),
        max_code(alphabet),
    )
}

/// Everything the search would emit with the depth 1 and depth 2 bound
/// checks removed: the same recursion over candidate characters, with the
/// branches never discarded early.
pub open spec fn exhaustive_results(
    h: u32,
    depth: nat,
    suffix: Seq<char>,
    alphabet: Seq<char>,
    lo: u32,
    hi: u32,
) -> Seq<Seq<char>>
    decreases depth, alphabet.len() + 1,
{
    let v = unscramble(h);
    if depth == 0 {
        emit_first(v, suffix, lo, hi)
    } else {
        exhaustive_results_from(v, depth, suffix, alphabet, lo, hi, 0)
    }
}

/// The part of [`exhaustive_results`] contributed by the alphabet
/// characters from index `i` on.
pub open spec fn exhaustive_results_from(
    v: u32,
    depth: nat,
    suffix: Seq<char>,
    alphabet: Seq<char>,
    lo: u32,
    hi: u32,
    i: nat,
) -> Seq<Seq<char>>
    decreases depth, alphabet.len() - i,
{
    if depth == 0 || i >= alphabet.len() {
        Seq::empty()
    } else {
        let c = alphabet[i as int];
        exhaustive_results(
            wsub(v, c as u32),
            (depth - 1) as nat,
            seq![c] + suffix,
            alphabet,
            lo,
            hi,
        ) + exhaustive_results_from(v, depth, suffix, alphabet, lo, hi, i + 1)
    }
}

/// The preimage search without its pruning bounds.
pub open spec fn exhaustive_preimages(target: u32, length: nat, alphabet: Seq<char>) -> Seq<
    Seq<char>,
>
    recommends
        length >= 1,
{
    exhaustive_results(
        undo_finalize(target),
        (length - 1) as nat,
        Seq::empty(),
        alphabet,
        min_code(alphabet),
        max_code(alphabet),
    )
}

/// `u32::wrapping_add` computes [`wadd`].
pub proof fn lemma_wrapping_add_eq(a: u32, b: u32)
    ensures
        vstd::wrapping::u32_specs::wrapping_add(a, b) == wadd(a, b),
{
    if a + b > u32::MAX {
        assert((a + b - 0x1_0000_0000) as u32 == (a + b) as u32) by (bit_vector)
            requires
                a + b > 0xFFFF_FFFF,
        ;
    }
}

/// `u32::wrapping_sub` computes [`wsub`].
pub proof fn lemma_wrapping_sub_eq(a: u32, b: u32)
    ensures
        vstd::wrapping::u32_specs::wrapping_sub(a, b) == wsub(a, b),
{
    if a - b < 0 {
        assert((a - b + 0x1_0000_0000) as u32 == (a - b) as u32) by (bit_vector)
            requires
                a < b,
        ;
    }
}

/// `u32::wrapping_mul` computes [`wmul`].
pub proof fn lemma_wrapping_mul_eq(a: u32, b: u32)
    ensures
        vstd::wrapping::u32_specs::wrapping_mul(a, b) == wmul(a, b),
{
    assert(a as nat * b as nat == (a * b) as nat);
    assert(((a * b) % 0x1_0000_0000) as u32 == (a * b) as u32) by (bit_vector);
}

} // verus!

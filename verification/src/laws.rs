//! The laws of the library, proved once and for all: the mixing pipeline's
//! inversions really invert it, the backward search emits only true
//! preimages, it misses none over an ASCII alphabet, the pruning bounds
//! never change the result, and the result is a function of the inputs.
use vstd::prelude::*;
use vstd::utf8::{
    char_u32_cast, encode_utf8, is_ascii_chars, is_ascii_chars_encode_utf8,
    is_ascii_chars_nat_bound,
};

use crate::model::{
    codes_at_most, covers_code_range, emit_first, depth_pruned, exhaustive_preimages,
    exhaustive_results, exhaustive_results_from, finalize_mix, fold_bytes, fold_codes, joaat_hash,
    max_code, min_code, mix_round, preimages, scramble, search_results, search_results_from,
    undo_finalize, unscramble, unwind_bytes, wadd, wmul, wsub,
};

verus! {

/// Adding and then subtracting the same value modulo 2^32 cancels, and so
/// does the reverse.
proof fn lemma_wadd_wsub_cancel(a: u32, b: u32)
    ensures
        wsub(wadd(a, b), b) == a,
        wadd(wsub(a, b), b) == a,
{
    assert(wsub(wadd(a, b), b) == a && wadd(wsub(a, b), b) == a) by (bit_vector);
}

/// The per-round mixing (multiply by 1025, avalanche by `x ^= x >> 6`) is a
/// bijection on 32-bit values, and [`unscramble`] is its inverse.
#[verifier::rlimit(100)]
proof fn lemma_scramble_bijective(x: u32)
    ensures
        unscramble(scramble(x)) == x,
        scramble(unscramble(x)) == x,
{
    assert(unscramble(scramble(x)) == x) by (bit_vector);
    assert(scramble(unscramble(x)) == x) by (bit_vector);
}

/// Multiplying by the inverse of 32769 modulo 2^32 undoes `x += x << 15`,
/// in either order.
#[verifier::rlimit(100)]
proof fn lemma_fin_shift15_inverse(x: u32)
    ensures
        wmul(wadd(x, x << 15), 0x3FFF_8001) == x,
        wadd(wmul(x, 0x3FFF_8001), wmul(x, 0x3FFF_8001) << 15) == x,
{
    assert(wmul(wadd(x, x << 15), 0x3FFF_8001) == x) by (bit_vector);
    assert(wadd(wmul(x, 0x3FFF_8001), wmul(x, 0x3FFF_8001) << 15) == x) by (bit_vector);
}

/// XOR-folding with shifts by 11 and 22 undoes `x ^= x >> 11`, in either
/// order.
proof fn lemma_fin_shift11_inverse(y: u32)
    ensures
        (y ^ (y >> 11)) ^ ((y ^ (y >> 11)) >> 11) ^ ((y ^ (y >> 11)) >> 22) == y,
        (y ^ (y >> 11) ^ (y >> 22)) ^ ((y ^ (y >> 11) ^ (y >> 22)) >> 11) == y,
{
    assert((y ^ (y >> 11)) ^ ((y ^ (y >> 11)) >> 11) ^ ((y ^ (y >> 11)) >> 22) == y)
        by (bit_vector);
    assert((y ^ (y >> 11) ^ (y >> 22)) ^ ((y ^ (y >> 11) ^ (y >> 22)) >> 11) == y)
        by (bit_vector);
}

/// Multiplying by the inverse of 9 modulo 2^32 undoes `x += x << 3`, in
/// either order.
#[verifier::rlimit(100)]
proof fn lemma_fin_shift3_inverse(x: u32)
    ensures
        wmul(wadd(x, x << 3), 0x38E3_8E39) == x,
        wadd(wmul(x, 0x38E3_8E39), wmul(x, 0x38E3_8E39) << 3) == x,
{
    assert(wmul(wadd(x, x << 3), 0x38E3_8E39) == x) by (bit_vector);
    assert(wadd(wmul(x, 0x38E3_8E39), wmul(x, 0x38E3_8E39) << 3) == x) by (bit_vector);
}

/// Finalization round-trip: undoing the finalization of a finalized value
/// returns that value, and re-applying finalization to an unfinalized value
/// returns the original hash.
pub proof fn lemma_finalization_round_trip(x: u32)
    ensures
        undo_finalize(finalize_mix(x)) == x,
        finalize_mix(undo_finalize(x)) == x,
{
    let a1 = wadd(x, x << 3);
    let a2 = a1 ^ (a1 >> 11);
    lemma_fin_shift15_inverse(a2);
    lemma_fin_shift11_inverse(a1);
    lemma_fin_shift3_inverse(x);

    let b1 = wmul(x, 0x3FFF_8001);
    let b2 = b1 ^ (b1 >> 11) ^ (b1 >> 22);
    let b3 = wmul(b2, 0x38E3_8E39);
    lemma_fin_shift3_inverse(b2);
    lemma_fin_shift11_inverse(b1);
    lemma_fin_shift15_inverse(x);
    assert(finalize_mix(b3) == x);
}

/// Replaying the validator's backward steps over the bytes of `s` starting
/// from the accumulator that folding `s` produced ends exactly where the
/// fold began.
proof fn lemma_unwind_fold(acc: u32, s: Seq<u8>)
    ensures
        unwind_bytes(fold_bytes(acc, s), s) == acc,
    decreases s.len(),
{
    if s.len() > 0 {
        let pre = fold_bytes(acc, s.drop_last());
        let b = s.last() as u32;
        lemma_scramble_bijective(wadd(pre, b));
        lemma_wadd_wsub_cancel(pre, b);
        lemma_unwind_fold(acc, s.drop_last());
    }
}

/// Forward/inverse agreement: every byte sequence is accepted by the
/// validator against the unfinalized form of its own hash.  In terms of the
/// executable functions: `is_preimage(s, undo_finalization(hash(s)))` holds
/// for every string `s`.
pub proof fn lemma_forward_inverse_agreement(s: Seq<u8>)
    ensures
        unwind_bytes(undo_finalize(joaat_hash(s)), s) == 0,
{
    lemma_finalization_round_trip(fold_bytes(0, s));
    lemma_unwind_fold(0, s);
}

/// `min_code` and `max_code` really bound every member of a non-empty
/// sequence, and both are attained.
proof fn lemma_code_extremes(s: Seq<char>)
    requires
        s.len() >= 1,
    ensures
        codes_at_most(s, max_code(s)),
        forall|i: int| #![trigger s[i]] 0 <= i < s.len() ==> min_code(s) <= (s[i] as u32),
        exists|i: int| 0 <= i < s.len() && (s[i] as u32) == max_code(s),
        exists|i: int| 0 <= i < s.len() && (s[i] as u32) == min_code(s),
    decreases s.len(),
{
    if s.len() == 1 {
        assert((s[0] as u32) == max_code(s));
        assert((s[0] as u32) == min_code(s));
    } else {
        lemma_code_extremes(s.drop_last());
        assert forall|i: int| 0 <= i < s.len() implies (s[i] as u32) <= max_code(s) && min_code(s)
            <= (s[i] as u32) by {
            if i < s.len() - 1 {
                assert(s.drop_last()[i] == s[i]);
            }
        }
        if (s.last() as u32) > max_code(s.drop_last()) {
            assert((s[s.len() - 1] as u32) == max_code(s));
        } else {
            let i = choose|i: int|
                0 <= i < s.drop_last().len() && (s.drop_last()[i] as u32) == max_code(
                    s.drop_last(),
                );
            assert((s[i] as u32) == max_code(s));
        }
        if (s.last() as u32) < min_code(s.drop_last()) {
            assert((s[s.len() - 1] as u32) == min_code(s));
        } else {
            let i = choose|i: int|
                0 <= i < s.drop_last().len() && (s.drop_last()[i] as u32) == min_code(
                    s.drop_last(),
                );
            assert((s[i] as u32) == min_code(s));
        }
    }
}

/// Over an ASCII alphabet the largest character code stays below 128.
proof fn lemma_ascii_max_code(s: Seq<char>)
    requires
        s.len() >= 1,
        is_ascii_chars(s),
    ensures
        max_code(s) < 128,
{
    lemma_code_extremes(s);
    is_ascii_chars_nat_bound(s);
    let i = choose|i: int| 0 <= i < s.len() && (s[i] as u32) == max_code(s);
    assert((s.index(i) as nat) < 128);
}

/// Folding the UTF-8 encoding of an ASCII character sequence is folding
/// its character codes: each ASCII character is its own single byte.
proof fn lemma_fold_ascii(acc: u32, s: Seq<char>)
    requires
        is_ascii_chars(s),
    ensures
        fold_bytes(acc, encode_utf8(s)) == fold_codes(acc, s),
    decreases s.len(),
{
    is_ascii_chars_encode_utf8(s);
    is_ascii_chars_nat_bound(s);
    if s.len() == 0 {
        assert(encode_utf8(s) =~= Seq::<u8>::empty());
    } else {
        assert(is_ascii_chars(s.drop_last())) by {
            assert forall|i: int| 0 <= i < s.len() - 1 implies '\0' <= #[trigger] s.drop_last()[i]
                <= '\u{7f}' by {
                assert(s.drop_last()[i] == s[i]);
            }
        }
        lemma_fold_ascii(acc, s.drop_last());
        is_ascii_chars_encode_utf8(s.drop_last());
        assert(encode_utf8(s).drop_last() =~= encode_utf8(s.drop_last()));
        assert(encode_utf8(s).last() == s.last() as u8);
        assert(((s.last() as u8) as u32) == (s.last() as u32));
    }
}

/// Shape and value of each string the pruned search emits, by mutual
/// induction with [`lemma_search_from_sound`]: it extends the fixed suffix,
/// its prefix folds back to the accumulator the call started from, its
/// first character's code lies in the bounds, and every later character
/// below the call's depth comes from the alphabet.
proof fn lemma_search_sound(
    h: u32,
    depth: nat,
    suffix: Seq<char>,
    alphabet: Seq<char>,
    lo: u32,
    hi: u32,
    k: int,
)
    requires
        hi < 256,
        0 <= k < search_results(h, depth, suffix, alphabet, lo, hi).len(),
    ensures
        ({
            let w = search_results(h, depth, suffix, alphabet, lo, hi)[k];
            &&& w.len() == depth + 1 + suffix.len()
            &&& w.skip(depth as int + 1) == suffix
            &&& fold_codes(0, w.take(depth as int + 1)) == h
            &&& lo <= (w[0] as u32) <= hi
            &&& w[0] == ((((w[0] as u32) as u8)) as char)
            &&& forall|j: int| 1 <= j <= depth ==> alphabet.contains(#[trigger] w[j])
        }),
    decreases depth, alphabet.len() + 1,
{
    let v = unscramble(h);
    lemma_scramble_bijective(h);
    if depth == 0 {
        let w = seq![((v as u8) as char)] + suffix;
        assert(search_results(h, depth, suffix, alphabet, lo, hi)[k] == w);
        assert(w.skip(1) =~= suffix);
        assert(((v as u8) as char) as u32 == v);
        assert(w.take(1) =~= seq![w[0]]);
        assert(w.take(1).drop_last() =~= Seq::<char>::empty());
        assert(w.take(1).last() == w[0]);
        assert(fold_codes(0, Seq::<char>::empty()) == 0);
        assert(wadd(0, v) == v);
        assert(fold_codes(0, w.take(1)) == mix_round(0, w[0] as u32));
        assert(fold_codes(0, w.take(1)) == scramble(v));
    } else if depth_pruned(v, depth, hi) {
        assert(false);
    } else {
        lemma_search_from_sound(v, depth, suffix, alphabet, lo, hi, 0, k);
    }
}

/// The part of [`lemma_search_sound`] for the alphabet characters from
/// index `i` on: the prefix folds back to the scramble of the recovered
/// value the characters were subtracted from.
proof fn lemma_search_from_sound(
    v: u32,
    depth: nat,
    suffix: Seq<char>,
    alphabet: Seq<char>,
    lo: u32,
    hi: u32,
    i: nat,
    k: int,
)
    requires
        hi < 256,
        depth >= 1,
        0 <= k < search_results_from(v, depth, suffix, alphabet, lo, hi, i).len(),
    ensures
        ({
            let w = search_results_from(v, depth, suffix, alphabet, lo, hi, i)[k];
            &&& w.len() == depth + 1 + suffix.len()
            &&& w.skip(depth as int + 1) == suffix
            &&& fold_codes(0, w.take(depth as int + 1)) == scramble(v)
            &&& lo <= (w[0] as u32) <= hi
            &&& w[0] == ((((w[0] as u32) as u8)) as char)
            &&& forall|j: int| 1 <= j <= depth ==> alphabet.contains(#[trigger] w[j])
        }),
    decreases depth, alphabet.len() - i,
{
    let c = alphabet[i as int];
    let child = search_results(
        wsub(v, c as u32),
        (depth - 1) as nat,
        seq![c] + suffix,
        alphabet,
        lo,
        hi,
    );
    let rest = search_results_from(v, depth, suffix, alphabet, lo, hi, i + 1);
    if k < child.len() {
        lemma_search_sound(
            wsub(v, c as u32),
            (depth - 1) as nat,
            seq![c] + suffix,
            alphabet,
            lo,
            hi,
            k,
        );
        let w = child[k];
        assert(search_results_from(v, depth, suffix, alphabet, lo, hi, i)[k] == w);
        w.lemma_seq_skip_skip(depth as int);
        assert((seq![c] + suffix).skip(1) =~= suffix);
        assert(w.skip(depth as int)[0] == w[depth as int]);
        assert(w[depth as int] == c);
        assert(w.take(depth as int + 1).drop_last() =~= w.take(depth as int));
        assert(w.take(depth as int + 1).last() == w[depth as int]);
        lemma_wadd_wsub_cancel(v, c as u32);
        assert(fold_codes(0, w.take(depth as int + 1)) == scramble(v));
        assert(alphabet.contains(c)) by {
            assert(alphabet[i as int] == c);
        }
        assert forall|j: int| 1 <= j <= depth implies alphabet.contains(#[trigger] w[j]) by {
            if j < depth {
                assert(alphabet.contains(w[j]));
            }
        }
    } else {
        lemma_search_from_sound(v, depth, suffix, alphabet, lo, hi, i + 1, k - child.len());
        assert(search_results_from(v, depth, suffix, alphabet, lo, hi, i)[k] == rest[k
            - child.len()]);
    }
}

/// Soundness of the search: every string the preimage search over an ASCII
/// alphabet returns has the requested length, hashes to the target, and
/// draws each character after the first from the alphabet; the first
/// character's code lies within the alphabet's code range, and comes from
/// the alphabet itself whenever the alphabet has no hole in that range.
pub proof fn lemma_search_soundness(target: u32, length: nat, alphabet: Seq<char>, k: int)
    requires
        length >= 1,
        alphabet.len() >= 1,
        is_ascii_chars(alphabet),
        0 <= k < preimages(target, length, alphabet).len(),
    ensures
        ({
            let w = preimages(target, length, alphabet)[k];
            &&& w.len() == length
            &&& joaat_hash(encode_utf8(w)) == target
            &&& min_code(alphabet) <= (w[0] as u32) <= max_code(alphabet)
            &&& forall|j: int| 1 <= j < length ==> alphabet.contains(#[trigger] w[j])
            &&& (covers_code_range(alphabet) ==> alphabet.contains(w[0]))
        }),
{
    let lo = min_code(alphabet);
    let hi = max_code(alphabet);
    lemma_ascii_max_code(alphabet);
    is_ascii_chars_nat_bound(alphabet);
    lemma_search_sound(
        undo_finalize(target),
        (length - 1) as nat,
        Seq::empty(),
        alphabet,
        lo,
        hi,
        k,
    );
    let w = preimages(target, length, alphabet)[k];
    assert(w.take(length as int) =~= w);
    lemma_finalization_round_trip(target);
    assert(is_ascii_chars(w)) by {
        assert forall|j: int| 0 <= j < w.len() implies '\0' <= #[trigger] w[j] <= '\u{7f}' by {
            if j >= 1 {
                assert(alphabet.contains(w[j]));
                let idx = choose|idx: int| 0 <= idx < alphabet.len() && alphabet[idx] == w[j];
                assert('\0' <= alphabet[idx] <= '\u{7f}');
            } else {
                assert((w[0] as u32) < 128);
            }
        }
    }
    lemma_fold_ascii(0, w);
    if covers_code_range(alphabet) {
        assert(alphabet.contains((((w[0] as u32) as u8)) as char));
    }
}

/// No value the last two inversion rounds can reach from a first-position
/// code of at most `hi` exceeds 1043 times `hi`, for any ASCII bound.
proof fn lemma_prune_bound_depth1(v0: u32, c1: u32, hi: u32)
    requires
        v0 <= hi,
        c1 <= hi,
        hi < 128,
    ensures
        wadd(scramble(v0), c1) <= hi * 1_043,
{
    assert(wadd(scramble(v0), c1) <= hi * 1_043) by (bit_vector)
        requires
            v0 <= hi && c1 <= hi && hi < 128,
    ;
}

/// The analogous bound one round further out: no value reachable from a
/// valid ending exceeds 1084746 times `hi`.
#[verifier::rlimit(100)]
proof fn lemma_prune_bound_depth2(v0: u32, c1: u32, c2: u32, hi: u32)
    requires
        v0 <= hi,
        c1 <= hi,
        c2 <= hi,
        hi < 128,
    ensures
        wadd(scramble(wadd(scramble(v0), c1)), c2) <= hi * 1_084_746,
{
    assert(wadd(scramble(wadd(scramble(v0), c1)), c2) <= hi * 1_084_746) by (bit_vector)
        requires
            v0 <= hi && c1 <= hi && c2 <= hi && hi < 128,
    ;
}

/// Wherever the unpruned search still emits something at depth 1 or 2, its
/// recovered value decomposes into the last one or two inversion rounds
/// applied to a first-position code within bounds; the returned triple
/// holds that decomposition.
proof fn lemma_exhaustive_from_decompose(
    v: u32,
    depth: nat,
    suffix: Seq<char>,
    alphabet: Seq<char>,
    lo: u32,
    hi: u32,
    i: nat,
) -> (t: (u32, u32, u32))
    requires
        codes_at_most(alphabet, hi),
        1 <= depth <= 2,
        exhaustive_results_from(v, depth, suffix, alphabet, lo, hi, i).len() > 0,
    ensures
        t.0 <= hi && t.1 <= hi && t.2 <= hi,
        depth == 1 ==> v == wadd(scramble(t.0), t.1),
        depth == 2 ==> v == wadd(scramble(wadd(scramble(t.0), t.1)), t.2),
    decreases depth, alphabet.len() - i,
{
    let c = alphabet[i as int];
    let cu = c as u32;
    let child = exhaustive_results(
        wsub(v, cu),
        (depth - 1) as nat,
        seq![c] + suffix,
        alphabet,
        lo,
        hi,
    );
    if child.len() > 0 {
        let h1 = wsub(v, cu);
        lemma_scramble_bijective(h1);
        lemma_wadd_wsub_cancel(v, cu);
        if depth == 1 {
            let v0 = unscramble(h1);
            assert(v == wadd(scramble(v0), cu));
            (v0, cu, 0)
        } else {
            let v1 = unscramble(h1);
            let p = lemma_exhaustive_from_decompose(
                v1,
                1,
                seq![c] + suffix,
                alphabet,
                lo,
                hi,
                0,
            );
            assert(v == wadd(scramble(v1), cu));
            (p.0, p.1, cu)
        }
    } else {
        lemma_exhaustive_from_decompose(v, depth, suffix, alphabet, lo, hi, i + 1)
    }
}

/// The pruned and the unpruned search agree from any node on, over an
/// alphabet whose codes stay below 128: a pruned branch never held a
/// result.  Mutually inductive with [`lemma_search_from_eq_exhaustive`].
proof fn lemma_search_eq_exhaustive(
    h: u32,
    depth: nat,
    suffix: Seq<char>,
    alphabet: Seq<char>,
    lo: u32,
    hi: u32,
)
    requires
        hi < 128,
        codes_at_most(alphabet, hi),
    ensures
        search_results(h, depth, suffix, alphabet, lo, hi) == exhaustive_results(
            h,
            depth,
            suffix,
            alphabet,
            lo,
            hi,
        ),
    decreases depth, alphabet.len() + 1,
{
    let v = unscramble(h);
    if depth == 0 {
    } else if depth_pruned(v, depth, hi) {
        if exhaustive_results_from(v, depth, suffix, alphabet, lo, hi, 0).len() > 0 {
            let t = lemma_exhaustive_from_decompose(v, depth, suffix, alphabet, lo, hi, 0);
            if depth == 1 {
                lemma_prune_bound_depth1(t.0, t.1, hi);
            } else {
                lemma_prune_bound_depth2(t.0, t.1, t.2, hi);
            }
            assert(false);
        }
        assert(search_results(h, depth, suffix, alphabet, lo, hi) =~= exhaustive_results(
            h,
            depth,
            suffix,
            alphabet,
            lo,
            hi,
        ));
    } else {
        lemma_search_from_eq_exhaustive(v, depth, suffix, alphabet, lo, hi, 0);
    }
}

/// The per-character halves of [`lemma_search_eq_exhaustive`].
proof fn lemma_search_from_eq_exhaustive(
    v: u32,
    depth: nat,
    suffix: Seq<char>,
    alphabet: Seq<char>,
    lo: u32,
    hi: u32,
    i: nat,
)
    requires
        hi < 128,
        codes_at_most(alphabet, hi),
        depth >= 1,
    ensures
        search_results_from(v, depth, suffix, alphabet, lo, hi, i) == exhaustive_results_from(
            v,
            depth,
            suffix,
            alphabet,
            lo,
            hi,
            i,
        ),
    decreases depth, alphabet.len() - i,
{
    if i < alphabet.len() {
        let c = alphabet[i as int];
        lemma_search_eq_exhaustive(
            wsub(v, c as u32),
            (depth - 1) as nat,
            seq![c] + suffix,
            alphabet,
            lo,
            hi,
        );
        lemma_search_from_eq_exhaustive(v, depth, suffix, alphabet, lo, hi, i + 1);
    }
}

/// Pruning soundness: over an ASCII alphabet, removing the depth 1 and
/// depth 2 bound checks changes nothing — the search with and without them
/// returns the same result list, element for element and in the same order.
pub proof fn lemma_pruning_sound(target: u32, length: nat, alphabet: Seq<char>)
    requires
        length >= 1,
        alphabet.len() >= 1,
        is_ascii_chars(alphabet),
    ensures
        preimages(target, length, alphabet) == exhaustive_preimages(target, length, alphabet),
{
    lemma_ascii_max_code(alphabet);
    lemma_code_extremes(alphabet);
    lemma_search_eq_exhaustive(
        undo_finalize(target),
        (length - 1) as nat,
        Seq::empty(),
        alphabet,
        min_code(alphabet),
        max_code(alphabet),
    );
}

/// A string in the child branch for the alphabet's character at `idx`
/// appears in the concatenation from any earlier index on.
proof fn lemma_from_contains_lift(
    v: u32,
    depth: nat,
    suffix: Seq<char>,
    alphabet: Seq<char>,
    lo: u32,
    hi: u32,
    idx: int,
    i: nat,
    w: Seq<char>,
)
    requires
        depth >= 1,
        i <= idx < alphabet.len(),
        exhaustive_results(
            wsub(v, alphabet[idx] as u32),
            (depth - 1) as nat,
            seq![alphabet[idx]] + suffix,
            alphabet,
            lo,
            hi,
        ).contains(w),
    ensures
        exhaustive_results_from(v, depth, suffix, alphabet, lo, hi, i).contains(w),
    decreases idx - i,
{
    let c = alphabet[i as int];
    let child = exhaustive_results(
        wsub(v, c as u32),
        (depth - 1) as nat,
        seq![c] + suffix,
        alphabet,
        lo,
        hi,
    );
    let rest = exhaustive_results_from(v, depth, suffix, alphabet, lo, hi, i + 1);
    if i == idx {
        let j = choose|j: int| 0 <= j < child.len() && child[j] == w;
        assert((child + rest)[j] == w);
    } else {
        lemma_from_contains_lift(v, depth, suffix, alphabet, lo, hi, idx, i + 1, w);
        let j = choose|j: int| 0 <= j < rest.len() && rest[j] == w;
        assert((child + rest)[child.len() + j] == w);
    }
}

/// The unpruned search finds every string whose prefix folds back to the
/// node's accumulator, whose later characters come from the alphabet, and
/// whose first character's code lies within bounds.
proof fn lemma_exhaustive_complete(
    h: u32,
    depth: nat,
    suffix: Seq<char>,
    alphabet: Seq<char>,
    lo: u32,
    hi: u32,
    w: Seq<char>,
)
    requires
        hi < 256,
        w.len() == depth + 1 + suffix.len(),
        w.skip(depth as int + 1) == suffix,
        fold_codes(0, w.take(depth as int + 1)) == h,
        lo <= (w[0] as u32) <= hi,
        forall|j: int| 1 <= j <= depth ==> alphabet.contains(#[trigger] w[j]),
    ensures
        exhaustive_results(h, depth, suffix, alphabet, lo, hi).contains(w),
    decreases depth,
{
    let v = unscramble(h);
    if depth == 0 {
        let w0 = w[0] as u32;
        assert(w.take(1) =~= seq![w[0]]);
        assert(w.take(1).drop_last() =~= Seq::<char>::empty());
        assert(w.take(1).last() == w[0]);
        assert(fold_codes(0, Seq::<char>::empty()) == 0);
        assert(h == scramble(wadd(0, w0)));
        assert(wadd(0, w0) == w0);
        lemma_scramble_bijective(w0);
        assert(v == w0);
        char_u32_cast(w[0], w0);
        assert(((w0 as u8) as char) == (w0 as char));
        assert(w =~= seq![((v as u8) as char)] + suffix);
        let emitted = emit_first(v, suffix, lo, hi);
        assert(emitted[0] == w);
        assert(emitted.contains(w)) by {
            assert(emitted[0] == w);
        }
    } else {
        let c = w[depth as int];
        assert(alphabet.contains(c));
        let idx = choose|idx: int| 0 <= idx < alphabet.len() && alphabet[idx] == c;
        assert(w.take(depth as int + 1).drop_last() =~= w.take(depth as int));
        assert(w.take(depth as int + 1).last() == w[depth as int]);
        let prev = fold_codes(0, w.take(depth as int));
        assert(h == scramble(wadd(prev, c as u32)));
        lemma_scramble_bijective(wadd(prev, c as u32));
        lemma_wadd_wsub_cancel(prev, c as u32);
        assert(v == wadd(prev, c as u32));
        assert(wsub(v, c as u32) == prev);
        w.lemma_seq_skip_skip(depth as int);
        assert(w.skip(depth as int) =~= seq![c] + suffix);
        lemma_exhaustive_complete(
            prev,
            (depth - 1) as nat,
            seq![c] + suffix,
            alphabet,
            lo,
            hi,
            w,
        );
        lemma_from_contains_lift(v, depth, suffix, alphabet, lo, hi, idx, 0, w);
    }
}

/// Completeness on ASCII alphabets: every string of the requested length
/// drawn entirely from the alphabet whose hash is the target appears in
/// the search's result list.
pub proof fn lemma_search_completeness(target: u32, length: nat, alphabet: Seq<char>, w: Seq<char>)
    requires
        length >= 1,
        alphabet.len() >= 1,
        is_ascii_chars(alphabet),
        w.len() == length,
        forall|j: int| 0 <= j < length ==> alphabet.contains(#[trigger] w[j]),
        joaat_hash(encode_utf8(w)) == target,
    ensures
        preimages(target, length, alphabet).contains(w),
{
    let lo = min_code(alphabet);
    let hi = max_code(alphabet);
    lemma_code_extremes(alphabet);
    lemma_ascii_max_code(alphabet);
    assert(is_ascii_chars(w)) by {
        assert forall|j: int| 0 <= j < w.len() implies '\0' <= #[trigger] w[j] <= '\u{7f}' by {
            assert(alphabet.contains(w[j]));
            let idx = choose|idx: int| 0 <= idx < alphabet.len() && alphabet[idx] == w[j];
            assert('\0' <= alphabet[idx] <= '\u{7f}');
        }
    }
    lemma_fold_ascii(0, w);
    lemma_finalization_round_trip(fold_codes(0, w));
    assert(w.take(length as int) =~= w);
    assert(w.skip(length as int) =~= Seq::<char>::empty());
    assert(lo <= (w[0] as u32) <= hi) by {
        assert(alphabet.contains(w[0]));
        let idx = choose|idx: int| 0 <= idx < alphabet.len() && alphabet[idx] == w[0];
        assert(alphabet[idx] == w[0]);
    }
    lemma_exhaustive_complete(
        undo_finalize(target),
        (length - 1) as nat,
        Seq::empty(),
        alphabet,
        lo,
        hi,
        w,
    );
    lemma_pruning_sound(target, length, alphabet);
}

/// Determinism: the result of a preimage search is a function of the
/// target, the length and the alphabet alone — two result lists that both
/// satisfy the search's contract on the same inputs are equal, in content
/// and in order.
pub proof fn lemma_find_preimages_deterministic(
    target: u32,
    length: nat,
    alphabet: Seq<char>,
    r1: Seq<Seq<char>>,
    r2: Seq<Seq<char>>,
)
    requires
        r1 == preimages(target, length, alphabet),
        r2 == preimages(target, length, alphabet),
    ensures
        r1 == r2,
{
}

} // verus!

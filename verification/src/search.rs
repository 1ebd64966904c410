//! The pruned backward preimage search and its parallel dispatcher.
use rayon::iter::{IntoParallelRefIterator, ParallelIterator};
use vstd::prelude::*;

use crate::joaat::undo_finalization;
use crate::model::{
    depth_pruned, lemma_wrapping_mul_eq, lemma_wrapping_sub_eq, max_code, min_code, pinned_concat,
    pinned_results, preimages, reverse_results, search_results, search_results_from, unscramble,
    wsub,
};

verus! {

/// Relies on `String::push`, which appends the given character to the end
/// of the string.
#[verifier::external_body]
fn push_char(s: &mut String, c: char)
    ensures
        final(s)@ == old(s)@.push(c),
{
    s.push(c);
}

/// Builds the string holding exactly the characters of `buffer`, in order.
fn collect_string(buffer: &Vec<char>) -> (s: String)
    ensures
        s@ == buffer@,
{
    let mut s = String::new();
    let mut i: usize = 0;
    while i < buffer.len()
        invariant
            i <= buffer@.len(),
            s@ == buffer@.take(i as int),
        decreases buffer@.len() - i,
    {
        push_char(&mut s, buffer[i]);
        proof {
            assert(buffer@.take(i + 1) =~= buffer@.take(i as int).push(buffer@[i as int]));
        }
        i += 1;
    }
    proof {
        assert(buffer@.take(buffer@.len() as int) =~= buffer@);
    }
    s
}

/// A scratch buffer of `n` placeholder characters.
fn filled_buffer(n: usize) -> (r: Vec<char>)
    ensures
        r@.len() == n,
{
    let mut r: Vec<char> = Vec::new();
    let mut i: usize = 0;
    while i < n
        invariant
            r@.len() == i,
            i <= n,
        decreases n - i,
    {
        r.push('\0');
        i += 1;
    }
    r
}

/// The smallest and largest character codes of a non-empty alphabet.
fn get_character_bounds(characters: &Vec<char>) -> (r: (u32, u32))
    requires
        characters@.len() >= 1,
    ensures
        r.0 == min_code(characters@),
        r.1 == max_code(characters@),
{
    let mut lo: u32 = characters[0] as u32;
    let mut hi: u32 = lo;
    let mut i: usize = 1;
    proof {
        assert(characters@.take(1) =~= seq![characters@[0]]);
    }
    while i < characters.len()
        invariant
            1 <= i <= characters@.len(),
            lo == min_code(characters@.take(i as int)),
            hi == max_code(characters@.take(i as int)),
        decreases characters@.len() - i,
    {
        let c = characters[i] as u32;
        proof {
            assert(characters@.take(i + 1).drop_last() =~= characters@.take(i as int));
            assert(characters@.take(i + 1).last() == characters@[i as int]);
        }
        if c < lo {
            lo = c;
        }
        if c > hi {
            hi = c;
        }
        i += 1;
    }
    proof {
        assert(characters@.take(characters@.len() as int) =~= characters@);
    }
    (lo, hi)
}

/// One level of the pruned backward search: undo the avalanche and the
/// multiplication of the round at `depth`, stop or prune where the
/// recovered value settles it, and otherwise subtract a candidate
/// character code and descend.  Appends every completed string to
/// `output`, leaving the characters above `depth` in `buffer` untouched.
fn reverse(
    h: u32,
    buffer: &mut Vec<char>,
    depth: usize,
    characters: &Vec<char>,
    min_char: u32,
    max_char: u32,
    force_char: Option<char>,
    output: &mut Vec<String>,
)
    requires
        depth < old(buffer)@.len(),
    ensures
        final(buffer)@.len() == old(buffer)@.len(),
        final(buffer)@.skip(depth + 1) == old(buffer)@.skip(depth + 1),
        final(output).deep_view() == old(output).deep_view() + reverse_results(
            h,
            depth as nat,
            old(buffer)@.skip(depth + 1),
            characters@,
            min_char,
            max_char,
            force_char,
        ),
    decreases depth,
{
    let ghost suffix = buffer@.skip(depth + 1);
    let ghost base = output.deep_view();
    let ghost emitted = reverse_results(
        h,
        depth as nat,
        suffix,
        characters@,
        min_char,
        max_char,
        force_char,
    );

    // invert the mixing of this round
    let y = h ^ (h >> 6) ^ (h >> 12) ^ (h >> 18) ^ (h >> 24) ^ (h >> 30);
    let v = y.wrapping_mul(0xC00F_FC01);  // inverse of hash += hash << 10
    proof {
        lemma_wrapping_mul_eq(y, 0xC00F_FC01);
        assert(v == unscramble(h));
    }

    if depth == 0 {
        if v < min_char || v > max_char {
            proof {
                assert(base + emitted =~= base);
            }
            return ;
        }
        // the recovered value is the code of the first character
        let first = (#[verifier::truncate] (v as u8)) as char;
        buffer[0] = first;
        let s = collect_string(buffer);
        output.push(s);
        proof {
            assert(buffer@.skip(depth + 1) =~= suffix);
            assert(buffer@ =~= seq![first] + suffix);
            assert(output.deep_view() =~= base + emitted);
        }
        return ;
    }

    // for the lowest two remaining levels, abort early if no solution is
    // possible; the products are exact, so the bound never wraps
    if depth == 1 {
        if (v as u64) > (max_char as u64) * 1_043 {
            proof {
                assert(depth_pruned(v, depth as nat, max_char));
                assert(base + emitted =~= base);
            }
            return ;
        }
    }
    if depth == 2 {
        if (v as u64) > (max_char as u64) * 1_084_746 {
            proof {
                assert(depth_pruned(v, depth as nat, max_char));
                assert(base + emitted =~= base);
            }
            return ;
        }
    }
    proof {
        assert(!depth_pruned(v, depth as nat, max_char));
    }

    match force_char {
        Option::Some(c) => {
            buffer[depth] = c;
            let next = v.wrapping_sub(c as u32);
            proof {
                lemma_wrapping_sub_eq(v, c as u32);
                assert(buffer@.skip(depth as int) =~= seq![c] + suffix);
            }
            reverse(next, buffer, depth - 1, characters, min_char, max_char, None, output);
            proof {
                buffer@.lemma_seq_skip_skip(depth as int);
                assert((seq![c] + suffix).skip(1) =~= suffix);
                assert(buffer@.skip(depth + 1) =~= suffix);
            }
        },
        Option::None => {
            let mut i: usize = 0;
            while i < characters.len()
                invariant
                    i <= characters@.len(),
                    1 <= depth < buffer@.len(),
                    buffer@.len() == old(buffer)@.len(),
                    buffer@.skip(depth + 1) == suffix,
                    v == unscramble(h),
                    !depth_pruned(v, depth as nat, max_char),
                    base + search_results_from(
                        v,
                        depth as nat,
                        suffix,
                        characters@,
                        min_char,
                        max_char,
                        0,
                    ) == output.deep_view() + search_results_from(
                        v,
                        depth as nat,
                        suffix,
                        characters@,
                        min_char,
                        max_char,
                        i as nat,
                    ),
                decreases characters@.len() - i,
            {
                let c = characters[i];
                buffer[depth] = c;
                let next = v.wrapping_sub(c as u32);
                let ghost before = output.deep_view();
                proof {
                    lemma_wrapping_sub_eq(v, c as u32);
                    assert(buffer@.skip(depth as int) =~= seq![c] + suffix);
                }
                reverse(next, buffer, depth - 1, characters, min_char, max_char, None, output);
                proof {
                    buffer@.lemma_seq_skip_skip(depth as int);
                    assert((seq![c] + suffix).skip(1) =~= suffix);
                    assert(buffer@.skip(depth + 1) =~= suffix);
                    let child = search_results(
                        wsub(v, c as u32),
                        (depth - 1) as nat,
                        seq![c] + suffix,
                        characters@,
                        min_char,
                        max_char,
                    );
                    assert(output.deep_view() =~= before + child);
                    assert(search_results_from(
                        v,
                        depth as nat,
                        suffix,
                        characters@,
                        min_char,
                        max_char,
                        i as nat,
                    ) == child + search_results_from(
                        v,
                        depth as nat,
                        suffix,
                        characters@,
                        min_char,
                        max_char,
                        (i + 1) as nat,
                    ));
                    assert(base + search_results_from(
                        v,
                        depth as nat,
                        suffix,
                        characters@,
                        min_char,
                        max_char,
                        0,
                    ) =~= output.deep_view() + search_results_from(
                        v,
                        depth as nat,
                        suffix,
                        characters@,
                        min_char,
                        max_char,
                        (i + 1) as nat,
                    ));
                }
                i += 1;
            }
            proof {
                assert(search_results_from(
                    v,
                    depth as nat,
                    suffix,
                    characters@,
                    min_char,
                    max_char,
                    characters@.len() as nat,
                ) =~= Seq::<Seq<char>>::empty());
                assert(output.deep_view() =~= base + emitted);
            }
        },
    }
}

/// One dispatched worker: the backward search from the last position with
/// that position's character pinned to `c`, on a buffer and result list of
/// its own.
fn search_pinned(
    h: u32,
    length: usize,
    c: char,
    characters: &Vec<char>,
    min_char: u32,
    max_char: u32,
) -> (out: Vec<String>)
    requires
        length >= 1,
    ensures
        out.deep_view() == pinned_results(
            h,
            (length - 1) as nat,
            c,
            Seq::empty(),
            characters@,
            min_char,
            max_char,
        ),
{
    let mut buffer = filled_buffer(length);
    let mut out: Vec<String> = Vec::new();
    let ghost emitted = pinned_results(
        h,
        (length - 1) as nat,
        c,
        Seq::empty(),
        characters@,
        min_char,
        max_char,
    );
    proof {
        assert(buffer@.skip(length as int) =~= Seq::<char>::empty());
        assert(Seq::<Seq<char>>::empty() + emitted =~= emitted);
    }
    reverse(h, &mut buffer, length - 1, characters, min_char, max_char, Some(c), &mut out);
    out
}

/// Relies on rayon's `par_iter`, `map` and `collect` over a slice: the
/// indexed parallel iterator applies the closure to every element, and
/// collecting into a `Vec` places each worker's result at its input's
/// index, whatever order the workers finish in.
#[verifier::external_body]
fn dispatch_workers(
    h: u32,
    length: usize,
    characters: &Vec<char>,
    min_char: u32,
    max_char: u32,
) -> (r: Vec<Vec<String>>)
    requires
        length >= 1,
    ensures
        r@.len() == characters@.len(),
        forall|i: int|
            0 <= i < characters@.len() ==> (#[trigger] r@[i]).deep_view() == pinned_results(
                h,
                (length - 1) as nat,
                characters@[i],
                Seq::empty(),
                characters@,
                min_char,
                max_char,
            ),
{
    characters
        .par_iter()
        .map(|c| search_pinned(h, length, *c, characters, min_char, max_char))
        .collect()
}

/// Joining the pinned workers in alphabet order yields exactly the
/// unpinned search: a pruned node leaves every worker empty, and otherwise
/// each worker contributes one branch of the recursion.
proof fn lemma_pinned_concat_from(
    h: u32,
    depth: nat,
    suffix: Seq<char>,
    alphabet: Seq<char>,
    lo: u32,
    hi: u32,
    i: nat,
)
    requires
        depth >= 1,
    ensures
        depth_pruned(unscramble(h), depth, hi) ==> pinned_concat(
            h,
            depth,
            suffix,
            alphabet,
            lo,
            hi,
            i,
        ) == Seq::<Seq<char>>::empty(),
        !depth_pruned(unscramble(h), depth, hi) ==> pinned_concat(
            h,
            depth,
            suffix,
            alphabet,
            lo,
            hi,
            i,
        ) == search_results_from(unscramble(h), depth, suffix, alphabet, lo, hi, i),
    decreases alphabet.len() - i,
{
    let v = unscramble(h);
    if i < alphabet.len() {
        lemma_pinned_concat_from(h, depth, suffix, alphabet, lo, hi, i + 1);
        if depth_pruned(v, depth, hi) {
            assert(pinned_concat(h, depth, suffix, alphabet, lo, hi, i) =~= Seq::<
                Seq<char>,
            >::empty());
        }
    } else {
        assert(search_results_from(v, depth, suffix, alphabet, lo, hi, i) =~= Seq::<
            Seq<char>,
        >::empty());
    }
}

/// Find all possible pre-images of a length of a hash.  The result holds
/// exactly the strings of that length whose backward replay of the
/// unfinalized target ends inside the alphabet's code range, in the
/// deterministic order of the search: grouped by the character pinned at
/// the last position in alphabet order, one parallel worker per character,
/// with the first-position character varying fastest inside a group.
pub fn find_preimages(target: u32, input_length: usize, characters: Vec<char>) -> (r: Vec<String>)
    requires
        input_length >= 1,
        characters@.len() >= 1,
    ensures
        r.deep_view() == preimages(target, input_length as nat, characters@),
{
    let hash = undo_finalization(target);
    let (min_char, max_char) = get_character_bounds(&characters);

    let mut output: Vec<String> = Vec::new();

    if input_length == 1 {
        // a single position leaves nothing to fan out over
        let mut buffer = filled_buffer(input_length);
        proof {
            assert(buffer@.skip(input_length as int) =~= Seq::<char>::empty());
            assert(Seq::<Seq<char>>::empty() + preimages(target, input_length as nat, characters@)
                =~= preimages(target, input_length as nat, characters@));
        }
        reverse(hash, &mut buffer, 0, &characters, min_char, max_char, None, &mut output);
        return output;
    }

    let ghost d = (input_length - 1) as nat;
    let parts = dispatch_workers(hash, input_length, &characters, min_char, max_char);

    let mut i: usize = 0;
    while i < parts.len()
        invariant
            i <= parts@.len(),
            parts@.len() == characters@.len(),
            forall|j: int|
                0 <= j < characters@.len() ==> (#[trigger] parts@[j]).deep_view()
                    == pinned_results(
                    hash,
                    d,
                    characters@[j],
                    Seq::empty(),
                    characters@,
                    min_char,
                    max_char,
                ),
            output.deep_view() + pinned_concat(
                hash,
                d,
                Seq::empty(),
                characters@,
                min_char,
                max_char,
                i as nat,
            ) == pinned_concat(hash, d, Seq::empty(), characters@, min_char, max_char, 0),
        decreases parts@.len() - i,
    {
        let ghost osnap = output.deep_view();
        let ghost part_view = parts@[i as int].deep_view();
        let mut k: usize = 0;
        while k < parts[i].len()
            invariant
                i < parts@.len(),
                part_view == parts@[i as int].deep_view(),
                k <= parts@[i as int]@.len(),
                output.deep_view() == osnap + part_view.take(k as int),
            decreases parts@[i as int]@.len() - k,
        {
            let piece = parts[i][k].clone();
            output.push(piece);
            proof {
                assert(part_view.take(k + 1) =~= part_view.take(k as int).push(
                    parts@[i as int]@[k as int]@,
                ));
                assert(output.deep_view() =~= (osnap + part_view.take(k as int)).push(
                    parts@[i as int]@[k as int]@,
                ));
            }
            k += 1;
        }
        proof {
            assert(part_view.take(parts@[i as int]@.len() as int) =~= part_view);
            assert(output.deep_view() + pinned_concat(
                hash,
                d,
                Seq::empty(),
                characters@,
                min_char,
                max_char,
                (i + 1) as nat,
            ) =~= pinned_concat(hash, d, Seq::empty(), characters@, min_char, max_char, 0));
        }
        i += 1;
    }
    proof {
        lemma_pinned_concat_from(hash, d, Seq::empty(), characters@, min_char, max_char, 0);
        assert(pinned_concat(
            hash,
            d,
            Seq::empty(),
            characters@,
            min_char,
            max_char,
            characters@.len() as nat,
        ) =~= Seq::<Seq<char>>::empty());
        assert(output.deep_view() + Seq::<Seq<char>>::empty() =~= output.deep_view());
        assert(output.deep_view() == preimages(target, input_length as nat, characters@));
    }
    output
}

/// Sizing hook for a brute-force range enumerator; it computes nothing yet.
pub fn calculate_brute_boundaries(characters: &[char], length: usize) {
}

} // verus!

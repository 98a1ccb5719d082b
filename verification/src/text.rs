//! Byte-level text primitives shared by the chunker, the markup stripper and
//! the citation extractor: the whitespace class, token counting (a token is a
//! maximal run of non-whitespace bytes), and word spans with exact offsets.
//!
//! All text in this crate is handled as UTF-8 bytes. Every boundary the
//! library ever cuts at is an ASCII byte (whitespace or punctuation), and
//! UTF-8 continuation bytes never collide with ASCII, so byte offsets are
//! always char boundaries of the original string.

use vstd::prelude::*;

verus! {

/// A byte counts as whitespace exactly when ASCII does: horizontal tab, line
/// feed, vertical tab, form feed, carriage return, space.
pub open spec fn is_ws(b: u8) -> bool {
    b == 32 || b == 9 || b == 10 || b == 11 || b == 12 || b == 13
}

/// Executable whitespace test, usable in specifications as `is_ws`.
#[verifier::when_used_as_spec(is_ws)]
pub fn byte_is_ws(b: u8) -> (r: bool)
    ensures
        r == is_ws(b),
{
    b == 32 || b == 9 || b == 10 || b == 11 || b == 12 || b == 13
}

/// Number of tokens in `s[i..]`, where `in_word` says whether `s[i]` would
/// continue a token begun before `i`.
pub open spec fn tokens_from(s: Seq<u8>, i: int, in_word: bool) -> nat
    decreases s.len() - i,
{
    if i < 0 || i >= s.len() {
        0
    } else if is_ws(s[i]) {
        tokens_from(s, i + 1, false)
    } else if in_word {
        tokens_from(s, i + 1, true)
    } else {
        1 + tokens_from(s, i + 1, true)
    }
}

/// The approximate token count of a text: the number of maximal runs of
/// non-whitespace bytes.
pub open spec fn token_count(s: Seq<u8>) -> nat {
    tokens_from(s, 0, false)
}

/// The word spans of `s[i..]`: half-open offset pairs of the maximal runs of
/// non-whitespace bytes. `cur` is the start of the run still open at `i`.
pub open spec fn words_from(s: Seq<u8>, i: int, cur: Option<int>) -> Seq<(int, int)>
    decreases s.len() - i,
{
    if i < 0 || i >= s.len() {
        match cur {
            Option::Some(st) => seq![(st, if i < 0 { 0int } else { s.len() as int })],
            Option::None => Seq::empty(),
        }
    } else if is_ws(s[i]) {
        match cur {
            Option::Some(st) => seq![(st, i)] + words_from(s, i + 1, Option::None),
            Option::None => words_from(s, i + 1, Option::None),
        }
    } else {
        match cur {
            Option::Some(st) => words_from(s, i + 1, cur),
            Option::None => words_from(s, i + 1, Option::Some(i)),
        }
    }
}

/// The word spans of a whole text.
pub open spec fn words(s: Seq<u8>) -> Seq<(int, int)> {
    words_from(s, 0, Option::None)
}

/// There are exactly as many word spans as tokens.
pub proof fn lemma_words_from_count(s: Seq<u8>, i: int, cur: Option<int>)
    requires
        0 <= i <= s.len(),
    ensures
        words_from(s, i, cur).len() == tokens_from(s, i, cur is Some) + (
        if cur is Some {
            1nat
        } else {
            0nat
        }),
    decreases s.len() - i,
{
    if i >= s.len() {
    } else {
        if is_ws(s[i]) {
            lemma_words_from_count(s, i + 1, Option::None);
        } else {
            match cur {
                Option::Some(st) => {
                    lemma_words_from_count(s, i + 1, cur);
                },
                Option::None => {
                    lemma_words_from_count(s, i + 1, Option::Some(i));
                },
            }
        }
    }
}

/// The word spans lie within `[lo, s.len())`, are nonempty, in increasing
/// order, and made of non-whitespace bytes only.
pub open spec fn words_wf(s: Seq<u8>, ws: Seq<(int, int)>, lo: int) -> bool {
    &&& forall|k: int|
        0 <= k < ws.len() ==> lo <= #[trigger] ws[k].0 < ws[k].1 <= s.len()
    &&& forall|k: int|
        0 <= k < ws.len() ==> forall|j: int|
            #[trigger] ws[k].0 <= j < ws[k].1 ==> !is_ws(s[j])
    &&& forall|k: int| 0 <= k < ws.len() - 1 ==> #[trigger] ws[k].1 < ws[k + 1].0 + 1
}

pub proof fn lemma_words_from_wf(s: Seq<u8>, i: int, cur: Option<int>)
    requires
        0 <= i <= s.len(),
        cur matches Option::Some(st) ==> 0 <= st < i && forall|j: int|
            st <= j < i ==> !is_ws(#[trigger] s[j]),
    ensures
        words_wf(
            s,
            words_from(s, i, cur),
            match cur {
                Option::Some(st) => st,
                Option::None => i,
            },
        ),
    decreases s.len() - i,
{
    if i >= s.len() {
    } else if is_ws(s[i]) {
        lemma_words_from_wf(s, i + 1, Option::None);
    } else {
        match cur {
            Option::Some(st) => {
                lemma_words_from_wf(s, i + 1, cur);
            },
            Option::None => {
                lemma_words_from_wf(s, i + 1, Option::Some(i));
            },
        }
    }
}

/// Counts the tokens of a text: the executable side of `token_count`.
pub fn approx_token_count(text: &Vec<u8>) -> (count: usize)
    ensures
        count == token_count(text@),
{
    let n: usize = text.len();
    let mut count: usize = 0;
    let mut in_word: bool = false;
    let mut i: usize = 0;
    proof {
        lemma_words_from_count(text@, 0, Option::None);
        lemma_words_from_wf(text@, 0, Option::None);
    }
    while i < n
        invariant
            n == text@.len(),
            0 <= i <= n,
            count + tokens_from(text@, i as int, in_word) == token_count(text@),
            count <= i,
        decreases n - i,
    {
        let b = text[i];
        if byte_is_ws(b) {
            in_word = false;
        } else {
            if !in_word {
                count = count + 1;
            }
            in_word = true;
        }
        i = i + 1;
    }
    count
}

/// Collects the word spans of a text: the executable side of `words`.
pub fn find_words(text: &Vec<u8>) -> (out: Vec<(usize, usize)>)
    ensures
        out@.len() == words(text@).len(),
        forall|k: int|
            0 <= k < out@.len() ==> (#[trigger] out@[k]).0 == words(text@)[k].0 && out@[k].1
                == words(text@)[k].1,
{
    let n: usize = text.len();
    let mut out: Vec<(usize, usize)> = Vec::new();
    let mut cur: Option<usize> = Option::None;
    let mut i: usize = 0;
    while i < n
        invariant
            n == text@.len(),
            0 <= i <= n,
            cur matches Option::Some(st) ==> 0 <= st < i,
            words(text@) == out@.map_values(|p: (usize, usize)| (p.0 as int, p.1 as int))
                + words_from(
                text@,
                i as int,
                match cur {
                    Option::Some(st) => Option::Some(st as int),
                    Option::None => Option::None,
                },
            ),
        decreases n - i,
    {
        let b = text[i];
        if byte_is_ws(b) {
            if let Option::Some(st) = cur {
                out.push((st, i));
                proof {
                    assert(out@.map_values(|p: (usize, usize)| (p.0 as int, p.1 as int))
                        =~= out@.subrange(0, out@.len() - 1).map_values(
                        |p: (usize, usize)| (p.0 as int, p.1 as int),
                    ) + seq![(st as int, i as int)]);
                }
                cur = Option::None;
            }
        } else {
            if cur.is_none() {
                cur = Option::Some(i);
            }
        }
        i = i + 1;
    }
    if let Option::Some(st) = cur {
        out.push((st, n));
        proof {
            assert(out@.map_values(|p: (usize, usize)| (p.0 as int, p.1 as int)) =~= out@.subrange(
                0,
                out@.len() - 1,
            ).map_values(|p: (usize, usize)| (p.0 as int, p.1 as int)) + seq![
                (st as int, n as int),
            ]);
        }
    }
    proof {
        assert(words(text@) =~= out@.map_values(|p: (usize, usize)| (p.0 as int, p.1 as int)));
        assert forall|k: int| 0 <= k < out@.len() implies (#[trigger] out@[k]).0
            == words(text@)[k].0 && out@[k].1 == words(text@)[k].1 by {
            assert(words(text@)[k] == out@.map_values(
                |p: (usize, usize)| (p.0 as int, p.1 as int),
            )[k]);
        }
    }
    out
}

/// Appends `src` to `dst`.
pub fn append_bytes(dst: &mut Vec<u8>, src: &Vec<u8>)
    ensures
        final(dst)@ == old(dst)@ + src@,
{
    let n: usize = src.len();
    let mut i: usize = 0;
    while i < n
        invariant
            n == src@.len(),
            0 <= i <= n,
            dst@ == old(dst)@ + src@.subrange(0, i as int),
        decreases n - i,
    {
        dst.push(src[i]);
        proof {
            assert(old(dst)@ + src@.subrange(0, i as int) + seq![src@[i as int]] =~= old(dst)@
                + src@.subrange(0, i + 1));
        }
        i = i + 1;
    }
    proof {
        assert(old(dst)@ + src@.subrange(0, n as int) =~= old(dst)@ + src@);
    }
}

/// Copies `v[from..to]` out as a fresh vector.
pub fn bytes_range(v: &Vec<u8>, from: usize, to: usize) -> (out: Vec<u8>)
    requires
        from <= to <= v@.len(),
    ensures
        out@ == v@.subrange(from as int, to as int),
{
    let mut out: Vec<u8> = Vec::new();
    let mut i: usize = from;
    while i < to
        invariant
            from <= i <= to <= v@.len(),
            out@ == v@.subrange(from as int, i as int),
        decreases to - i,
    {
        out.push(v[i]);
        proof {
            assert(v@.subrange(from as int, i as int) + seq![v@[i as int]] =~= v@.subrange(
                from as int,
                i + 1,
            ));
        }
        i = i + 1;
    }
    out
}

/// Byte-wise equality of two vectors.
pub fn bytes_eq(a: &Vec<u8>, b: &Vec<u8>) -> (r: bool)
    ensures
        r == (a@ == b@),
{
    let n: usize = a.len();
    if n != b.len() {
        proof {
            assert(a@.len() != b@.len());
        }
        return false;
    }
    let mut i: usize = 0;
    while i < n
        invariant
            n == a@.len() == b@.len(),
            0 <= i <= n,
            forall|j: int| 0 <= j < i ==> a@[j] == b@[j],
        decreases n - i,
    {
        if a[i] != b[i] {
            return false;
        }
        i = i + 1;
    }
    proof {
        assert(a@ =~= b@);
    }
    true
}

/// Copies a byte string.
pub fn copy_bytes(v: &Vec<u8>) -> (out: Vec<u8>)
    ensures
        out@ == v@,
{
    let mut out: Vec<u8> = Vec::new();
    append_bytes(&mut out, v);
    proof {
        assert(out@ =~= v@);
    }
    out
}

} // verus!

//! Markup stripping and whitespace normalization.
//!
//! Text that carries no markup is normalized directly by verified code; text
//! with markup goes through the HTML parser once to extract its text nodes,
//! and the joined result is then normalized by verified code.

use vstd::prelude::*;

use crate::text::{bytes_range, find_words, lemma_words_from_wf, words, words_wf};

verus! {

/// The words of `s` selected by `ws`, joined with single spaces.
pub open spec fn join_words(s: Seq<u8>, ws: Seq<(int, int)>) -> Seq<u8>
    decreases ws.len(),
{
    if ws.len() == 0 {
        Seq::empty()
    } else if ws.len() == 1 {
        s.subrange(ws[0].0, ws[0].1)
    } else {
        join_words(s, ws.drop_last()) + seq![32u8] + s.subrange(ws.last().0, ws.last().1)
    }
}

/// Whitespace normalization: the maximal non-whitespace runs of `s`, joined
/// with single spaces.
pub open spec fn norm_ws(s: Seq<u8>) -> Seq<u8> {
    join_words(s, words(s))
}

/// Whether the text holds a `<` byte, the cue that it may carry markup.
pub open spec fn has_lt(s: Seq<u8>) -> bool {
    exists|i: int| 0 <= i < s.len() && s[i] == 60
}

/// What the HTML parser's text extraction returns on a byte string: its text
/// nodes joined with single spaces. A pure function of the input bytes.
pub uninterp spec fn html_text_of(s: Seq<u8>) -> Seq<u8>;

/// What stripping markup from a text yields: empty input stays empty, text
/// without `<` is only whitespace-normalized, and text with markup is parsed,
/// its text nodes joined, and the result whitespace-normalized.
pub open spec fn strip_model(s: Seq<u8>) -> Seq<u8> {
    if s.len() == 0 {
        Seq::empty()
    } else if !has_lt(s) {
        norm_ws(s)
    } else {
        norm_ws(html_text_of(s))
    }
}

/// Relies on scraper's `Html::parse_fragment` and `ElementRef::text`: parses
/// the fragment and joins the text of its descendant text nodes with single
/// spaces, a deterministic function of the input bytes alone.
#[verifier::external_body]
fn html_fragment_text(input: &Vec<u8>) -> (r: Vec<u8>)
    ensures
        r@ == html_text_of(input@),
{
    let s = String::from_utf8_lossy(input);
    let document = scraper::Html::parse_fragment(&s);
    let text = document.root_element().text().collect::<Vec<_>>().join(" ");
    text.into_bytes()
}

/// Collapses every run of whitespace to a single space and trims both ends.
pub fn normalize_whitespace(text: &Vec<u8>) -> (out: Vec<u8>)
    ensures
        out@ == norm_ws(text@),
{
    let ws = find_words(text);
    let ghost wsm = words(text@);
    proof {
        lemma_words_from_wf(text@, 0, Option::None);
    }
    let mut out: Vec<u8> = Vec::new();
    let mut k: usize = 0;
    while k < ws.len()
        invariant
            wsm == words(text@),
            words_wf(text@, wsm, 0),
            ws@.len() == wsm.len(),
            forall|j: int|
                0 <= j < ws@.len() ==> (#[trigger] ws@[j]).0 == wsm[j].0 && ws@[j].1 == wsm[j].1,
            0 <= k <= ws@.len(),
            out@ == join_words(text@, wsm.take(k as int)),
        decreases ws.len() - k,
    {
        if k > 0 {
            out.push(32u8);
        }
        let w = ws[k];
        let piece = bytes_range(text, w.0, w.1);
        crate::text::append_bytes(&mut out, &piece);
        proof {
            assert(wsm.take(k + 1).drop_last() =~= wsm.take(k as int));
            assert(wsm.take(k + 1).last() == wsm[k as int]);
            if k == 0 {
                assert(wsm.take(1) =~= seq![wsm[0]]);
                assert(out@ =~= join_words(text@, wsm.take(1)));
            } else {
                assert(out@ =~= join_words(text@, wsm.take(k as int)) + seq![32u8]
                    + text@.subrange(wsm[k as int].0, wsm[k as int].1));
            }
        }
        k = k + 1;
    }
    proof {
        assert(wsm.take(wsm.len() as int) =~= wsm);
    }
    out
}

/// Strips HTML tags and normalizes whitespace: the text of the markup's text
/// nodes, space-joined and collapsed; plain text is only collapsed.
pub fn strip_html(input: &Vec<u8>) -> (out: Vec<u8>)
    ensures
        out@ == strip_model(input@),
{
    let n: usize = input.len();
    if n == 0 {
        let out: Vec<u8> = Vec::new();
        proof {
            assert(out@ =~= strip_model(input@));
        }
        return out;
    }
    let mut found: bool = false;
    let mut i: usize = 0;
    while i < n
        invariant
            n == input@.len(),
            0 <= i <= n,
            found <==> exists|j: int| 0 <= j < i && input@[j] == 60,
        decreases n - i,
    {
        if input[i] == 60 {
            found = true;
        }
        i = i + 1;
    }
    if !found {
        normalize_whitespace(input)
    } else {
        let extracted = html_fragment_text(input);
        normalize_whitespace(&extracted)
    }
}

} // verus!

//! Splits a text into bounded, overlapping chunks with exact byte-offset
//! provenance.
//!
//! A text whose token estimate fits the budget is returned whole. Otherwise
//! it is cut into sentences at terminal punctuation, sentences are greedily
//! packed into chunks of at most `max_tokens` tokens, and each new chunk is
//! seeded with trailing sentences of its predecessor worth at most
//! `overlap_tokens` tokens. A single sentence over the budget is force-split
//! at word boundaries into fixed-size windows.

use vstd::prelude::*;

use crate::text::{
    append_bytes, approx_token_count, byte_is_ws, bytes_range, find_words, is_ws,
    lemma_words_from_wf, token_count, words, words_wf,
};

verus! {

/// A byte ends a sentence exactly when it is `.`, `?` or `!`.
pub open spec fn is_punct(b: u8) -> bool {
    b == 46 || b == 63 || b == 33
}

/// Executable terminal-punctuation test, usable in specifications as
/// `is_punct`.
#[verifier::when_used_as_spec(is_punct)]
pub fn byte_is_punct(b: u8) -> (r: bool)
    ensures
        r == is_punct(b),
{
    b == 46 || b == 63 || b == 33
}

/// The first index in `[from, to)` holding a non-whitespace byte, or `to` if
/// every byte there is whitespace.
pub open spec fn first_non_ws(s: Seq<u8>, from: int, to: int) -> int
    decreases to - from,
{
    if from >= to {
        to
    } else if !is_ws(s[from]) {
        from
    } else {
        first_non_ws(s, from + 1, to)
    }
}

/// One past the last non-whitespace byte in `[from, to)`, or `from` if every
/// byte there is whitespace.
pub open spec fn trim_end_at(s: Seq<u8>, from: int, to: int) -> int
    decreases to - from,
{
    if to <= from {
        from
    } else if !is_ws(s[to - 1]) {
        to
    } else {
        trim_end_at(s, from, to - 1)
    }
}

pub proof fn lemma_first_non_ws(s: Seq<u8>, from: int, to: int)
    requires
        0 <= from <= to <= s.len(),
    ensures
        from <= first_non_ws(s, from, to) <= to,
        first_non_ws(s, from, to) < to ==> !is_ws(s[first_non_ws(s, from, to)]),
        forall|j: int| from <= j < first_non_ws(s, from, to) ==> is_ws(#[trigger] s[j]),
    decreases to - from,
{
    if from >= to {
    } else if !is_ws(s[from]) {
    } else {
        lemma_first_non_ws(s, from + 1, to);
    }
}

/// How the first-non-whitespace index evolves when the range grows by one
/// byte on the right.
pub proof fn lemma_first_non_ws_extend(s: Seq<u8>, from: int, to: int)
    requires
        0 <= from <= to < s.len(),
    ensures
        first_non_ws(s, from, to) < to ==> first_non_ws(s, from, to + 1) == first_non_ws(
            s,
            from,
            to,
        ),
        first_non_ws(s, from, to) == to && !is_ws(s[to]) ==> first_non_ws(s, from, to + 1) == to,
        first_non_ws(s, from, to) == to && is_ws(s[to]) ==> first_non_ws(s, from, to + 1) == to
            + 1,
    decreases to - from,
{
    lemma_first_non_ws(s, from, to);
    if from >= to {
        assert(first_non_ws(s, from + 1, to + 1) == to + 1);
    } else if !is_ws(s[from]) {
    } else {
        lemma_first_non_ws_extend(s, from + 1, to);
    }
}

pub proof fn lemma_trim_end_at(s: Seq<u8>, from: int, to: int)
    requires
        0 <= from <= to <= s.len(),
    ensures
        from <= trim_end_at(s, from, to) <= to,
        trim_end_at(s, from, to) > from ==> !is_ws(s[trim_end_at(s, from, to) - 1]),
        forall|j: int| trim_end_at(s, from, to) <= j < to ==> is_ws(#[trigger] s[j]),
    decreases to - from,
{
    if to <= from {
    } else if !is_ws(s[to - 1]) {
    } else {
        lemma_trim_end_at(s, from, to - 1);
    }
}

/// A sentence of the source text: `start` is its first byte, `tend` is one
/// past its last non-whitespace byte, `end` is one past the byte that closed
/// it (the terminal punctuation, or the end of the text). The sentence's own
/// text is `s[start .. tend]`.
pub struct SentModel {
    pub start: int,
    pub tend: int,
    pub end: int,
}

/// The sentences of `s[i..]`, where the pending segment began at `seg`.
/// A terminal-punctuation byte closes a sentence only when the segment
/// already holds at least one earlier byte; trailing content without
/// punctuation forms a final sentence with its trailing whitespace trimmed
/// from the text but not from `end`.
pub open spec fn sents_from(s: Seq<u8>, i: int, seg: int) -> Seq<SentModel>
    decreases s.len() - i,
{
    if i < 0 || i >= s.len() {
        let st = first_non_ws(s, seg, s.len() as int);
        if st < s.len() {
            seq![SentModel { start: st, tend: trim_end_at(s, st, s.len() as int), end: s.len() as int }]
        } else {
            Seq::empty()
        }
    } else if is_punct(s[i]) && i > seg {
        seq![SentModel { start: first_non_ws(s, seg, i + 1), tend: i + 1, end: i + 1 }]
            + sents_from(s, i + 1, i + 1)
    } else {
        sents_from(s, i + 1, seg)
    }
}

/// The sentence decomposition of a text.
pub open spec fn sentences(s: Seq<u8>) -> Seq<SentModel> {
    sents_from(s, 0, 0)
}

/// Sentences are well-formed and ordered: each spans a nonempty byte range
/// inside the text, and they appear left to right without overlap.
pub open spec fn sents_wf(s: Seq<u8>, sents: Seq<SentModel>) -> bool {
    &&& forall|k: int|
        0 <= k < sents.len() ==> 0 <= (#[trigger] sents[k]).start < sents[k].tend <= sents[k].end
            <= s.len()
    &&& forall|k1: int, k2: int|
        0 <= k1 < k2 < sents.len() ==> (#[trigger] sents[k1]).end <= (#[trigger] sents[k2]).start
}

pub proof fn lemma_sents_from_wf(s: Seq<u8>, i: int, seg: int)
    requires
        0 <= seg <= i <= s.len(),
    ensures
        sents_wf(s, sents_from(s, i, seg)),
        forall|k: int|
            0 <= k < sents_from(s, i, seg).len() ==> (#[trigger] sents_from(s, i, seg)[k]).start
                >= seg,
    decreases s.len() - i,
{
    if i >= s.len() {
        lemma_first_non_ws(s, seg, s.len() as int);
        let st = first_non_ws(s, seg, s.len() as int);
        if st < s.len() {
            lemma_trim_end_at(s, st, s.len() as int);
            let te = trim_end_at(s, st, s.len() as int);
            if te == st {
                assert(is_ws(s[st]));
                assert(false);
            }
        }
    } else if is_punct(s[i]) && i > seg {
        lemma_first_non_ws(s, seg, i + 1);
        assert(!is_ws(s[i]));
        assert(first_non_ws(s, seg, i + 1) <= i);
        lemma_sents_from_wf(s, i + 1, i + 1);
    } else {
        lemma_sents_from_wf(s, i + 1, seg);
    }
}

pub proof fn lemma_sentences_wf(s: Seq<u8>)
    ensures
        sents_wf(s, sentences(s)),
{
    lemma_sents_from_wf(s, 0, 0);
}

/// A sentence with its byte offsets into the original input.
pub struct SentenceSpan {
    pub text: Vec<u8>,
    pub byte_start: usize,
    pub byte_end: usize,
}

impl View for SentenceSpan {
    type V = SentModel;

    open spec fn view(&self) -> SentModel {
        SentModel {
            start: self.byte_start as int,
            tend: self.byte_start + self.text@.len(),
            end: self.byte_end as int,
        }
    }
}

/// The span's text is literally the byte range `[start, tend)` of the source.
pub open spec fn sent_text_ok(sp: SentenceSpan, s: Seq<u8>) -> bool {
    &&& 0 <= sp@.start <= sp@.tend <= s.len()
    &&& sp.text@ == s.subrange(sp@.start, sp@.tend)
}

/// The views of a sentence vector.
pub open spec fn sent_views(v: Seq<SentenceSpan>) -> Seq<SentModel> {
    v.map_values(|x: SentenceSpan| x@)
}

/// Splits a text into sentences on terminal punctuation, keeping exact byte
/// offsets; leading whitespace is excluded from each sentence, and a final
/// unterminated sentence is trimmed of trailing whitespace.
pub fn split_sentences(text: &Vec<u8>) -> (out: Vec<SentenceSpan>)
    ensures
        sent_views(out@) == sentences(text@),
        forall|k: int| 0 <= k < out@.len() ==> sent_text_ok(#[trigger] out@[k], text@),
{
    let n: usize = text.len();
    let mut out: Vec<SentenceSpan> = Vec::new();
    let mut seg: usize = 0;
    let mut cur_start: Option<usize> = Option::None;
    let mut i: usize = 0;
    while i < n
        invariant
            n == text@.len(),
            0 <= seg <= i <= n,
            sentences(text@) == sent_views(out@) + sents_from(text@, i as int, seg as int),
            cur_start matches Option::Some(st) ==> seg <= st < i && first_non_ws(
                text@,
                seg as int,
                i as int,
            ) == st as int,
            cur_start is None ==> first_non_ws(text@, seg as int, i as int) == i as int,
            forall|k: int| 0 <= k < out@.len() ==> sent_text_ok(#[trigger] out@[k], text@),
        decreases n - i,
    {
        let b = text[i];
        proof {
            lemma_first_non_ws(text@, seg as int, i as int);
            lemma_first_non_ws_extend(text@, seg as int, i as int);
        }
        if byte_is_punct(b) && i > seg {
            let start: usize = match cur_start {
                Option::Some(st) => st,
                Option::None => i,
            };
            let sent_text = bytes_range(text, start, i + 1);
            let sp = SentenceSpan { text: sent_text, byte_start: start, byte_end: i + 1 };
            out.push(sp);
            proof {
                assert(sent_views(out@) =~= sent_views(out@.subrange(0, out@.len() - 1)) + seq![
                    out@[out@.len() - 1]@,
                ]);
                assert(sent_views(out@.subrange(0, out@.len() - 1)) + sents_from(
                    text@,
                    i as int,
                    seg as int,
                ) =~= sent_views(out@.subrange(0, out@.len() - 1)) + (seq![
                    SentModel {
                        start: first_non_ws(text@, seg as int, i + 1),
                        tend: i + 1,
                        end: i + 1,
                    },
                ] + sents_from(text@, i + 1, i + 1)));
                assert(sentences(text@) =~= sent_views(out@) + sents_from(text@, i + 1, i + 1));
            }
            seg = i + 1;
            cur_start = Option::None;
        } else {
            proof {
                assert(sents_from(text@, i as int, seg as int) == sents_from(
                    text@,
                    i + 1,
                    seg as int,
                ));
            }
            if cur_start.is_none() && !byte_is_ws(b) {
                cur_start = Option::Some(i);
            }
        }
        i = i + 1;
    }
    proof {
        lemma_first_non_ws(text@, seg as int, n as int);
    }
    if let Option::Some(st) = cur_start {
        let mut j: usize = n;
        while j > st && byte_is_ws(text[j - 1])
            invariant
                0 <= st <= j <= n == text@.len(),
                trim_end_at(text@, st as int, n as int) == trim_end_at(text@, st as int, j as int),
            decreases j,
        {
            j = j - 1;
        }
        proof {
            assert(trim_end_at(text@, st as int, j as int) == j as int);
        }
        let sent_text = bytes_range(text, st, j);
        out.push(SentenceSpan { text: sent_text, byte_start: st, byte_end: n });
        proof {
            assert(sent_views(out@) =~= sent_views(out@.subrange(0, out@.len() - 1)) + seq![
                out@[out@.len() - 1]@,
            ]);
            assert(sentences(text@) =~= sent_views(out@));
        }
    } else {
        proof {
            assert(sentences(text@) =~= sent_views(out@));
        }
    }
    out
}

/// A chunk in the model: its text, and the half-open byte range of the
/// source it was taken from.
pub struct ChunkModel {
    pub text: Seq<u8>,
    pub start: int,
    pub end: int,
}

/// A chunk of text with its byte offsets into the original input.
pub struct ChunkSpan {
    pub text: Vec<u8>,
    pub char_start: usize,
    pub char_end: usize,
}

impl View for ChunkSpan {
    type V = ChunkModel;

    open spec fn view(&self) -> ChunkModel {
        ChunkModel { text: self.text@, start: self.char_start as int, end: self.char_end as int }
    }
}

/// The views of a chunk vector.
pub open spec fn chunk_views(v: Seq<ChunkSpan>) -> Seq<ChunkModel> {
    v.map_values(|x: ChunkSpan| x@)
}

/// The text of a sentence of `s`.
pub open spec fn sent_text(s: Seq<u8>, m: SentModel) -> Seq<u8> {
    s.subrange(m.start, m.tend)
}

/// The token estimate of a sentence of `s`.
pub open spec fn sent_tok(s: Seq<u8>, m: SentModel) -> nat {
    token_count(sent_text(s, m))
}

/// The summed token estimate of a run of sentences.
pub open spec fn toks_sum(s: Seq<u8>, cur: Seq<SentModel>) -> nat
    decreases cur.len(),
{
    if cur.len() == 0 {
        0
    } else {
        toks_sum(s, cur.drop_last()) + sent_tok(s, cur.last())
    }
}

pub proof fn lemma_toks_sum_one(s: Seq<u8>, m: SentModel)
    ensures
        toks_sum(s, seq![m]) == sent_tok(s, m),
{
    assert(seq![m].drop_last() =~= Seq::<SentModel>::empty());
    assert(toks_sum(s, Seq::<SentModel>::empty()) == 0);
    assert(seq![m].last() == m);
}

pub proof fn lemma_toks_sum_concat(s: Seq<u8>, a: Seq<SentModel>, b: Seq<SentModel>)
    ensures
        toks_sum(s, a + b) == toks_sum(s, a) + toks_sum(s, b),
    decreases b.len(),
{
    if b.len() == 0 {
        assert(a + b =~= a);
    } else {
        assert((a + b).drop_last() =~= a + b.drop_last());
        assert((a + b).last() == b.last());
        lemma_toks_sum_concat(s, a, b.drop_last());
    }
}

/// The texts of a run of sentences joined with single spaces.
pub open spec fn join_sp(s: Seq<u8>, cur: Seq<SentModel>) -> Seq<u8>
    decreases cur.len(),
{
    if cur.len() == 0 {
        Seq::empty()
    } else if cur.len() == 1 {
        sent_text(s, cur[0])
    } else {
        join_sp(s, cur.drop_last()) + seq![32u8] + sent_text(s, cur.last())
    }
}

/// The chunk made of a nonempty run of sentences: space-joined text, offsets
/// from the first sentence's start to the last one's end.
pub open spec fn chunk_of(s: Seq<u8>, cur: Seq<SentModel>) -> ChunkModel {
    if cur.len() == 0 {
        ChunkModel { text: Seq::empty(), start: 0, end: 0 }
    } else {
        ChunkModel { text: join_sp(s, cur), start: cur[0].start, end: cur.last().end }
    }
}

/// Where the overlap seed of a closed chunk begins: the longest suffix of
/// `cur` whose summed token estimate stays within `over` is kept.
pub open spec fn seed_start(s: Seq<u8>, cur: Seq<SentModel>, over: int) -> int
    decreases cur.len(),
{
    if cur.len() == 0 {
        0
    } else if toks_sum(s, cur) <= over {
        0
    } else {
        1 + seed_start(s, cur.subrange(1, cur.len() as int), over)
    }
}

/// The overlap seed itself.
pub open spec fn seed(s: Seq<u8>, cur: Seq<SentModel>, over: int) -> Seq<SentModel> {
    cur.subrange(seed_start(s, cur, over), cur.len() as int)
}

/// The seed never carries more than `over` tokens. This is the overlap
/// bound: the token estimate shared between a chunk's seed sentences and the
/// prior chunk's tail never exceeds the overlap budget.
pub proof fn lemma_seed_token_bound(s: Seq<u8>, cur: Seq<SentModel>, over: int)
    requires
        over >= 0,
    ensures
        0 <= seed_start(s, cur, over) <= cur.len(),
        toks_sum(s, seed(s, cur, over)) <= over,
    decreases cur.len(),
{
    if cur.len() == 0 {
        assert(seed(s, cur, over) =~= cur);
    } else if toks_sum(s, cur) <= over {
        assert(seed(s, cur, over) =~= cur);
    } else {
        let cur2 = cur.subrange(1, cur.len() as int);
        lemma_seed_token_bound(s, cur2, over);
        let ss = seed_start(s, cur2, over);
        assert(seed(s, cur, over) =~= cur2.subrange(ss, cur2.len() as int));
    }
}

/// The seed start is the unique cut with the seed within budget and the
/// element before it (if any) pushing it over.
pub proof fn lemma_seed_start_unique(s: Seq<u8>, cur: Seq<SentModel>, over: int, j: int)
    requires
        over >= 0,
        0 <= j <= cur.len(),
        toks_sum(s, cur.subrange(j, cur.len() as int)) <= over,
        j > 0 ==> toks_sum(s, cur.subrange(j - 1, cur.len() as int)) > over,
    ensures
        j == seed_start(s, cur, over),
    decreases cur.len(),
{
    if cur.len() == 0 {
    } else if toks_sum(s, cur) <= over {
        if j > 0 {
            assert(cur =~= cur.subrange(0, j - 1) + cur.subrange(j - 1, cur.len() as int));
            lemma_toks_sum_concat(
                s,
                cur.subrange(0, j - 1),
                cur.subrange(j - 1, cur.len() as int),
            );
            assert(false);
        }
    } else {
        if j == 0 {
            assert(cur.subrange(0, cur.len() as int) =~= cur);
            assert(false);
        }
        let cur2 = cur.subrange(1, cur.len() as int);
        assert(cur2.subrange(j - 1, cur2.len() as int) =~= cur.subrange(j, cur.len() as int));
        if j - 1 > 0 {
            assert(cur2.subrange(j - 2, cur2.len() as int) =~= cur.subrange(
                j - 1,
                cur.len() as int,
            ));
        }
        lemma_seed_start_unique(s, cur2, over, j - 1);
    }
}

/// The fixed-size word windows of a force-split sentence. `ws` holds the
/// word offsets within `t`, `base` is where `t` begins in the source text.
/// Each window takes `max` words; the next begins `over` words back.
pub open spec fn word_windows(
    t: Seq<u8>,
    base: int,
    ws: Seq<(int, int)>,
    start: int,
    max: int,
    over: int,
) -> Seq<ChunkModel>
    decreases ws.len() - start
        when 0 <= over < max
{
    if start < 0 || start >= ws.len() {
        Seq::empty()
    } else {
        let end = if start + max <= ws.len() {
            start + max
        } else {
            ws.len() as int
        };
        let c = ChunkModel {
            text: t.subrange(ws[start].0, ws[end - 1].1),
            start: base + ws[start].0,
            end: base + ws[end - 1].1,
        };
        if end >= ws.len() {
            seq![c]
        } else {
            seq![c] + word_windows(t, base, ws, end - over, max, over)
        }
    }
}

/// Word spans grow to the right.
pub proof fn lemma_words_chain(s: Seq<u8>, ws: Seq<(int, int)>, lo: int, a: int, b: int)
    requires
        words_wf(s, ws, lo),
        0 <= a <= b < ws.len(),
    ensures
        ws[a].0 <= ws[b].0,
        ws[a].1 <= ws[b].1,
    decreases b - a,
{
    if a < b {
        lemma_words_chain(s, ws, lo, a, b - 1);
        assert(ws[b - 1].1 < ws[b].0 + 1);
    }
}

/// Every word window lies within `[base, base + t.len()]` and is ordered.
pub proof fn lemma_word_windows_bounds(
    t: Seq<u8>,
    base: int,
    ws: Seq<(int, int)>,
    start: int,
    max: int,
    over: int,
)
    requires
        words_wf(t, ws, 0),
        0 <= base,
        0 <= start,
        0 <= over < max,
    ensures
        forall|i: int|
            0 <= i < word_windows(t, base, ws, start, max, over).len() ==> 0 <= (
            #[trigger] word_windows(t, base, ws, start, max, over)[i]).start <= word_windows(
                t,
                base,
                ws,
                start,
                max,
                over,
            )[i].end <= base + t.len(),
    decreases ws.len() - start,
{
    if start >= ws.len() {
    } else {
        let end = if start + max <= ws.len() {
            start + max
        } else {
            ws.len() as int
        };
        lemma_words_chain(t, ws, 0, start, end - 1);
        assert(0 <= ws[start].0);
        assert(ws[end - 1].0 < ws[end - 1].1 <= t.len());
        let r = word_windows(t, base, ws, start, max, over);
        let c = ChunkModel {
            text: t.subrange(ws[start].0, ws[end - 1].1),
            start: base + ws[start].0,
            end: base + ws[end - 1].1,
        };
        if end < ws.len() {
            lemma_word_windows_bounds(t, base, ws, end - over, max, over);
            let rest = word_windows(t, base, ws, end - over, max, over);
            assert(r == seq![c] + rest);
            assert forall|i: int| 0 <= i < r.len() implies 0 <= (#[trigger] r[i]).start <= r[i].end
                <= base + t.len() by {
                if i == 0 {
                    assert(r[i] == c);
                } else {
                    assert(r[i] == rest[i - 1]);
                }
            }
        } else {
            assert(r == seq![c]);
            assert forall|i: int| 0 <= i < r.len() implies 0 <= (#[trigger] r[i]).start <= r[i].end
                <= base + t.len() by {
                assert(r[i] == c);
            }
        }
    }
}

/// The chunk closed from an ordered nonempty run of sentences has a valid
/// byte range.
proof fn lemma_chunk_of_bounds(s: Seq<u8>, cur: Seq<SentModel>)
    requires
        cur.len() > 0,
        forall|j: int|
            0 <= j < cur.len() ==> 0 <= (#[trigger] cur[j]).start < cur[j].tend <= cur[j].end
                <= s.len(),
        forall|j1: int, j2: int|
            0 <= j1 < j2 < cur.len() ==> (#[trigger] cur[j1]).end <= (#[trigger] cur[j2]).start,
    ensures
        0 <= chunk_of(s, cur).start <= chunk_of(s, cur).end <= s.len(),
{
    if cur.len() == 1 {
        assert(cur.last() == cur[0]);
    } else {
        assert(cur[0].end <= cur.last().start);
    }
}

/// The greedy chunking of sentences `sents[k..]` with `cur` the chunk still
/// open. A sentence over the token budget flushes the open chunk and is
/// force-split at word boundaries; otherwise sentences accumulate until the
/// budget would be exceeded, at which point the chunk closes and its seed
/// carries over.
pub open spec fn chunks_from(
    s: Seq<u8>,
    sents: Seq<SentModel>,
    k: int,
    cur: Seq<SentModel>,
    max: int,
    over: int,
) -> Seq<ChunkModel>
    decreases sents.len() - k
        when 0 <= over < max
{
    if k < 0 || k >= sents.len() {
        if cur.len() > 0 {
            seq![chunk_of(s, cur)]
        } else {
            Seq::empty()
        }
    } else {
        let sl = sent_tok(s, sents[k]);
        if sl > max {
            (if cur.len() > 0 {
                seq![chunk_of(s, cur)]
            } else {
                Seq::empty()
            }) + word_windows(
                sent_text(s, sents[k]),
                sents[k].start,
                words(sent_text(s, sents[k])),
                0,
                max,
                over,
            ) + chunks_from(s, sents, k + 1, Seq::empty(), max, over)
        } else if toks_sum(s, cur) + sl > max && cur.len() > 0 {
            seq![chunk_of(s, cur)] + chunks_from(
                s,
                sents,
                k + 1,
                seed(s, cur, over).push(sents[k]),
                max,
                over,
            )
        } else {
            chunks_from(s, sents, k + 1, cur.push(sents[k]), max, over)
        }
    }
}

/// The full chunking of a text: one whole-text chunk when the token estimate
/// fits the budget, the greedy sentence packing otherwise.
pub open spec fn chunk_model(s: Seq<u8>, max: int, over: int) -> Seq<ChunkModel> {
    if token_count(s) <= max {
        seq![ChunkModel { text: s, start: 0, end: s.len() as int }]
    } else {
        chunks_from(s, sentences(s), 0, Seq::empty(), max, over)
    }
}

/// The open chunk is an ordered run of well-formed sentences that all lie
/// before the sentence about to be read.
pub open spec fn cur_ok(s: Seq<u8>, sents: Seq<SentModel>, k: int, cur: Seq<SentModel>) -> bool {
    &&& forall|j: int|
        0 <= j < cur.len() ==> 0 <= (#[trigger] cur[j]).start < cur[j].tend <= cur[j].end
            <= s.len()
    &&& forall|j1: int, j2: int|
        0 <= j1 < j2 < cur.len() ==> (#[trigger] cur[j1]).end <= (#[trigger] cur[j2]).start
    &&& (cur.len() > 0 && 0 <= k < sents.len() ==> cur.last().end <= sents[k].start)
}

pub proof fn lemma_chunks_from_bounds(
    s: Seq<u8>,
    sents: Seq<SentModel>,
    k: int,
    cur: Seq<SentModel>,
    max: int,
    over: int,
)
    requires
        sents_wf(s, sents),
        cur_ok(s, sents, k, cur),
        0 <= k,
        0 <= over < max,
    ensures
        forall|i: int|
            0 <= i < chunks_from(s, sents, k, cur, max, over).len() ==> 0 <= (
            #[trigger] chunks_from(s, sents, k, cur, max, over)[i]).start <= chunks_from(
                s,
                sents,
                k,
                cur,
                max,
                over,
            )[i].end <= s.len(),
    decreases sents.len() - k,
{
    let r = chunks_from(s, sents, k, cur, max, over);
    if k >= sents.len() {
        if cur.len() > 0 {
            lemma_chunk_of_bounds(s, cur);
            assert forall|i: int| 0 <= i < r.len() implies 0 <= (#[trigger] r[i]).start <= r[i].end
                <= s.len() by {
                assert(r[i] == chunk_of(s, cur));
            }
        }
    } else {
        let sl = sent_tok(s, sents[k]);
        let m = sents[k];
        if sl > max {
            lemma_words_from_wf(sent_text(s, m), 0, Option::None);
            lemma_word_windows_bounds(
                sent_text(s, m),
                m.start,
                words(sent_text(s, m)),
                0,
                max,
                over,
            );
            assert(m.start + sent_text(s, m).len() == m.tend);
            assert(cur_ok(s, sents, k + 1, Seq::<SentModel>::empty()));
            lemma_chunks_from_bounds(s, sents, k + 1, Seq::empty(), max, over);
            let flushed: Seq<ChunkModel> = if cur.len() > 0 {
                seq![chunk_of(s, cur)]
            } else {
                Seq::empty()
            };
            if cur.len() > 0 {
                lemma_chunk_of_bounds(s, cur);
            }
            let ww = word_windows(sent_text(s, m), m.start, words(sent_text(s, m)), 0, max, over);
            let rest = chunks_from(s, sents, k + 1, Seq::empty(), max, over);
            assert(r == flushed + ww + rest);
            assert forall|i: int| 0 <= i < r.len() implies 0 <= (#[trigger] r[i]).start <= r[i].end
                <= s.len() by {
                if i < flushed.len() {
                    assert(r[i] == chunk_of(s, cur));
                } else if i < flushed.len() + ww.len() {
                    assert(r[i] == ww[i - flushed.len()]);
                    assert(m.start + sent_text(s, m).len() <= s.len());
                } else {
                    assert(r[i] == rest[i - flushed.len() - ww.len()]);
                }
            }
        } else if toks_sum(s, cur) + sl > max && cur.len() > 0 {
            lemma_seed_token_bound(s, cur, over);
            let sd = seed(s, cur, over);
            let cur2 = sd.push(sents[k]);
            assert forall|j: int| 0 <= j < cur2.len() implies 0 <= (#[trigger] cur2[j]).start
                < cur2[j].tend <= cur2[j].end <= s.len() by {
                let ss = seed_start(s, cur, over);
                if j < cur2.len() - 1 {
                    assert(cur2[j] == cur[ss + j]);
                } else {
                    assert(cur2[j] == sents[k]);
                }
            }
            assert forall|j1: int, j2: int| 0 <= j1 < j2 < cur2.len() implies (
            #[trigger] cur2[j1]).end <= (#[trigger] cur2[j2]).start by {
                let ss = seed_start(s, cur, over);
                if j2 < cur2.len() - 1 {
                    assert(cur2[j1] == cur[ss + j1]);
                    assert(cur2[j2] == cur[ss + j2]);
                } else {
                    assert(cur2[j2] == sents[k]);
                    assert(cur2[j1] == cur[ss + j1]);
                    if ss + j1 < cur.len() - 1 {
                        assert(cur[ss + j1].end <= cur.last().start);
                        assert(cur.last().start < cur.last().end);
                    }
                }
            }
            if k + 1 < sents.len() {
                assert(sents[k].end <= sents[k + 1].start);
            }
            assert(cur_ok(s, sents, k + 1, cur2));
            lemma_chunks_from_bounds(s, sents, k + 1, cur2, max, over);
            lemma_chunk_of_bounds(s, cur);
            let rest = chunks_from(s, sents, k + 1, cur2, max, over);
            assert(r == seq![chunk_of(s, cur)] + rest);
            assert forall|i: int| 0 <= i < r.len() implies 0 <= (#[trigger] r[i]).start <= r[i].end
                <= s.len() by {
                if i == 0 {
                    assert(r[i] == chunk_of(s, cur));
                } else {
                    assert(r[i] == rest[i - 1]);
                }
            }
        } else {
            let cur2 = cur.push(sents[k]);
            assert forall|j1: int, j2: int| 0 <= j1 < j2 < cur2.len() implies (
            #[trigger] cur2[j1]).end <= (#[trigger] cur2[j2]).start by {
                if j2 < cur2.len() - 1 {
                } else {
                    if j1 < cur.len() - 1 {
                        assert(cur[j1].end <= cur.last().start);
                        assert(cur.last().start < cur.last().end);
                    }
                }
            }
            if k + 1 < sents.len() {
                assert(sents[k].end <= sents[k + 1].start);
            }
            assert(cur_ok(s, sents, k + 1, cur2));
            lemma_chunks_from_bounds(s, sents, k + 1, cur2, max, over);
            let rest = chunks_from(s, sents, k + 1, cur2, max, over);
            assert(r == rest);
            assert forall|i: int| 0 <= i < r.len() implies 0 <= (#[trigger] r[i]).start <= r[i].end
                <= s.len() by {
                assert(r[i] == rest[i]);
            }
        }
    }
}

/// The sentence views selected by a list of indices.
pub open spec fn idx_views(v: Seq<SentenceSpan>, idxs: Seq<usize>) -> Seq<SentModel> {
    idxs.map_values(|t: usize| v[t as int]@)
}

/// Joins the selected sentences into one chunk: their texts separated by
/// single spaces, the offsets running from the first sentence's start to the
/// last one's end.
fn spans_to_chunk(sents: &Vec<SentenceSpan>, idxs: &Vec<usize>, Ghost(s): Ghost<Seq<u8>>) -> (out:
    ChunkSpan)
    requires
        idxs@.len() > 0,
        forall|j: int| 0 <= j < idxs@.len() ==> (#[trigger] idxs@[j]) < sents@.len(),
        forall|t: int| 0 <= t < sents@.len() ==> sent_text_ok(#[trigger] sents@[t], s),
    ensures
        out@ == chunk_of(s, idx_views(sents@, idxs@)),
{
    let ghost cm = idx_views(sents@, idxs@);
    let n: usize = idxs.len();
    let first: usize = idxs[0];
    let mut buf: Vec<u8> = Vec::new();
    append_bytes(&mut buf, &sents[first].text);
    proof {
        assert(cm[0] == sents@[first as int]@);
        assert(sents@[first as int].text@ == sent_text(s, cm[0]));
        assert(cm.take(1) =~= seq![cm[0]]);
        assert(buf@ == join_sp(s, cm.take(1)));
    }
    let mut j: usize = 1;
    while j < n
        invariant
            1 <= j <= n == idxs@.len(),
            cm == idx_views(sents@, idxs@),
            forall|jj: int| 0 <= jj < idxs@.len() ==> (#[trigger] idxs@[jj]) < sents@.len(),
            forall|t: int| 0 <= t < sents@.len() ==> sent_text_ok(#[trigger] sents@[t], s),
            buf@ == join_sp(s, cm.take(j as int)),
        decreases n - j,
    {
        let t: usize = idxs[j];
        buf.push(32u8);
        append_bytes(&mut buf, &sents[t].text);
        proof {
            assert(cm.take(j + 1).drop_last() =~= cm.take(j as int));
            assert(cm.take(j + 1).last() == cm[j as int]);
            assert(cm[j as int] == sents@[t as int]@);
            assert(sents@[t as int].text@ == sent_text(s, cm[j as int]));
        }
        j = j + 1;
    }
    proof {
        assert(cm.take(n as int) =~= cm);
    }
    let cs: usize = sents[first].byte_start;
    let last_idx: usize = idxs[n - 1];
    let ce: usize = sents[last_idx].byte_end;
    let out = ChunkSpan { text: buf, char_start: cs, char_end: ce };
    proof {
        assert(cm[0] == sents@[first as int]@);
        assert(cm.last() == sents@[last_idx as int]@);
    }
    out
}

/// Force-splits one overlong sentence into windows of `max_tokens` words with
/// `overlap_tokens` words of back-overlap, each window carrying byte offsets
/// relative to the sentence's position in the source text.
fn split_by_words(
    text: &Vec<u8>,
    base_offset: usize,
    max_tokens: usize,
    overlap_tokens: usize,
) -> (out: Vec<ChunkSpan>)
    requires
        overlap_tokens < max_tokens,
        base_offset + text@.len() <= usize::MAX,
    ensures
        chunk_views(out@) == word_windows(
            text@,
            base_offset as int,
            words(text@),
            0,
            max_tokens as int,
            overlap_tokens as int,
        ),
{
    let ws = find_words(text);
    let ghost wsm = words(text@);
    let ghost max = max_tokens as int;
    let ghost over = overlap_tokens as int;
    let ghost base = base_offset as int;
    proof {
        lemma_words_from_wf(text@, 0, Option::None);
    }
    let mut out: Vec<ChunkSpan> = Vec::new();
    let mut start: usize = 0;
    while start < ws.len()
        invariant
            wsm == words(text@),
            words_wf(text@, wsm, 0),
            ws@.len() == wsm.len(),
            forall|k: int|
                0 <= k < ws@.len() ==> (#[trigger] ws@[k]).0 == wsm[k].0 && ws@[k].1 == wsm[k].1,
            overlap_tokens < max_tokens,
            max == max_tokens as int && over == overlap_tokens as int && base
                == base_offset as int,
            base_offset + text@.len() <= usize::MAX,
            0 <= start,
            chunk_views(out@) + word_windows(text@, base, wsm, start as int, max, over)
                == word_windows(text@, base, wsm, 0, max, over),
        decreases ws.len() - start,
    {
        let ghost out0 = out@;
        let ghost start0 = start as int;
        let rem: usize = ws.len() - start;
        let end: usize = if rem <= max_tokens {
            ws.len()
        } else {
            start + max_tokens
        };
        proof {
            lemma_words_chain(text@, wsm, 0, start as int, end - 1);
            assert(wsm[end - 1].0 < wsm[end - 1].1 <= text@.len());
            assert(0 <= wsm[start as int].0);
        }
        let cs: usize = ws[start].0;
        let ce: usize = ws[end - 1].1;
        let ctext = bytes_range(text, cs, ce);
        out.push(ChunkSpan { text: ctext, char_start: base_offset + cs, char_end: base_offset + ce });
        let ghost end_spec: int = if start0 + max <= wsm.len() {
            start0 + max
        } else {
            wsm.len() as int
        };
        let ghost c = ChunkModel {
            text: text@.subrange(wsm[start0].0, wsm[end_spec - 1].1),
            start: base + wsm[start0].0,
            end: base + wsm[end_spec - 1].1,
        };
        proof {
            assert(end as int == end_spec);
            assert(out@[out@.len() - 1]@ == c);
            assert(chunk_views(out@) =~= chunk_views(out0) + seq![c]);
        }
        if end >= ws.len() {
            proof {
                assert(word_windows(text@, base, wsm, start0, max, over) == seq![c]);
                assert(word_windows(text@, base, wsm, wsm.len() as int, max, over)
                    == Seq::<ChunkModel>::empty());
                assert(chunk_views(out@) + word_windows(text@, base, wsm, wsm.len() as int, max, over)
                    =~= word_windows(text@, base, wsm, 0, max, over));
            }
            start = ws.len();
        } else {
            proof {
                assert(word_windows(text@, base, wsm, start0, max, over) == seq![c]
                    + word_windows(text@, base, wsm, end_spec - over, max, over));
                assert(chunk_views(out@) + word_windows(text@, base, wsm, end_spec - over, max, over)
                    =~= word_windows(text@, base, wsm, 0, max, over));
            }
            start = end - overlap_tokens;
        }
    }
    proof {
        assert(word_windows(text@, base, wsm, start as int, max, over)
            == Seq::<ChunkModel>::empty());
        assert(chunk_views(out@) =~= chunk_views(out@) + Seq::<ChunkModel>::empty());
    }
    out
}

/// Every chunk's byte range lies within the text (the span-bounds law).
pub proof fn lemma_chunk_model_bounds(s: Seq<u8>, max: int, over: int)
    requires
        0 <= over < max,
    ensures
        forall|i: int|
            0 <= i < chunk_model(s, max, over).len() ==> 0 <= (#[trigger] chunk_model(
                s,
                max,
                over,
            )[i]).start <= chunk_model(s, max, over)[i].end <= s.len(),
{
    if token_count(s) <= max {
    } else {
        lemma_sentences_wf(s);
        assert(cur_ok(s, sentences(s), 0, Seq::<SentModel>::empty()));
        lemma_chunks_from_bounds(s, sentences(s), 0, Seq::empty(), max, over);
    }
}

/// Word windows start at or after `base + ws[start].0` and move right.
proof fn lemma_word_windows_monotone(
    t: Seq<u8>,
    base: int,
    ws: Seq<(int, int)>,
    start: int,
    max: int,
    over: int,
)
    requires
        words_wf(t, ws, 0),
        0 <= base,
        0 <= start,
        0 <= over < max,
    ensures
        start < ws.len() ==> forall|i: int|
            0 <= i < word_windows(t, base, ws, start, max, over).len() ==> (
            #[trigger] word_windows(t, base, ws, start, max, over)[i]).start >= base
                + ws[start].0,
        forall|i: int, j: int|
            0 <= i <= j < word_windows(t, base, ws, start, max, over).len() ==> (
            #[trigger] word_windows(t, base, ws, start, max, over)[i]).start <= (
            #[trigger] word_windows(t, base, ws, start, max, over)[j]).start,
    decreases ws.len() - start,
{
    if start >= ws.len() {
    } else {
        let end = if start + max <= ws.len() {
            start + max
        } else {
            ws.len() as int
        };
        let r = word_windows(t, base, ws, start, max, over);
        let c = ChunkModel {
            text: t.subrange(ws[start].0, ws[end - 1].1),
            start: base + ws[start].0,
            end: base + ws[end - 1].1,
        };
        if end >= ws.len() {
            assert(r == seq![c]);
        } else {
            lemma_word_windows_monotone(t, base, ws, end - over, max, over);
            lemma_words_chain(t, ws, 0, start, end - over);
            let rest = word_windows(t, base, ws, end - over, max, over);
            assert(r == seq![c] + rest);
            assert forall|i: int| 0 <= i < r.len() implies (#[trigger] r[i]).start >= base
                + ws[start].0 by {
                if i == 0 {
                    assert(r[i] == c);
                } else {
                    assert(r[i] == rest[i - 1]);
                    assert(rest[i - 1].start >= base + ws[end - over].0);
                }
            }
            assert forall|i: int, j: int| 0 <= i <= j < r.len() implies (
            #[trigger] r[i]).start <= (#[trigger] r[j]).start by {
                if i == 0 {
                    if j > 0 {
                        assert(r[j] == rest[j - 1]);
                        assert(rest[j - 1].start >= base + ws[end - over].0);
                    }
                } else {
                    assert(r[i] == rest[i - 1]);
                    assert(r[j] == rest[j - 1]);
                }
            }
        }
    }
}

/// The lower bound on where the chunks of `chunks_from` may start: the open
/// chunk's first sentence, or the next sentence to be read.
spec fn chunks_lb(sents: Seq<SentModel>, k: int, cur: Seq<SentModel>) -> int {
    if cur.len() > 0 {
        cur[0].start
    } else if 0 <= k < sents.len() {
        sents[k].start
    } else {
        0
    }
}

proof fn lemma_chunks_from_monotone(
    s: Seq<u8>,
    sents: Seq<SentModel>,
    k: int,
    cur: Seq<SentModel>,
    max: int,
    over: int,
)
    requires
        sents_wf(s, sents),
        cur_ok(s, sents, k, cur),
        0 <= k,
        0 <= over < max,
    ensures
        forall|i: int|
            0 <= i < chunks_from(s, sents, k, cur, max, over).len() ==> (#[trigger] chunks_from(
                s,
                sents,
                k,
                cur,
                max,
                over,
            )[i]).start >= chunks_lb(sents, k, cur),
        forall|i: int, j: int|
            0 <= i <= j < chunks_from(s, sents, k, cur, max, over).len() ==> (
            #[trigger] chunks_from(s, sents, k, cur, max, over)[i]).start <= (
            #[trigger] chunks_from(s, sents, k, cur, max, over)[j]).start,
    decreases sents.len() - k,
{
    let r = chunks_from(s, sents, k, cur, max, over);
    let lb = chunks_lb(sents, k, cur);
    if k >= sents.len() {
        if cur.len() > 0 {
            assert(r == seq![chunk_of(s, cur)]);
        }
    } else {
        let sl = sent_tok(s, sents[k]);
        let m = sents[k];
        if cur.len() > 0 {
            assert(cur[0].start < cur[0].end);
            if cur.len() > 1 {
                assert(cur[0].end <= cur[cur.len() - 1].start);
            }
            assert(cur[cur.len() - 1].end <= m.start);
        }
        if sl > max {
            let flushed: Seq<ChunkModel> = if cur.len() > 0 {
                seq![chunk_of(s, cur)]
            } else {
                Seq::empty()
            };
            let t = sent_text(s, m);
            let ws = words(t);
            lemma_words_from_wf(t, 0, Option::None);
            lemma_word_windows_monotone(t, m.start, ws, 0, max, over);
            let ww = word_windows(t, m.start, ws, 0, max, over);
            assert(cur_ok(s, sents, k + 1, Seq::<SentModel>::empty()));
            lemma_chunks_from_monotone(s, sents, k + 1, Seq::empty(), max, over);
            let rest = chunks_from(s, sents, k + 1, Seq::empty(), max, over);
            assert(r == flushed + ww + rest);
            assert forall|i: int| 0 <= i < r.len() implies (#[trigger] r[i]).start >= lb by {
                if i < flushed.len() {
                    assert(r[i] == chunk_of(s, cur));
                } else if i < flushed.len() + ww.len() {
                    assert(r[i] == ww[i - flushed.len()]);
                    if ww.len() > 0 {
                        assert(0 < ws.len());
                        assert(ww[i - flushed.len()].start >= m.start + ws[0].0);
                    }
                } else {
                    assert(r[i] == rest[i - flushed.len() - ww.len()]);
                    if k + 1 < sents.len() {
                        assert(rest[i - flushed.len() - ww.len()].start >= sents[k + 1].start);
                        assert(m.end <= sents[k + 1].start);
                    }
                }
            }
            assert forall|i: int, j: int| 0 <= i <= j < r.len() implies (#[trigger] r[i]).start
                <= (#[trigger] r[j]).start by {
                let istart = (if i < flushed.len() {
                    chunk_of(s, cur).start
                } else if i < flushed.len() + ww.len() {
                    ww[i - flushed.len()].start
                } else {
                    rest[i - flushed.len() - ww.len()].start
                });
                assert(r[i].start == istart);
                if i < flushed.len() {
                    assert(r[i] == chunk_of(s, cur));
                } else if i < flushed.len() + ww.len() {
                    assert(r[i] == ww[i - flushed.len()]);
                } else {
                    assert(r[i] == rest[i - flushed.len() - ww.len()]);
                }
                if j < flushed.len() {
                    assert(r[j] == chunk_of(s, cur));
                } else if j < flushed.len() + ww.len() {
                    assert(r[j] == ww[j - flushed.len()]);
                    if ww.len() > 0 {
                        assert(ww[j - flushed.len()].start >= m.start + ws[0].0);
                    }
                } else {
                    assert(r[j] == rest[j - flushed.len() - ww.len()]);
                    if k + 1 < sents.len() {
                        assert(rest[j - flushed.len() - ww.len()].start >= sents[k + 1].start);
                        assert(m.end <= sents[k + 1].start);
                    }
                }
                if i < flushed.len() && flushed.len() <= j {
                    assert(chunk_of(s, cur).start == cur[0].start);
                }
                if flushed.len() <= i && i < flushed.len() + ww.len() && flushed.len()
                    + ww.len() <= j {
                    // a window lies inside the sentence, the rest beyond it
                    assert(ww[i - flushed.len()].start <= ww[i - flushed.len()].end <= m.start
                        + t.len()) by {
                        lemma_word_windows_bounds(t, m.start, ws, 0, max, over);
                    }
                    assert(m.start + t.len() == m.tend);
                }
            }
        } else if toks_sum(s, cur) + sl > max && cur.len() > 0 {
            lemma_seed_token_bound(s, cur, over);
            let sd = seed(s, cur, over);
            let cur2 = sd.push(m);
            let ss = seed_start(s, cur, over);
            assert forall|j: int| 0 <= j < cur2.len() implies 0 <= (#[trigger] cur2[j]).start
                < cur2[j].tend <= cur2[j].end <= s.len() by {
                if j < cur2.len() - 1 {
                    assert(cur2[j] == cur[ss + j]);
                } else {
                    assert(cur2[j] == m);
                }
            }
            assert forall|j1: int, j2: int| 0 <= j1 < j2 < cur2.len() implies (
            #[trigger] cur2[j1]).end <= (#[trigger] cur2[j2]).start by {
                if j2 < cur2.len() - 1 {
                    assert(cur2[j1] == cur[ss + j1]);
                    assert(cur2[j2] == cur[ss + j2]);
                } else {
                    assert(cur2[j2] == m);
                    assert(cur2[j1] == cur[ss + j1]);
                    if ss + j1 < cur.len() - 1 {
                        assert(cur[ss + j1].end <= cur[cur.len() - 1].start);
                        assert(cur[cur.len() - 1].start < cur[cur.len() - 1].end);
                    }
                }
            }
            if k + 1 < sents.len() {
                assert(sents[k].end <= sents[k + 1].start);
            }
            assert(cur_ok(s, sents, k + 1, cur2));
            lemma_chunks_from_monotone(s, sents, k + 1, cur2, max, over);
            let rest = chunks_from(s, sents, k + 1, cur2, max, over);
            assert(r == seq![chunk_of(s, cur)] + rest);
            assert(cur2[0].start >= cur[0].start) by {
                if sd.len() > 0 {
                    assert(cur2[0] == cur[ss]);
                    if ss > 0 {
                        assert(cur[0].end <= cur[ss].start);
                        assert(cur[0].start < cur[0].end);
                    }
                } else {
                    assert(cur2[0] == m);
                }
            }
            assert forall|i: int| 0 <= i < r.len() implies (#[trigger] r[i]).start >= lb by {
                if i == 0 {
                    assert(r[i] == chunk_of(s, cur));
                } else {
                    assert(r[i] == rest[i - 1]);
                    assert(rest[i - 1].start >= chunks_lb(sents, k + 1, cur2));
                }
            }
            assert forall|i: int, j: int| 0 <= i <= j < r.len() implies (#[trigger] r[i]).start
                <= (#[trigger] r[j]).start by {
                if i == 0 && j > 0 {
                    assert(r[j] == rest[j - 1]);
                    assert(rest[j - 1].start >= chunks_lb(sents, k + 1, cur2));
                } else if i > 0 {
                    assert(r[i] == rest[i - 1]);
                    assert(r[j] == rest[j - 1]);
                }
            }
        } else {
            let cur2 = cur.push(m);
            assert forall|j1: int, j2: int| 0 <= j1 < j2 < cur2.len() implies (
            #[trigger] cur2[j1]).end <= (#[trigger] cur2[j2]).start by {
                if j2 < cur2.len() - 1 {
                } else {
                    if j1 < cur.len() - 1 {
                        assert(cur[j1].end <= cur[cur.len() - 1].start);
                        assert(cur[cur.len() - 1].start < cur[cur.len() - 1].end);
                    }
                }
            }
            if k + 1 < sents.len() {
                assert(sents[k].end <= sents[k + 1].start);
            }
            assert(cur_ok(s, sents, k + 1, cur2));
            lemma_chunks_from_monotone(s, sents, k + 1, cur2, max, over);
            assert(r == chunks_from(s, sents, k + 1, cur2, max, over));
            assert(chunks_lb(sents, k + 1, cur2) == cur2[0].start);
            assert(cur2[0].start >= lb) by {
                if cur.len() > 0 {
                    assert(cur2[0] == cur[0]);
                } else {
                    assert(cur2[0] == m);
                }
            }
        }
    }
}

/// The span-order law: the chunks of a text start at monotonically
/// non-decreasing offsets, in output order.
pub proof fn lemma_chunk_model_monotone(s: Seq<u8>, max: int, over: int)
    requires
        0 <= over < max,
    ensures
        forall|i: int, j: int|
            0 <= i <= j < chunk_model(s, max, over).len() ==> (#[trigger] chunk_model(
                s,
                max,
                over,
            )[i]).start <= (#[trigger] chunk_model(s, max, over)[j]).start,
{
    if token_count(s) <= max {
    } else {
        lemma_sentences_wf(s);
        assert(cur_ok(s, sentences(s), 0, Seq::<SentModel>::empty()));
        lemma_chunks_from_monotone(s, sentences(s), 0, Seq::empty(), max, over);
    }
}

/// Splits a text into overlapping chunks of at most `max_tokens` tokens, with
/// at most `overlap_tokens` tokens of overlap seeded between consecutive
/// chunks, cutting at sentence boundaries when possible. Returns spans with
/// byte offsets into the original text.
///
/// A text whose token estimate fits the budget comes back as one span that is
/// the verbatim input. The overlap budget must be smaller than the chunk
/// budget, or the force-split windows could not advance.
pub fn chunk_text(text: &Vec<u8>, max_tokens: usize, overlap_tokens: usize) -> (out: Vec<ChunkSpan>)
    requires
        overlap_tokens < max_tokens,
        max_tokens <= usize::MAX / 3,
    ensures
        chunk_views(out@) == chunk_model(text@, max_tokens as int, overlap_tokens as int),
        forall|i: int|
            0 <= i < out@.len() ==> 0 <= (#[trigger] out@[i])@.start <= out@[i]@.end
                <= text@.len(),
        token_count(text@) <= max_tokens ==> out@.len() == 1 && out@[0]@.text == text@
            && out@[0]@.start == 0 && out@[0]@.end == text@.len(),
        token_count(text@) <= max_tokens ==> out@[0]@.text == text@.subrange(
            out@[0]@.start,
            out@[0]@.end,
        ),
{
    let ghost s = text@;
    let ghost max = max_tokens as int;
    let ghost over = overlap_tokens as int;
    let n: usize = text.len();
    let total = approx_token_count(text);
    if total <= max_tokens {
        let ctext = bytes_range(text, 0, n);
        let mut out: Vec<ChunkSpan> = Vec::new();
        out.push(ChunkSpan { text: ctext, char_start: 0, char_end: n });
        proof {
            assert(s.subrange(0, n as int) =~= s);
            assert(chunk_views(out@) =~= seq![
                ChunkModel { text: s, start: 0, end: s.len() as int },
            ]);
        }
        return out;
    }
    let sent_list = split_sentences(text);
    let ghost smodel = sentences(s);
    let ghost total_model = chunks_from(s, smodel, 0, Seq::<SentModel>::empty(), max, over);
    let mut chunks: Vec<ChunkSpan> = Vec::new();
    let mut current: Vec<usize> = Vec::new();
    let mut current_len: usize = 0;
    let mut k: usize = 0;
    proof {
        assert(idx_views(sent_list@, current@) =~= Seq::<SentModel>::empty());
    }
    while k < sent_list.len()
        invariant
            s == text@,
            max == max_tokens as int,
            over == overlap_tokens as int,
            overlap_tokens < max_tokens,
            max_tokens <= usize::MAX / 3,
            smodel == sentences(s),
            text@.len() <= usize::MAX,
            total_model == chunks_from(s, smodel, 0, Seq::<SentModel>::empty(), max, over),
            sent_views(sent_list@) == smodel,
            forall|t: int| 0 <= t < sent_list@.len() ==> sent_text_ok(#[trigger] sent_list@[t], s),
            0 <= k <= sent_list@.len(),
            forall|j: int| 0 <= j < current@.len() ==> (#[trigger] current@[j]) < sent_list@.len(),
            chunk_views(chunks@) + chunks_from(
                s,
                smodel,
                k as int,
                idx_views(sent_list@, current@),
                max,
                over,
            ) == total_model,
            current_len == toks_sum(s, idx_views(sent_list@, current@)),
            current_len <= max_tokens + overlap_tokens,
            forall|j: int|
                0 <= j < current@.len() ==> sent_tok(
                    s,
                    #[trigger] idx_views(sent_list@, current@)[j],
                ) <= max_tokens,
        decreases sent_list@.len() - k,
    {
        let ghost curm = idx_views(sent_list@, current@);
        let ghost chunks0 = chunks@;
        proof {
            assert(sent_list@[k as int]@ == sent_views(sent_list@)[k as int]);
        }
        let sl = approx_token_count(&sent_list[k].text);
        proof {
            assert(sent_list@[k as int].text@ == sent_text(s, smodel[k as int]));
            assert(sl == sent_tok(s, smodel[k as int]));
        }
        if sl > max_tokens {
            let ghost flushed: Seq<ChunkModel> = if curm.len() > 0 {
                seq![chunk_of(s, curm)]
            } else {
                Seq::<ChunkModel>::empty()
            };
            if current.len() > 0 {
                let c = spans_to_chunk(&sent_list, &current, Ghost(s));
                chunks.push(c);
                current = Vec::new();
                current_len = 0;
            }
            proof {
                assert(chunk_views(chunks@) =~= chunk_views(chunks0) + flushed);
            }
            proof {
                assert(sent_text_ok(sent_list@[k as int], s));
                assert(sent_list@[k as int]@.tend <= s.len());
            }
            let mut forced = split_by_words(
                &sent_list[k].text,
                sent_list[k].byte_start,
                max_tokens,
                overlap_tokens,
            );
            let ghost mid = chunks@;
            let ghost ww = chunk_views(forced@);
            chunks.append(&mut forced);
            proof {
                assert(chunk_views(chunks@) =~= chunk_views(mid) + ww);
                assert(smodel[k as int].start == sent_list@[k as int].byte_start as int);
                assert(ww == word_windows(
                    sent_text(s, smodel[k as int]),
                    smodel[k as int].start,
                    words(sent_text(s, smodel[k as int])),
                    0,
                    max,
                    over,
                ));
                assert(chunks_from(s, smodel, k as int, curm, max, over) == flushed + ww
                    + chunks_from(s, smodel, k + 1, Seq::<SentModel>::empty(), max, over));
                assert(idx_views(sent_list@, current@) =~= Seq::<SentModel>::empty());
                assert(chunk_views(chunks@) + chunks_from(
                    s,
                    smodel,
                    k + 1,
                    idx_views(sent_list@, current@),
                    max,
                    over,
                ) =~= total_model);
            }
        } else if current_len + sl > max_tokens && current.len() > 0 {
            let c = spans_to_chunk(&sent_list, &current, Ghost(s));
            chunks.push(c);
            proof {
                assert(chunk_views(chunks@) =~= chunk_views(chunks0) + seq![chunk_of(s, curm)]);
            }
            // Walk back from the end of the closed chunk, taking sentences
            // while they still fit the overlap budget.
            let mut j: usize = current.len();
            let mut olen: usize = 0;
            let mut stop: bool = false;
            proof {
                assert(curm.subrange(j as int, curm.len() as int) =~= Seq::<SentModel>::empty());
            }
            while j > 0 && !stop
                invariant
                    0 <= j <= current@.len(),
                    curm == idx_views(sent_list@, current@),
                    curm.len() == current@.len(),
                    forall|jj: int|
                        0 <= jj < current@.len() ==> (#[trigger] current@[jj])
                            < sent_list@.len(),
                    forall|t: int|
                        0 <= t < sent_list@.len() ==> sent_text_ok(#[trigger] sent_list@[t], s),
                    forall|jj: int|
                        0 <= jj < current@.len() ==> sent_tok(
                            s,
                            #[trigger] idx_views(sent_list@, current@)[jj],
                        ) <= max_tokens,
                    olen == toks_sum(s, curm.subrange(j as int, curm.len() as int)),
                    olen <= overlap_tokens,
                    overlap_tokens < max_tokens,
                    max_tokens <= usize::MAX / 3,
                    stop ==> j > 0 && olen + sent_tok(s, curm[j - 1]) > overlap_tokens,
                decreases j, (if stop { 0int } else { 1int }),
            {
                let idx: usize = current[j - 1];
                let sl2 = approx_token_count(&sent_list[idx].text);
                proof {
                    assert(curm[j - 1] == sent_list@[idx as int]@);
                    assert(sent_list@[idx as int].text@ == sent_text(s, curm[j - 1]));
                    assert(sl2 == sent_tok(s, curm[j - 1]));
                    assert(sent_tok(s, idx_views(sent_list@, current@)[j - 1]) <= max_tokens);
                }
                if olen + sl2 > overlap_tokens {
                    stop = true;
                } else {
                    proof {
                        assert(curm.subrange(j - 1, curm.len() as int) =~= seq![curm[j - 1]]
                            + curm.subrange(j as int, curm.len() as int));
                        lemma_toks_sum_concat(
                            s,
                            seq![curm[j - 1]],
                            curm.subrange(j as int, curm.len() as int),
                        );
                        lemma_toks_sum_one(s, curm[j - 1]);
                    }
                    olen = olen + sl2;
                    j = j - 1;
                }
            }
            proof {
                if j > 0 {
                    assert(curm.subrange(j - 1, curm.len() as int) =~= seq![curm[j - 1]]
                        + curm.subrange(j as int, curm.len() as int));
                    lemma_toks_sum_concat(
                        s,
                        seq![curm[j - 1]],
                        curm.subrange(j as int, curm.len() as int),
                    );
                    lemma_toks_sum_one(s, curm[j - 1]);
                }
                lemma_seed_start_unique(s, curm, over, j as int);
                assert(seed(s, curm, over) == curm.subrange(j as int, curm.len() as int));
            }
            let mut newcur: Vec<usize> = Vec::new();
            let mut t: usize = j;
            while t < current.len()
                invariant
                    j <= t <= current@.len(),
                    newcur@ == current@.subrange(j as int, t as int),
                decreases current@.len() - t,
            {
                newcur.push(current[t]);
                proof {
                    assert(current@.subrange(j as int, t as int) + seq![current@[t as int]]
                        =~= current@.subrange(j as int, t + 1));
                }
                t = t + 1;
            }
            proof {
                assert(newcur@ == current@.subrange(j as int, current@.len() as int));
                assert(idx_views(sent_list@, newcur@) =~= curm.subrange(
                    j as int,
                    curm.len() as int,
                ));
            }
            current = newcur;
            current.push(k);
            current_len = olen + sl;
            proof {
                let curm2 = idx_views(sent_list@, current@);
                assert(curm2 =~= seed(s, curm, over).push(smodel[k as int]));
                assert(toks_sum(s, curm2) == toks_sum(s, seed(s, curm, over)) + sent_tok(
                    s,
                    smodel[k as int],
                )) by {
                    assert(curm2.drop_last() =~= seed(s, curm, over));
                    assert(curm2.last() == smodel[k as int]);
                }
                assert(chunks_from(s, smodel, k as int, curm, max, over) == seq![chunk_of(s, curm)]
                    + chunks_from(s, smodel, k + 1, curm2, max, over));
                assert(chunk_views(chunks@) + chunks_from(s, smodel, k + 1, curm2, max, over)
                    =~= total_model);
                assert forall|jj: int| 0 <= jj < current@.len() implies sent_tok(
                    s,
                    #[trigger] idx_views(sent_list@, current@)[jj],
                ) <= max_tokens by {
                    if jj < current@.len() - 1 {
                        assert(idx_views(sent_list@, current@)[jj] == curm[j + jj]);
                        assert(sent_tok(s, curm[j + jj]) <= max_tokens);
                    } else {
                        assert(idx_views(sent_list@, current@)[jj] == smodel[k as int]);
                    }
                }
            }
        } else {
            current.push(k);
            current_len = current_len + sl;
            proof {
                let curm2 = idx_views(sent_list@, current@);
                assert(curm2 =~= curm.push(smodel[k as int]));
                assert(toks_sum(s, curm2) == toks_sum(s, curm) + sent_tok(s, smodel[k as int]))
                    by {
                    assert(curm2.drop_last() =~= curm);
                    assert(curm2.last() == smodel[k as int]);
                }
                assert(chunks_from(s, smodel, k as int, curm, max, over) == chunks_from(
                    s,
                    smodel,
                    k + 1,
                    curm.push(smodel[k as int]),
                    max,
                    over,
                ));
                assert(chunk_views(chunks@) + chunks_from(s, smodel, k + 1, curm2, max, over)
                    =~= total_model);
            }
        }
        k = k + 1;
    }
    if current.len() > 0 {
        let ghost curm = idx_views(sent_list@, current@);
        let c = spans_to_chunk(&sent_list, &current, Ghost(s));
        let ghost chunks0 = chunks@;
        chunks.push(c);
        proof {
            assert(chunks_from(s, smodel, k as int, curm, max, over) == seq![chunk_of(s, curm)]);
            assert(chunk_views(chunks@) =~= chunk_views(chunks0) + seq![chunk_of(s, curm)]);
            assert(chunk_views(chunks@) =~= total_model);
        }
    } else {
        proof {
            assert(chunk_views(chunks@) =~= total_model);
        }
    }
    proof {
        lemma_chunk_model_bounds(s, max, over);
        assert forall|i: int| 0 <= i < chunks@.len() implies 0 <= (#[trigger] chunks@[i])@.start
            <= chunks@[i]@.end <= text@.len() by {
            assert(chunks@[i]@ == chunk_views(chunks@)[i]);
            assert(chunk_views(chunks@)[i] == chunk_model(s, max, over)[i]);
        }
    }
    chunks
}

} // verus!

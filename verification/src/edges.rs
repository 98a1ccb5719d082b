//! Edge construction: structural containment edges resolved through the
//! lookup table, citation edges extracted from node text, and reference
//! edges extracted from raw document markup — assembled as one edge set,
//! ordered by `(from, to, relation)` and free of duplicates.

use vstd::prelude::*;

use crate::nodes::{ids_of, Lookup, Node, NodeModel, NodeType, Source};
use crate::rows::{ConstitutionRow, DocumentRow, VirginiaCodeRow};
use crate::text::{bytes_eq, bytes_range, is_ws};

verus! {

/// The relation carried by an edge.
#[derive(Clone, Copy, PartialEq, Eq, Structural, Debug, Hash)]
pub enum RelType {
    Cites,
    Contains,
    References,
}

/// The rank of a relation in the edge order; it matches the lexicographic
/// order of the relation names.
pub open spec fn rel_rank(r: RelType) -> int {
    match r {
        RelType::Cites => 0,
        RelType::Contains => 1,
        RelType::References => 2,
    }
}

/// Executable relation rank.
fn rel_rank_ex(r: RelType) -> (out: u8)
    ensures
        out as int == rel_rank(r),
{
    match r {
        RelType::Cites => 0,
        RelType::Contains => 1,
        RelType::References => 2,
    }
}

/// A directed, typed relationship between two nodes.
pub struct Edge {
    pub from_id: usize,
    pub to_id: usize,
    pub rel_type: RelType,
}

/// The mathematical image of an edge.
pub struct EdgeModel {
    pub from_id: int,
    pub to_id: int,
    pub rel_type: RelType,
}

impl View for Edge {
    type V = EdgeModel;

    open spec fn view(&self) -> EdgeModel {
        EdgeModel {
            from_id: self.from_id as int,
            to_id: self.to_id as int,
            rel_type: self.rel_type,
        }
    }
}

/// The views of an edge vector.
pub open spec fn edge_views(v: Seq<Edge>) -> Seq<EdgeModel> {
    v.map_values(|x: Edge| x@)
}

/// Strict order on edges: by source node, then target node, then relation.
pub open spec fn edge_lt(a: EdgeModel, b: EdgeModel) -> bool {
    a.from_id < b.from_id || (a.from_id == b.from_id && (a.to_id < b.to_id || (a.to_id == b.to_id
        && rel_rank(a.rel_type) < rel_rank(b.rel_type))))
}

/// The edge list is strictly ordered, so no two entries share
/// `(from, to, relation)`.
pub open spec fn edges_strictly_sorted(es: Seq<EdgeModel>) -> bool {
    forall|i: int, j: int| 0 <= i < j < es.len() ==> edge_lt(#[trigger] es[i], #[trigger] es[j])
}

/// Whether one edge of the list carries this `(from, to, relation)` triple.
pub open spec fn edge_present(es: Seq<EdgeModel>, e: EdgeModel) -> bool {
    exists|i: int| 0 <= i < es.len() && es[i] == e
}

fn edge_lt_ex(a: &Edge, b: &Edge) -> (out: bool)
    ensures
        out == edge_lt(a@, b@),
{
    if a.from_id != b.from_id {
        a.from_id < b.from_id
    } else if a.to_id != b.to_id {
        a.to_id < b.to_id
    } else {
        rel_rank_ex(a.rel_type) < rel_rank_ex(b.rel_type)
    }
}

fn edge_eq(a: &Edge, b: &Edge) -> (out: bool)
    ensures
        out == (a@ == b@),
{
    a.from_id == b.from_id && a.to_id == b.to_id && rel_rank_ex(a.rel_type) == rel_rank_ex(
        b.rel_type,
    )
}

/// Inserts an edge into an ordered duplicate-free list, keeping it so; an
/// edge already present is dropped.
fn insert_edge(out: &mut Vec<Edge>, e: Edge)
    requires
        edges_strictly_sorted(edge_views(old(out)@)),
    ensures
        edges_strictly_sorted(edge_views(final(out)@)),
        forall|x: EdgeModel|
            edge_present(edge_views(final(out)@), x) == (edge_present(edge_views(old(out)@), x)
                || x == e@),
{
    let n: usize = out.len();
    let mut i: usize = 0;
    let mut stop: bool = false;
    while i < n && !stop
        invariant
            n == out@.len(),
            0 <= i <= n,
            out@ == old(out)@,
            edges_strictly_sorted(edge_views(out@)),
            forall|j: int| 0 <= j < i ==> edge_lt(#[trigger] edge_views(out@)[j], e@),
            stop ==> i < n && !edge_lt(edge_views(out@)[i as int], e@),
        decreases n - i, (if stop { 0int } else { 1int }),
    {
        if !edge_lt_ex(&out[i], &e) {
            proof {
                assert(edge_views(out@)[i as int] == out@[i as int]@);
            }
            stop = true;
        } else {
            proof {
                assert(edge_views(out@)[i as int] == out@[i as int]@);
            }
            i = i + 1;
        }
    }
    if i < out.len() && edge_eq(&out[i], &e) {
        proof {
            assert(edge_views(out@)[i as int] == e@);
            assert(edge_present(edge_views(out@), e@));
            assert forall|x: EdgeModel|
                edge_present(edge_views(out@), x) == (edge_present(edge_views(old(out)@), x) || x
                    == e@) by {}
        }
        return ;
    }
    let ghost es0 = edge_views(out@);
    let ghost ii = i as int;
    out.insert(i, e);
    proof {
        let es1 = edge_views(out@);
        assert(out@ == old(out)@.insert(ii, e));
        assert forall|j: int| 0 <= j < es1.len() implies es1[j] == (if j < ii {
            es0[j]
        } else if j == ii {
            e@
        } else {
            es0[j - 1]
        }) by {
            assert(es1[j] == out@[j]@);
            if j < ii {
                assert(out@[j] == old(out)@[j]);
            } else if j > ii {
                assert(out@[j] == old(out)@[j - 1]);
            }
        }
        assert forall|j1: int, j2: int| 0 <= j1 < j2 < es1.len() implies edge_lt(
            #[trigger] es1[j1],
            #[trigger] es1[j2],
        ) by {
            if j1 < ii && j2 == ii {
            } else if j1 == ii && j2 > ii {
                if ii < es0.len() {
                    assert(!edge_lt(es0[ii], e@));
                    assert(es0[ii] != e@);
                    assert(edge_lt(e@, es0[ii]));
                    if j2 > ii + 1 {
                        assert(edge_lt(es0[ii], es0[j2 - 1]));
                    }
                }
            } else if j1 < ii && j2 > ii {
                if ii < es0.len() {
                    assert(!edge_lt(es0[ii], e@));
                    assert(es0[ii] != e@);
                    if j1 < ii {
                        assert(edge_lt(es0[j1], e@));
                    }
                    if j2 > ii + 1 {
                        assert(edge_lt(es0[ii], es0[j2 - 1]));
                    }
                }
            }
        }
        assert forall|x: EdgeModel|
            edge_present(es1, x) == (edge_present(es0, x) || x == e@) by {
            if edge_present(es1, x) {
                let j = choose|j: int| 0 <= j < es1.len() && es1[j] == x;
                if j < ii {
                    assert(es0[j] == x);
                } else if j == ii {
                } else {
                    assert(es0[j - 1] == x);
                }
            }
            if edge_present(es0, x) {
                let j = choose|j: int| 0 <= j < es0.len() && es0[j] == x;
                if j < ii {
                    assert(es1[j] == x);
                } else {
                    assert(es1[j + 1] == x);
                }
            }
            if x == e@ {
                assert(es1[ii] == x);
            }
        }
    }
}

/// A decimal digit byte.
pub open spec fn is_digit(b: u8) -> bool {
    48 <= b <= 57
}

/// Executable digit test, usable in specifications as `is_digit`.
#[verifier::when_used_as_spec(is_digit)]
pub fn byte_is_digit(b: u8) -> (r: bool)
    ensures
        r == is_digit(b),
{
    48 <= b && b <= 57
}

/// The end of a run of digits and dot-digit groups starting at `i`: the
/// shape `\d+(\.\d+)*` of a numeric-dotted identifier part, read greedily.
pub open spec fn dotted_end(s: Seq<u8>, i: int) -> int
    decreases s.len() - i,
{
    if i < 0 || i >= s.len() {
        s.len() as int
    } else if is_digit(s[i]) {
        dotted_end(s, i + 1)
    } else if s[i] == 46 && i + 1 < s.len() && is_digit(s[i + 1]) {
        dotted_end(s, i + 2)
    } else {
        i
    }
}

proof fn lemma_dotted_end(s: Seq<u8>, i: int)
    requires
        0 <= i <= s.len(),
    ensures
        i <= dotted_end(s, i) <= s.len(),
    decreases s.len() - i,
{
    if i >= s.len() {
    } else if is_digit(s[i]) {
        lemma_dotted_end(s, i + 1);
    } else if s[i] == 46 && i + 1 < s.len() && is_digit(s[i + 1]) {
        lemma_dotted_end(s, i + 2);
    }
}

/// Where a numeric-dotted section identifier starting at `i` ends: a dotted
/// number, a hyphen, and a second dotted number. A negative result means no
/// identifier starts at `i`.
pub open spec fn sec_id_end(s: Seq<u8>, i: int) -> int {
    let e1 = dotted_end(s, i);
    if e1 + 1 < s.len() && s[e1] == 45 && is_digit(s[e1 + 1]) {
        dotted_end(s, e1 + 1)
    } else {
        -1
    }
}

/// The section identifiers found in `s[i..limit)`, scanned left to right;
/// an identifier must lie wholly inside the region.
pub open spec fn find_ids(s: Seq<u8>, i: int, limit: int) -> Seq<Seq<u8>>
    decreases limit - i,
{
    if i < 0 || i >= limit || limit > s.len() {
        Seq::empty()
    } else if is_digit(s[i]) {
        let e = sec_id_end(s, i);
        if i < e && e <= limit {
            seq![s.subrange(i, e)] + find_ids(s, e, limit)
        } else {
            find_ids(s, i + 1, limit)
        }
    } else {
        find_ids(s, i + 1, limit)
    }
}

/// The singular citations of `s[i..]`: a section symbol, optional
/// whitespace, and one numeric-dotted identifier.
pub open spec fn sec_refs(s: Seq<u8>, i: int) -> Seq<Seq<u8>>
    decreases s.len() - i,
{
    if i < 0 || i + 2 > s.len() {
        Seq::empty()
    } else if s[i] == 194 && s[i + 1] == 167 {
        let p = crate::chunker::first_non_ws(s, i + 2, s.len() as int);
        if i + 2 <= p && p < s.len() && is_digit(s[p]) {
            let e = sec_id_end(s, p);
            if p < e && e <= s.len() {
                seq![s.subrange(p, e)] + sec_refs(s, e)
            } else {
                sec_refs(s, i + 2)
            }
        } else {
            sec_refs(s, i + 2)
        }
    } else {
        sec_refs(s, i + 1)
    }
}

/// A byte that may appear in the identifier list after a plural section
/// symbol: digits, dots, commas, whitespace, hyphens, and the letters of
/// "and".
pub open spec fn is_list_byte(b: u8) -> bool {
    is_digit(b) || b == 46 || b == 44 || is_ws(b) || b == 45 || b == 97 || b == 110 || b == 100
}

/// Executable list-byte test, usable in specifications as `is_list_byte`.
#[verifier::when_used_as_spec(is_list_byte)]
pub fn byte_is_list_byte(b: u8) -> (r: bool)
    ensures
        r == is_list_byte(b),
{
    byte_is_digit(b) || b == 46 || b == 44 || crate::text::byte_is_ws(b) || b == 45 || b == 97
        || b == 110 || b == 100
}

/// The end of the run of list bytes starting at `i`.
pub open spec fn list_end(s: Seq<u8>, i: int) -> int
    decreases s.len() - i,
{
    if i < 0 || i >= s.len() {
        s.len() as int
    } else if is_list_byte(s[i]) {
        list_end(s, i + 1)
    } else {
        i
    }
}

/// The plural citations of `s[i..]`: a doubled section symbol followed by a
/// separated list, every identifier in the list taken.
pub open spec fn plural_refs(s: Seq<u8>, i: int) -> Seq<Seq<u8>>
    decreases s.len() - i,
{
    if i < 0 || i + 4 > s.len() {
        Seq::empty()
    } else if s[i] == 194 && s[i + 1] == 167 && s[i + 2] == 194 && s[i + 3] == 167 {
        let lim = list_end(s, i + 4);
        if i + 4 < lim && lim <= s.len() {
            find_ids(s, i + 4, lim) + plural_refs(s, lim)
        } else {
            plural_refs(s, i + 2)
        }
    } else {
        plural_refs(s, i + 1)
    }
}

/// The bytes of "href".
pub open spec fn href_pat() -> Seq<u8> {
    seq![104u8, 114u8, 101u8, 102u8]
}

/// The bytes of "/vacode/".
pub open spec fn vacode_pat() -> Seq<u8> {
    seq![47u8, 118u8, 97u8, 99u8, 111u8, 100u8, 101u8, 47u8]
}

/// The first occurrence of `pat` at or after `i`, or the text's length when
/// there is none.
pub open spec fn find_pat(s: Seq<u8>, i: int, pat: Seq<u8>) -> int
    decreases s.len() - i,
{
    if i < 0 || pat.len() < 1 || i + pat.len() > s.len() {
        s.len() as int
    } else if s.subrange(i, i + pat.len()) == pat {
        i
    } else {
        find_pat(s, i + 1, pat)
    }
}

/// The end of the run of bytes allowed in a link path segment: anything but
/// a slash or a quote.
pub open spec fn cap_end(s: Seq<u8>, i: int) -> int
    decreases s.len() - i,
{
    if i < 0 || i >= s.len() {
        s.len() as int
    } else if s[i] != 47 && s[i] != 39 && s[i] != 34 {
        cap_end(s, i + 1)
    } else {
        i
    }
}

/// The link-embedded citations of `s[i..]`: after each link cue, the first
/// structural path marker is located and its trailing path segment taken
/// verbatim.
pub open spec fn href_refs(s: Seq<u8>, i: int) -> Seq<Seq<u8>>
    decreases s.len() - i,
{
    if i < 0 || i >= s.len() {
        Seq::empty()
    } else {
        let h = find_pat(s, i, href_pat());
        if i <= h && h + 4 <= s.len() {
            let v = find_pat(s, h + 4, vacode_pat());
            if h + 4 <= v && v + 8 <= s.len() {
                let c = cap_end(s, v + 8);
                if v + 8 < c && c <= s.len() {
                    seq![s.subrange(v + 8, c)] + href_refs(s, c)
                } else {
                    href_refs(s, v + 8)
                }
            } else {
                Seq::empty()
            }
        } else {
            Seq::empty()
        }
    }
}

/// Everything the three extraction passes find in a text, before
/// deduplication and ordering.
pub open spec fn extract_model(s: Seq<u8>) -> Seq<Seq<u8>> {
    href_refs(s, 0) + sec_refs(s, 0) + plural_refs(s, 0)
}

/// The views of a vector of byte strings.
pub open spec fn ref_views(v: Seq<Vec<u8>>) -> Seq<Seq<u8>> {
    v.map_values(|x: Vec<u8>| x@)
}

fn skip_ws_ex(s: &Vec<u8>, start: usize) -> (p: usize)
    requires
        start <= s@.len(),
    ensures
        p as int == crate::chunker::first_non_ws(s@, start as int, s@.len() as int),
        start <= p <= s@.len(),
{
    let n: usize = s.len();
    let mut j: usize = start;
    while j < n && crate::text::byte_is_ws(s[j])
        invariant
            start <= j <= n == s@.len(),
            crate::chunker::first_non_ws(s@, start as int, n as int)
                == crate::chunker::first_non_ws(s@, j as int, n as int),
        decreases n - j,
    {
        j = j + 1;
    }
    proof {
        assert(crate::chunker::first_non_ws(s@, j as int, n as int) == j as int);
    }
    j
}

fn dotted_end_ex(s: &Vec<u8>, start: usize) -> (e: usize)
    requires
        start <= s@.len(),
    ensures
        e as int == dotted_end(s@, start as int),
        start <= e <= s@.len(),
{
    let n: usize = s.len();
    let mut j: usize = start;
    let mut done: bool = false;
    while !done
        invariant
            start <= j <= n == s@.len(),
            dotted_end(s@, start as int) == dotted_end(s@, j as int),
            done ==> dotted_end(s@, j as int) == j as int,
        decreases n - j + (if done {
            0int
        } else {
            1int
        }),
    {
        if j < n && byte_is_digit(s[j]) {
            j = j + 1;
        } else if j < n && s[j] == 46 && j + 1 < n && byte_is_digit(s[j + 1]) {
            j = j + 2;
        } else {
            proof {
                assert(dotted_end(s@, j as int) == j as int);
            }
            done = true;
        }
    }
    j
}

fn sec_id_end_ex(s: &Vec<u8>, start: usize) -> (r: Option<usize>)
    requires
        start <= s@.len(),
    ensures
        match r {
            Option::Some(e) => e as int == sec_id_end(s@, start as int) && start < e <= s@.len(),
            Option::None => sec_id_end(s@, start as int) == -1,
        },
{
    let n: usize = s.len();
    let e1 = dotted_end_ex(s, start);
    if e1 < n && s[e1] == 45 && e1 + 1 < n && byte_is_digit(s[e1 + 1]) {
        let e2 = dotted_end_ex(s, e1 + 1);
        Option::Some(e2)
    } else {
        Option::None
    }
}

fn find_ids_ex(s: &Vec<u8>, start: usize, limit: usize) -> (out: Vec<Vec<u8>>)
    requires
        start <= limit <= s@.len(),
    ensures
        ref_views(out@) == find_ids(s@, start as int, limit as int),
{
    let mut out: Vec<Vec<u8>> = Vec::new();
    let mut i: usize = start;
    while i < limit
        invariant
            start <= i,
            i <= limit + 2,
            limit <= s@.len(),
            find_ids(s@, start as int, limit as int) == ref_views(out@) + find_ids(
                s@,
                i as int,
                limit as int,
            ),
        decreases limit - i,
    {
        let ghost out0 = out@;
        if byte_is_digit(s[i]) {
            let mut advanced: bool = false;
            if let Option::Some(e) = sec_id_end_ex(s, i) {
                if e <= limit {
                    out.push(bytes_range(s, i, e));
                    proof {
                        assert(ref_views(out@) =~= ref_views(out0) + seq![
                            s@.subrange(i as int, e as int),
                        ]);
                        assert(ref_views(out@) + find_ids(s@, e as int, limit as int)
                            =~= find_ids(s@, start as int, limit as int));
                    }
                    i = e;
                    advanced = true;
                }
            }
            if !advanced {
                i = i + 1;
            }
        } else {
            i = i + 1;
        }
    }
    proof {
        assert(find_ids(s@, i as int, limit as int) == Seq::<Seq<u8>>::empty());
        assert(ref_views(out@) =~= ref_views(out@) + Seq::<Seq<u8>>::empty());
    }
    out
}

fn scan_sec(s: &Vec<u8>) -> (out: Vec<Vec<u8>>)
    ensures
        ref_views(out@) == sec_refs(s@, 0),
{
    let n: usize = s.len();
    let mut out: Vec<Vec<u8>> = Vec::new();
    let mut i: usize = 0;
    while i < n && n - i >= 2
        invariant
            0 <= i,
            n == s@.len(),
            sec_refs(s@, 0) == ref_views(out@) + sec_refs(s@, i as int),
        decreases n - i,
    {
        if s[i] == 194 && s[i + 1] == 167 {
            let p = skip_ws_ex(s, i + 2);
            let mut advanced: bool = false;
            if p < n && byte_is_digit(s[p]) {
                if let Option::Some(e) = sec_id_end_ex(s, p) {
                    let ghost out0 = out@;
                    out.push(bytes_range(s, p, e));
                    proof {
                        assert(ref_views(out@) =~= ref_views(out0) + seq![
                            s@.subrange(p as int, e as int),
                        ]);
                        assert(ref_views(out@) + sec_refs(s@, e as int) =~= sec_refs(s@, 0));
                    }
                    i = e;
                    advanced = true;
                }
            }
            if !advanced {
                i = i + 2;
            }
        } else {
            i = i + 1;
        }
    }
    proof {
        assert(sec_refs(s@, i as int) == Seq::<Seq<u8>>::empty());
        assert(ref_views(out@) =~= ref_views(out@) + Seq::<Seq<u8>>::empty());
    }
    out
}

fn list_end_ex(s: &Vec<u8>, start: usize) -> (e: usize)
    requires
        start <= s@.len(),
    ensures
        e as int == list_end(s@, start as int),
        start <= e <= s@.len(),
{
    let n: usize = s.len();
    let mut j: usize = start;
    while j < n && byte_is_list_byte(s[j])
        invariant
            start <= j <= n == s@.len(),
            list_end(s@, start as int) == list_end(s@, j as int),
        decreases n - j,
    {
        j = j + 1;
    }
    proof {
        assert(list_end(s@, j as int) == j as int);
    }
    j
}

fn scan_plural(s: &Vec<u8>) -> (out: Vec<Vec<u8>>)
    ensures
        ref_views(out@) == plural_refs(s@, 0),
{
    let n: usize = s.len();
    let mut out: Vec<Vec<u8>> = Vec::new();
    let mut i: usize = 0;
    while i < n && n - i >= 4
        invariant
            0 <= i,
            n == s@.len(),
            plural_refs(s@, 0) == ref_views(out@) + plural_refs(s@, i as int),
        decreases n - i,
    {
        if s[i] == 194 && s[i + 1] == 167 && s[i + 2] == 194 && s[i + 3] == 167 {
            let lim = list_end_ex(s, i + 4);
            if lim > i + 4 {
                let mut found = find_ids_ex(s, i + 4, lim);
                let ghost out0 = out@;
                let ghost found_m = ref_views(found@);
                out.append(&mut found);
                proof {
                    assert(ref_views(out@) =~= ref_views(out0) + found_m);
                    assert(ref_views(out@) + plural_refs(s@, lim as int) =~= plural_refs(s@, 0));
                }
                i = lim;
            } else {
                i = i + 2;
            }
        } else {
            i = i + 1;
        }
    }
    proof {
        assert(plural_refs(s@, i as int) == Seq::<Seq<u8>>::empty());
        assert(ref_views(out@) =~= ref_views(out@) + Seq::<Seq<u8>>::empty());
    }
    out
}

fn match_at(s: &Vec<u8>, i: usize, pat: &Vec<u8>) -> (r: bool)
    requires
        i + pat@.len() <= s@.len(),
    ensures
        r == (s@.subrange(i as int, i as int + pat@.len()) == pat@),
{
    let n: usize = s.len();
    let plen: usize = pat.len();
    let mut k: usize = 0;
    while k < plen
        invariant
            0 <= k <= plen == pat@.len(),
            n == s@.len(),
            i + plen <= n,
            forall|j: int| 0 <= j < k ==> s@[i + j] == pat@[j],
        decreases plen - k,
    {
        if s[i + k] != pat[k] {
            proof {
                assert(s@.subrange(i as int, i as int + pat@.len())[k as int] != pat@[k as int]);
            }
            return false;
        }
        k = k + 1;
    }
    proof {
        assert(s@.subrange(i as int, i as int + pat@.len()) =~= pat@);
    }
    true
}

fn find_pat_ex(s: &Vec<u8>, start: usize, pat: &Vec<u8>) -> (h: usize)
    requires
        start <= s@.len(),
        pat@.len() >= 1,
    ensures
        h as int == find_pat(s@, start as int, pat@),
        start <= h <= s@.len(),
{
    let n: usize = s.len();
    let plen: usize = pat.len();
    let mut i: usize = start;
    while i < n && n - i >= plen
        invariant
            start <= i <= n == s@.len(),
            plen == pat@.len() >= 1,
            find_pat(s@, start as int, pat@) == find_pat(s@, i as int, pat@),
        decreases n - i,
    {
        if match_at(s, i, pat) {
            proof {
                assert(find_pat(s@, i as int, pat@) == i as int);
            }
            return i;
        }
        i = i + 1;
    }
    proof {
        assert(find_pat(s@, i as int, pat@) == s@.len());
    }
    n
}

fn cap_end_ex(s: &Vec<u8>, start: usize) -> (e: usize)
    requires
        start <= s@.len(),
    ensures
        e as int == cap_end(s@, start as int),
        start <= e <= s@.len(),
{
    let n: usize = s.len();
    let mut j: usize = start;
    while j < n && s[j] != 47 && s[j] != 39 && s[j] != 34
        invariant
            start <= j <= n == s@.len(),
            cap_end(s@, start as int) == cap_end(s@, j as int),
        decreases n - j,
    {
        j = j + 1;
    }
    proof {
        assert(cap_end(s@, j as int) == j as int);
    }
    j
}

fn scan_href(s: &Vec<u8>) -> (out: Vec<Vec<u8>>)
    ensures
        ref_views(out@) == href_refs(s@, 0),
{
    let mut pat_href: Vec<u8> = Vec::new();
    pat_href.push(104u8);
    pat_href.push(114u8);
    pat_href.push(101u8);
    pat_href.push(102u8);
    let mut pat_vacode: Vec<u8> = Vec::new();
    pat_vacode.push(47u8);
    pat_vacode.push(118u8);
    pat_vacode.push(97u8);
    pat_vacode.push(99u8);
    pat_vacode.push(111u8);
    pat_vacode.push(100u8);
    pat_vacode.push(101u8);
    pat_vacode.push(47u8);
    proof {
        assert(pat_href@ =~= href_pat());
        assert(pat_vacode@ =~= vacode_pat());
    }
    let n: usize = s.len();
    let mut out: Vec<Vec<u8>> = Vec::new();
    let mut i: usize = 0;
    while i < n
        invariant
            0 <= i,
            n == s@.len(),
            pat_href@ == href_pat(),
            pat_vacode@ == vacode_pat(),
            href_refs(s@, 0) == ref_views(out@) + href_refs(s@, i as int),
        decreases n - i,
    {
        let h = find_pat_ex(s, i, &pat_href);
        if n - h >= 4 {
            let v = find_pat_ex(s, h + 4, &pat_vacode);
            if n - v >= 8 {
                let c = cap_end_ex(s, v + 8);
                if c > v + 8 {
                    let ghost out0 = out@;
                    out.push(bytes_range(s, v + 8, c));
                    proof {
                        assert(ref_views(out@) =~= ref_views(out0) + seq![
                            s@.subrange(v + 8, c as int),
                        ]);
                        assert(ref_views(out@) + href_refs(s@, c as int) =~= href_refs(s@, 0));
                    }
                    i = c;
                } else {
                    proof {
                        assert(href_refs(s@, i as int) == href_refs(s@, v + 8));
                    }
                    i = v + 8;
                }
            } else {
                proof {
                    assert(href_refs(s@, i as int) == Seq::<Seq<u8>>::empty());
                    assert(ref_views(out@) =~= ref_views(out@) + Seq::<Seq<u8>>::empty());
                }
                i = n;
            }
        } else {
            proof {
                assert(href_refs(s@, i as int) == Seq::<Seq<u8>>::empty());
                assert(ref_views(out@) =~= ref_views(out@) + Seq::<Seq<u8>>::empty());
            }
            i = n;
        }
    }
    proof {
        assert(href_refs(s@, i as int) == Seq::<Seq<u8>>::empty());
        assert(ref_views(out@) =~= ref_views(out@) + Seq::<Seq<u8>>::empty());
    }
    out
}

/// Strict lexicographic order on byte strings, byte values compared
/// numerically, a proper prefix ordered first.
pub open spec fn lex_lt(a: Seq<u8>, b: Seq<u8>) -> bool
    decreases a.len(),
{
    if b.len() == 0 {
        false
    } else if a.len() == 0 {
        true
    } else if a[0] < b[0] {
        true
    } else if a[0] > b[0] {
        false
    } else {
        lex_lt(a.drop_first(), b.drop_first())
    }
}

/// The order is strict and total: of two strings, exactly one of `a < b`,
/// `a == b`, `b < a` holds.
pub proof fn lemma_lex_trichotomy(a: Seq<u8>, b: Seq<u8>)
    ensures
        (a == b) <==> (!lex_lt(a, b) && !lex_lt(b, a)),
        !(lex_lt(a, b) && lex_lt(b, a)),
    decreases a.len(),
{
    if b.len() == 0 {
        if a.len() == 0 {
            assert(a =~= b);
        }
    } else if a.len() == 0 {
    } else if a[0] < b[0] {
    } else if a[0] > b[0] {
    } else {
        lemma_lex_trichotomy(a.drop_first(), b.drop_first());
        if a.drop_first() == b.drop_first() {
            assert forall|i: int| 0 <= i < a.len() implies a[i] == b[i] by {
                if i > 0 {
                    assert(a.drop_first()[i - 1] == b.drop_first()[i - 1]);
                }
            }
            assert(a =~= b);
        }
        if a == b {
            assert(a.drop_first() =~= b.drop_first());
        }
    }
}

pub proof fn lemma_lex_trans(a: Seq<u8>, b: Seq<u8>, c: Seq<u8>)
    requires
        lex_lt(a, b),
        lex_lt(b, c),
    ensures
        lex_lt(a, c),
    decreases a.len(),
{
    if c.len() == 0 {
    } else if b.len() == 0 {
    } else if a.len() == 0 {
    } else {
        if a[0] == b[0] && b[0] == c[0] {
            lemma_lex_trans(a.drop_first(), b.drop_first(), c.drop_first());
        }
    }
}

fn lex_lt_ex(a: &Vec<u8>, b: &Vec<u8>) -> (r: bool)
    ensures
        r == lex_lt(a@, b@),
{
    let an: usize = a.len();
    let bn: usize = b.len();
    let mut i: usize = 0;
    proof {
        assert(a@.subrange(0, an as int) =~= a@);
        assert(b@.subrange(0, bn as int) =~= b@);
    }
    while i < an && i < bn
        invariant
            0 <= i <= an == a@.len(),
            i <= bn == b@.len(),
            lex_lt(a@, b@) == lex_lt(
                a@.subrange(i as int, an as int),
                b@.subrange(i as int, bn as int),
            ),
        decreases an - i,
    {
        let x = a[i];
        let y = b[i];
        proof {
            assert(a@.subrange(i as int, an as int)[0] == x);
            assert(b@.subrange(i as int, bn as int)[0] == y);
        }
        if x < y {
            return true;
        }
        if x > y {
            return false;
        }
        proof {
            assert(a@.subrange(i as int, an as int).drop_first() =~= a@.subrange(
                i + 1,
                an as int,
            ));
            assert(b@.subrange(i as int, bn as int).drop_first() =~= b@.subrange(
                i + 1,
                bn as int,
            ));
        }
        i = i + 1;
    }
    proof {
        if i >= an {
            assert(a@.subrange(i as int, an as int) =~= Seq::<u8>::empty());
        }
        if i >= bn {
            assert(b@.subrange(i as int, bn as int) =~= Seq::<u8>::empty());
        }
    }
    if i < bn {
        true
    } else {
        false
    }
}

/// The reference list is strictly ordered, so it holds no duplicates.
pub open spec fn refs_strictly_sorted(v: Seq<Seq<u8>>) -> bool {
    forall|i: int, j: int| 0 <= i < j < v.len() ==> lex_lt(#[trigger] v[i], #[trigger] v[j])
}

/// Whether one entry of the list equals `r`.
pub open spec fn ref_present(v: Seq<Seq<u8>>, r: Seq<u8>) -> bool {
    exists|i: int| 0 <= i < v.len() && v[i] == r
}

/// Inserts a reference into an ordered duplicate-free list, keeping it so;
/// a reference already present is dropped.
fn insert_ref(out: &mut Vec<Vec<u8>>, x: Vec<u8>)
    requires
        refs_strictly_sorted(ref_views(old(out)@)),
    ensures
        refs_strictly_sorted(ref_views(final(out)@)),
        forall|r: Seq<u8>|
            ref_present(ref_views(final(out)@), r) == (ref_present(ref_views(old(out)@), r) || r
                == x@),
{
    let n: usize = out.len();
    let mut i: usize = 0;
    let mut stop: bool = false;
    while i < n && !stop
        invariant
            n == out@.len(),
            0 <= i <= n,
            out@ == old(out)@,
            refs_strictly_sorted(ref_views(out@)),
            forall|j: int| 0 <= j < i ==> lex_lt(#[trigger] ref_views(out@)[j], x@),
            stop ==> i < n && !lex_lt(ref_views(out@)[i as int], x@),
        decreases n - i, (if stop {
            0int
        } else {
            1int
        }),
    {
        if !lex_lt_ex(&out[i], &x) {
            proof {
                assert(ref_views(out@)[i as int] == out@[i as int]@);
            }
            stop = true;
        } else {
            proof {
                assert(ref_views(out@)[i as int] == out@[i as int]@);
            }
            i = i + 1;
        }
    }
    if i < out.len() && bytes_eq(&out[i], &x) {
        proof {
            assert(ref_views(out@)[i as int] == x@);
            assert(ref_present(ref_views(out@), x@));
        }
        return ;
    }
    let ghost es0 = ref_views(out@);
    let ghost ii = i as int;
    proof {
        if ii < es0.len() {
            assert(es0[ii] == out@[ii]@);
            lemma_lex_trichotomy(es0[ii], x@);
            assert(lex_lt(x@, es0[ii]));
        }
    }
    out.insert(i, x);
    proof {
        let es1 = ref_views(out@);
        assert forall|j: int| 0 <= j < es1.len() implies es1[j] == (if j < ii {
            es0[j]
        } else if j == ii {
            x@
        } else {
            es0[j - 1]
        }) by {
            assert(es1[j] == out@[j]@);
            if j < ii {
                assert(out@[j] == old(out)@[j]);
            } else if j > ii {
                assert(out@[j] == old(out)@[j - 1]);
            }
        }
        assert forall|j1: int, j2: int| 0 <= j1 < j2 < es1.len() implies lex_lt(
            #[trigger] es1[j1],
            #[trigger] es1[j2],
        ) by {
            if j2 == ii {
                assert(lex_lt(es0[j1], x@));
            } else if j1 == ii {
                assert(lex_lt(x@, es0[ii]));
                if j2 > ii + 1 {
                    assert(lex_lt(es0[ii], es0[j2 - 1]));
                    lemma_lex_trans(x@, es0[ii], es0[j2 - 1]);
                }
            } else if j1 < ii && j2 > ii {
                assert(lex_lt(es0[j1], es0[j2 - 1]) || j1 == j2 - 1);
                if j1 == j2 - 1 {
                    assert(lex_lt(es0[j1], x@));
                    assert(lex_lt(x@, es0[ii]));
                }
            }
        }
        assert forall|r: Seq<u8>|
            ref_present(es1, r) == (ref_present(es0, r) || r == x@) by {
            if ref_present(es1, r) {
                let j = choose|j: int| 0 <= j < es1.len() && es1[j] == r;
                if j < ii {
                    assert(es0[j] == r);
                } else if j > ii {
                    assert(es0[j - 1] == r);
                }
            }
            if ref_present(es0, r) {
                let j = choose|j: int| 0 <= j < es0.len() && es0[j] == r;
                if j < ii {
                    assert(es1[j] == r);
                } else {
                    assert(es1[j + 1] == r);
                }
            }
            if r == x@ {
                assert(es1[ii] == r);
            }
        }
    }
}

/// The cross-product edges from every identity of `av` to every identity of
/// `bv` under one relation.
pub open spec fn pair_edge(av: Seq<int>, bv: Seq<int>, rel: RelType, e: EdgeModel) -> bool {
    e.rel_type == rel && av.contains(e.from_id) && bv.contains(e.to_id)
}

/// The fan-out edges from one identity to every identity of `bv`, the
/// source itself excluded when `exclude_self` is set.
pub open spec fn fan_edge(
    from: int,
    bv: Seq<int>,
    rel: RelType,
    exclude_self: bool,
    e: EdgeModel,
) -> bool {
    e.rel_type == rel && e.from_id == from && bv.contains(e.to_id) && (!exclude_self || e.to_id
        != from)
}

/// Inserts one edge from every identity of `from_ids` to every identity of
/// `to_ids`.
fn insert_pairs(out: &mut Vec<Edge>, from_ids: &Vec<usize>, to_ids: &Vec<usize>, rel: RelType)
    requires
        edges_strictly_sorted(edge_views(old(out)@)),
    ensures
        edges_strictly_sorted(edge_views(final(out)@)),
        forall|e: EdgeModel|
            edge_present(edge_views(final(out)@), e) == (edge_present(edge_views(old(out)@), e)
                || pair_edge(ids_of(from_ids@), ids_of(to_ids@), rel, e)),
{
    let ghost av = ids_of(from_ids@);
    let ghost bv = ids_of(to_ids@);
    let mut a: usize = 0;
    while a < from_ids.len()
        invariant
            av == ids_of(from_ids@),
            bv == ids_of(to_ids@),
            0 <= a <= from_ids@.len(),
            edges_strictly_sorted(edge_views(out@)),
            forall|e: EdgeModel|
                edge_present(edge_views(out@), e) == (edge_present(edge_views(old(out)@), e) || (
                e.rel_type == rel && (exists|x: int|
                    0 <= x < a && av[x] == e.from_id) && bv.contains(e.to_id))),
        decreases from_ids@.len() - a,
    {
        let mut b: usize = 0;
        while b < to_ids.len()
            invariant
                av == ids_of(from_ids@),
                bv == ids_of(to_ids@),
                0 <= a < from_ids@.len(),
                0 <= b <= to_ids@.len(),
                edges_strictly_sorted(edge_views(out@)),
                forall|e: EdgeModel|
                    edge_present(edge_views(out@), e) == (edge_present(edge_views(old(out)@), e)
                        || (e.rel_type == rel && (exists|x: int|
                        0 <= x < a && av[x] == e.from_id) && bv.contains(e.to_id)) || (e.rel_type
                        == rel && av[a as int] == e.from_id && (exists|y: int|
                        0 <= y < b && bv[y] == e.to_id))),
            decreases to_ids@.len() - b,
        {
            let ghost prev = edge_views(out@);
            let edge = Edge { from_id: from_ids[a], to_id: to_ids[b], rel_type: rel };
            proof {
                assert(edge@.from_id == av[a as int]);
                assert(edge@.to_id == bv[b as int]);
            }
            insert_edge(out, edge);
            proof {
                assert forall|e: EdgeModel|
                    edge_present(edge_views(out@), e) == (edge_present(
                        edge_views(old(out)@),
                        e,
                    ) || (e.rel_type == rel && (exists|x: int|
                        0 <= x < a && av[x] == e.from_id) && bv.contains(e.to_id)) || (e.rel_type
                        == rel && av[a as int] == e.from_id && (exists|y: int|
                        0 <= y < b + 1 && bv[y] == e.to_id))) by {
                    if edge_present(edge_views(out@), e) {
                        if e == edge@ {
                            assert(bv[b as int] == e.to_id);
                        }
                    }
                    if e.rel_type == rel && av[a as int] == e.from_id && (exists|y: int|
                        0 <= y < b + 1 && bv[y] == e.to_id) {
                        let y = choose|y: int| 0 <= y < b + 1 && bv[y] == e.to_id;
                        if y < b {
                            assert(edge_present(prev, e));
                        } else {
                            assert(e == edge@);
                        }
                    }
                }
            }
            b = b + 1;
        }
        proof {
            assert forall|e: EdgeModel|
                edge_present(edge_views(out@), e) == (edge_present(edge_views(old(out)@), e) || (
                e.rel_type == rel && (exists|x: int|
                    0 <= x < a + 1 && av[x] == e.from_id) && bv.contains(e.to_id))) by {
                if e.rel_type == rel && av[a as int] == e.from_id && (exists|y: int|
                    0 <= y < to_ids@.len() && bv[y] == e.to_id) {
                    assert(bv.contains(e.to_id));
                }
                if e.rel_type == rel && (exists|x: int| 0 <= x < a + 1 && av[x] == e.from_id)
                    && bv.contains(e.to_id) {
                    let x = choose|x: int| 0 <= x < a + 1 && av[x] == e.from_id;
                    let y = choose|y: int| 0 <= y < bv.len() && bv[y] == e.to_id;
                    if x < a {
                    } else {
                        assert(av[a as int] == e.from_id);
                        assert(0 <= y < to_ids@.len() && bv[y] == e.to_id);
                    }
                }
                if e.rel_type == rel && (exists|x: int| 0 <= x < a && av[x] == e.from_id)
                    && bv.contains(e.to_id) {
                    let x = choose|x: int| 0 <= x < a && av[x] == e.from_id;
                    assert(0 <= x < a + 1 && av[x] == e.from_id);
                }
            }
        }
        a = a + 1;
    }
    proof {
        assert forall|e: EdgeModel|
            edge_present(edge_views(out@), e) == (edge_present(edge_views(old(out)@), e)
                || pair_edge(av, bv, rel, e)) by {
            if pair_edge(av, bv, rel, e) {
                let x = choose|x: int| 0 <= x < av.len() && av[x] == e.from_id;
                assert(0 <= x < from_ids@.len() && av[x] == e.from_id);
            }
            if e.rel_type == rel && (exists|x: int|
                0 <= x < from_ids@.len() && av[x] == e.from_id) && bv.contains(e.to_id) {
                let x = choose|x: int| 0 <= x < from_ids@.len() && av[x] == e.from_id;
                assert(av.contains(e.from_id));
            }
        }
    }
}

/// Inserts one edge from `from_id` to every identity of `to_ids`, skipping
/// the source itself when `exclude_self` is set.
fn insert_fan(
    out: &mut Vec<Edge>,
    from_id: usize,
    to_ids: &Vec<usize>,
    rel: RelType,
    exclude_self: bool,
)
    requires
        edges_strictly_sorted(edge_views(old(out)@)),
    ensures
        edges_strictly_sorted(edge_views(final(out)@)),
        forall|e: EdgeModel|
            edge_present(edge_views(final(out)@), e) == (edge_present(edge_views(old(out)@), e)
                || fan_edge(from_id as int, ids_of(to_ids@), rel, exclude_self, e)),
{
    let ghost bv = ids_of(to_ids@);
    let mut b: usize = 0;
    while b < to_ids.len()
        invariant
            bv == ids_of(to_ids@),
            0 <= b <= to_ids@.len(),
            edges_strictly_sorted(edge_views(out@)),
            forall|e: EdgeModel|
                edge_present(edge_views(out@), e) == (edge_present(edge_views(old(out)@), e) || (
                e.rel_type == rel && e.from_id == from_id as int && (exists|y: int|
                    0 <= y < b && bv[y] == e.to_id) && (!exclude_self || e.to_id
                    != from_id as int))),
        decreases to_ids@.len() - b,
    {
        let ghost prev = edge_views(out@);
        let tid = to_ids[b];
        proof {
            assert(bv[b as int] == tid as int);
        }
        if !exclude_self || tid != from_id {
            insert_edge(out, Edge { from_id, to_id: tid, rel_type: rel });
        }
        proof {
            assert forall|e: EdgeModel|
                edge_present(edge_views(out@), e) == (edge_present(edge_views(old(out)@), e) || (
                e.rel_type == rel && e.from_id == from_id as int && (exists|y: int|
                    0 <= y < b + 1 && bv[y] == e.to_id) && (!exclude_self || e.to_id
                    != from_id as int))) by {
                if e.rel_type == rel && e.from_id == from_id as int && (exists|y: int|
                    0 <= y < b + 1 && bv[y] == e.to_id) && (!exclude_self || e.to_id
                    != from_id as int) {
                    let y = choose|y: int| 0 <= y < b + 1 && bv[y] == e.to_id;
                    if y < b {
                        assert(edge_present(prev, e));
                    }
                }
            }
        }
        b = b + 1;
    }
    proof {
        assert forall|e: EdgeModel|
            edge_present(edge_views(out@), e) == (edge_present(edge_views(old(out)@), e)
                || fan_edge(from_id as int, bv, rel, exclude_self, e)) by {
            if fan_edge(from_id as int, bv, rel, exclude_self, e) {
                let y = choose|y: int| 0 <= y < bv.len() && bv[y] == e.to_id;
                assert(0 <= y < to_ids@.len() && bv[y] == e.to_id);
            }
            if e.rel_type == rel && e.from_id == from_id as int && (exists|y: int|
                0 <= y < to_ids@.len() && bv[y] == e.to_id) && (!exclude_self || e.to_id
                != from_id as int) {
                assert(bv.contains(e.to_id));
            }
        }
    }
}

/// Extracts the normalized structural references cited by a text: the union
/// of the link-embedded, singular and plural citation passes, deduplicated
/// and in lexicographic order.
pub fn extract_section_refs(text: &Vec<u8>) -> (out: Vec<Vec<u8>>)
    ensures
        refs_strictly_sorted(ref_views(out@)),
        forall|r: Seq<u8>|
            #[trigger] ref_present(ref_views(out@), r) <==> extract_model(text@).contains(r),
{
    let hrefs = scan_href(text);
    let secs = scan_sec(text);
    let plurals = scan_plural(text);
    let ghost hm = href_refs(text@, 0);
    let ghost sm = sec_refs(text@, 0);
    let ghost pm = plural_refs(text@, 0);
    let mut out: Vec<Vec<u8>> = Vec::new();
    let mut j: usize = 0;
    while j < hrefs.len()
        invariant
            0 <= j <= hrefs@.len(),
            hm == ref_views(hrefs@),
            refs_strictly_sorted(ref_views(out@)),
            forall|r: Seq<u8>|
                #[trigger] ref_present(ref_views(out@), r) <==> hm.subrange(0, j as int).contains(
                    r,
                ),
        decreases hrefs@.len() - j,
    {
        let ghost pre = ref_views(out@);
        insert_ref(&mut out, crate::text::copy_bytes(&hrefs[j]));
        proof {
            assert(hrefs@[j as int]@ == hm[j as int]);
            assert forall|r: Seq<u8>| #[trigger] ref_present(ref_views(out@), r) <==> hm.subrange(
                0,
                j + 1,
            ).contains(r) by {
                if ref_present(ref_views(out@), r) {
                    if r == hm[j as int] {
                        assert(hm.subrange(0, j + 1)[j as int] == r);
                    } else {
                        assert(ref_present(pre, r));
                        let k = choose|k: int|
                            0 <= k < hm.subrange(0, j as int).len() && (#[trigger] hm.subrange(
                                0,
                                j as int,
                            )[k]) == r;
                        assert(hm.subrange(0, j + 1)[k] == r);
                    }
                } else {
                    if hm.subrange(0, j + 1).contains(r) {
                        let k = choose|k: int|
                            0 <= k < hm.subrange(0, j + 1).len() && (#[trigger] hm.subrange(
                                0,
                                j + 1,
                            )[k]) == r;
                        if k < j {
                            assert(hm.subrange(0, j as int)[k] == r);
                            assert(ref_present(pre, r));
                        } else {
                            assert(r == hm[j as int]);
                        }
                        assert(false);
                    }
                }
            }
        }
        j = j + 1;
    }
    proof {
        assert(hm.subrange(0, hm.len() as int) =~= hm);
    }
    let mut j2: usize = 0;
    while j2 < secs.len()
        invariant
            0 <= j2 <= secs@.len(),
            hm == href_refs(text@, 0),
            sm == ref_views(secs@),
            refs_strictly_sorted(ref_views(out@)),
            forall|r: Seq<u8>|
                #[trigger] ref_present(ref_views(out@), r) <==> (hm.contains(r) || sm.subrange(
                    0,
                    j2 as int,
                ).contains(r)),
        decreases secs@.len() - j2,
    {
        let ghost pre = ref_views(out@);
        insert_ref(&mut out, crate::text::copy_bytes(&secs[j2]));
        proof {
            assert(secs@[j2 as int]@ == sm[j2 as int]);
            assert forall|r: Seq<u8>| #[trigger] ref_present(ref_views(out@), r) <==> (hm.contains(
                r,
            ) || sm.subrange(0, j2 + 1).contains(r)) by {
                if ref_present(ref_views(out@), r) {
                    if r == sm[j2 as int] {
                        assert(sm.subrange(0, j2 + 1)[j2 as int] == r);
                    } else {
                        assert(ref_present(pre, r));
                        if !hm.contains(r) {
                            let k = choose|k: int|
                                0 <= k < sm.subrange(0, j2 as int).len() && (#[trigger] sm.subrange(
                                    0,
                                    j2 as int,
                                )[k]) == r;
                            assert(sm.subrange(0, j2 + 1)[k] == r);
                        }
                    }
                } else {
                    if sm.subrange(0, j2 + 1).contains(r) {
                        let k = choose|k: int|
                            0 <= k < sm.subrange(0, j2 + 1).len() && (#[trigger] sm.subrange(
                                0,
                                j2 + 1,
                            )[k]) == r;
                        if k < j2 {
                            assert(sm.subrange(0, j2 as int)[k] == r);
                        } else {
                            assert(r == sm[j2 as int]);
                        }
                        assert(false);
                    }
                    assert(!hm.contains(r));
                }
            }
        }
        j2 = j2 + 1;
    }
    proof {
        assert(sm.subrange(0, sm.len() as int) =~= sm);
    }
    let mut j3: usize = 0;
    while j3 < plurals.len()
        invariant
            0 <= j3 <= plurals@.len(),
            hm == href_refs(text@, 0),
            sm == sec_refs(text@, 0),
            pm == ref_views(plurals@),
            refs_strictly_sorted(ref_views(out@)),
            forall|r: Seq<u8>|
                #[trigger] ref_present(ref_views(out@), r) <==> (hm.contains(r) || sm.contains(r)
                    || pm.subrange(0, j3 as int).contains(r)),
        decreases plurals@.len() - j3,
    {
        let ghost pre = ref_views(out@);
        insert_ref(&mut out, crate::text::copy_bytes(&plurals[j3]));
        proof {
            assert(plurals@[j3 as int]@ == pm[j3 as int]);
            assert forall|r: Seq<u8>| #[trigger] ref_present(ref_views(out@), r) <==> (hm.contains(
                r,
            ) || sm.contains(r) || pm.subrange(0, j3 + 1).contains(r)) by {
                if ref_present(ref_views(out@), r) {
                    if r == pm[j3 as int] {
                        assert(pm.subrange(0, j3 + 1)[j3 as int] == r);
                    } else {
                        assert(ref_present(pre, r));
                        if !hm.contains(r) && !sm.contains(r) {
                            let k = choose|k: int|
                                0 <= k < pm.subrange(0, j3 as int).len() && (#[trigger] pm.subrange(
                                    0,
                                    j3 as int,
                                )[k]) == r;
                            assert(pm.subrange(0, j3 + 1)[k] == r);
                        }
                    }
                } else {
                    if pm.subrange(0, j3 + 1).contains(r) {
                        let k = choose|k: int|
                            0 <= k < pm.subrange(0, j3 + 1).len() && (#[trigger] pm.subrange(
                                0,
                                j3 + 1,
                            )[k]) == r;
                        if k < j3 {
                            assert(pm.subrange(0, j3 as int)[k] == r);
                        } else {
                            assert(r == pm[j3 as int]);
                        }
                        assert(false);
                    }
                    assert(!hm.contains(r) && !sm.contains(r));
                }
            }
        }
        j3 = j3 + 1;
    }
    proof {
        assert(pm.subrange(0, pm.len() as int) =~= pm);
        assert forall|r: Seq<u8>|
            #[trigger] ref_present(ref_views(out@), r) <==> extract_model(text@).contains(r) by {
            if ref_present(ref_views(out@), r) {
                if hm.contains(r) {
                    let k = choose|k: int| 0 <= k < hm.len() && hm[k] == r;
                    assert(extract_model(text@)[k] == r);
                } else if sm.contains(r) {
                    let k = choose|k: int| 0 <= k < sm.len() && sm[k] == r;
                    assert(extract_model(text@)[hm.len() + k] == r);
                } else {
                    let k = choose|k: int| 0 <= k < pm.len() && pm[k] == r;
                    assert(extract_model(text@)[hm.len() + sm.len() + k] == r);
                }
            }
            if extract_model(text@).contains(r) {
                let k = choose|k: int|
                    0 <= k < extract_model(text@).len() && extract_model(text@)[k] == r;
                if k < hm.len() {
                    assert(hm[k] == r);
                } else if k < hm.len() + sm.len() {
                    assert(sm[k - hm.len()] == r);
                } else {
                    assert(pm[k - hm.len() - sm.len()] == r);
                }
            }
        }
    }
    out
}

/// Whether `id` stands in the lookup list of `key` under `src`.
pub open spec fn in_lk(
    m: Map<(Source, Seq<u8>), Seq<int>>,
    src: Source,
    key: Seq<u8>,
    id: int,
) -> bool {
    m.dom().contains((src, key)) && m[(src, key)].contains(id)
}

/// The containment edges carried by one statute row: title to chapter and
/// chapter to section when the chapter key resolves, title to section
/// directly when the row names no resolvable chapter.
pub open spec fn code_row_edge(
    m: Map<(Source, Seq<u8>), Seq<int>>,
    r: VirginiaCodeRow,
    e: EdgeModel,
) -> bool {
    let tk = r.title_num@;
    let ck = crate::nodes::chapter_key_spec(r.title_num@, r.chapter_num@);
    let sk = r.section@;
    e.rel_type == RelType::Contains && ((in_lk(m, Source::VirginiaCode, tk, e.from_id) && in_lk(
        m,
        Source::VirginiaCode,
        ck,
        e.to_id,
    )) || (in_lk(m, Source::VirginiaCode, ck, e.from_id) && in_lk(
        m,
        Source::VirginiaCode,
        sk,
        e.to_id,
    )) || (!m.dom().contains((Source::VirginiaCode, ck)) && in_lk(
        m,
        Source::VirginiaCode,
        tk,
        e.from_id,
    ) && in_lk(m, Source::VirginiaCode, sk, e.to_id)))
}

/// A containment edge witnessed by one of the first `n` statute rows.
pub open spec fn code_hier_upto(
    m: Map<(Source, Seq<u8>), Seq<int>>,
    rows: Seq<VirginiaCodeRow>,
    e: EdgeModel,
    n: int,
) -> bool {
    exists|i: int| 0 <= i < n && i < rows.len() && code_row_edge(m, #[trigger] rows[i], e)
}

/// The containment edge carried by one constitutional row: article to
/// section.
pub open spec fn const_row_edge(
    m: Map<(Source, Seq<u8>), Seq<int>>,
    r: ConstitutionRow,
    e: EdgeModel,
) -> bool {
    let ak = crate::nodes::article_key_spec(r.article_id as int);
    let sk = crate::nodes::const_section_key_spec(r.article_id as int, r.section_count as int);
    e.rel_type == RelType::Contains && in_lk(m, Source::Constitution, ak, e.from_id) && in_lk(
        m,
        Source::Constitution,
        sk,
        e.to_id,
    )
}

/// A containment edge witnessed by one of the first `n` constitutional rows.
pub open spec fn const_hier_upto(
    m: Map<(Source, Seq<u8>), Seq<int>>,
    rows: Seq<ConstitutionRow>,
    e: EdgeModel,
    n: int,
) -> bool {
    exists|i: int| 0 <= i < n && i < rows.len() && const_row_edge(m, #[trigger] rows[i], e)
}

/// The node kinds whose text is scanned for citations; synthetic ancestors,
/// courts and document chunks are not.
pub open spec fn citable(t: NodeType) -> bool {
    t == NodeType::Section || t == NodeType::ConstitutionSection || t == NodeType::Authority || t
        == NodeType::PopularName
}

/// Executable citable test, usable in specifications as `citable`.
#[verifier::when_used_as_spec(citable)]
pub fn node_type_citable(t: NodeType) -> (r: bool)
    ensures
        r == citable(t),
{
    match t {
        NodeType::Section => true,
        NodeType::ConstitutionSection => true,
        NodeType::Authority => true,
        NodeType::PopularName => true,
        _ => false,
    }
}

/// The citation edges carried by one citable node: one edge to every node
/// of each statute key its text cites, the node itself excluded.
pub open spec fn cite_node_edge(
    m: Map<(Source, Seq<u8>), Seq<int>>,
    nd: NodeModel,
    text: Seq<u8>,
    e: EdgeModel,
) -> bool {
    e.rel_type == RelType::Cites && citable(nd.node_type) && e.from_id == nd.id && e.to_id != nd.id
        && (exists|r: Seq<u8>|
        #[trigger] extract_model(text).contains(r) && in_lk(m, Source::VirginiaCode, r, e.to_id))
}

/// A citation edge witnessed by one of the first `n` nodes.
pub open spec fn cite_upto(
    m: Map<(Source, Seq<u8>), Seq<int>>,
    nodes: Seq<NodeModel>,
    texts: Seq<Seq<u8>>,
    e: EdgeModel,
    n: int,
) -> bool {
    exists|i: int|
        0 <= i < n && i < nodes.len() && i < texts.len() && cite_node_edge(
            m,
            #[trigger] nodes[i],
            texts[i],
            e,
        )
}

/// The reference edges carried by one document row: from the document's
/// first chunk node to every node of each statute key its raw content
/// cites.
pub open spec fn doc_row_edge(
    m: Map<(Source, Seq<u8>), Seq<int>>,
    r: DocumentRow,
    e: EdgeModel,
) -> bool {
    let dk = (Source::Documents, r.filename@);
    e.rel_type == RelType::References && m.dom().contains(dk) && m[dk].len() > 0 && e.from_id
        == m[dk][0] && (exists|rf: Seq<u8>|
        #[trigger] extract_model(r.content@).contains(rf) && in_lk(
            m,
            Source::VirginiaCode,
            rf,
            e.to_id,
        ))
}

/// A reference edge witnessed by one of the first `n` document rows.
pub open spec fn doc_upto(
    m: Map<(Source, Seq<u8>), Seq<int>>,
    rows: Seq<DocumentRow>,
    e: EdgeModel,
    n: int,
) -> bool {
    exists|i: int| 0 <= i < n && i < rows.len() && doc_row_edge(m, #[trigger] rows[i], e)
}

/// Whether the graph holds this edge: a containment, citation or reference
/// witness exists for it.
pub open spec fn graph_edge(
    m: Map<(Source, Seq<u8>), Seq<int>>,
    code_rows: Seq<VirginiaCodeRow>,
    constitution_rows: Seq<ConstitutionRow>,
    document_rows: Seq<DocumentRow>,
    nodes: Seq<NodeModel>,
    texts: Seq<Seq<u8>>,
    e: EdgeModel,
) -> bool {
    code_hier_upto(m, code_rows, e, code_rows.len() as int) || const_hier_upto(
        m,
        constitution_rows,
        e,
        constitution_rows.len() as int,
    ) || cite_upto(m, nodes, texts, e, nodes.len() as int) || doc_upto(
        m,
        document_rows,
        e,
        document_rows.len() as int,
    )
}

proof fn lemma_code_upto_step(
    m: Map<(Source, Seq<u8>), Seq<int>>,
    rows: Seq<VirginiaCodeRow>,
    e: EdgeModel,
    i: int,
)
    requires
        0 <= i < rows.len(),
    ensures
        code_hier_upto(m, rows, e, i + 1) == (code_hier_upto(m, rows, e, i) || code_row_edge(
            m,
            rows[i],
            e,
        )),
{
    if code_hier_upto(m, rows, e, i + 1) {
        let w = choose|w: int| 0 <= w < i + 1 && w < rows.len() && code_row_edge(m, rows[w], e);
        if w < i {
            assert(code_hier_upto(m, rows, e, i));
        }
    }
    if code_hier_upto(m, rows, e, i) {
        let w = choose|w: int| 0 <= w < i && w < rows.len() && code_row_edge(m, rows[w], e);
        assert(0 <= w < i + 1 && w < rows.len() && code_row_edge(m, rows[w], e));
    }
    if code_row_edge(m, rows[i], e) {
        assert(0 <= i < i + 1 && i < rows.len() && code_row_edge(m, rows[i], e));
    }
}

proof fn lemma_const_upto_step(
    m: Map<(Source, Seq<u8>), Seq<int>>,
    rows: Seq<ConstitutionRow>,
    e: EdgeModel,
    i: int,
)
    requires
        0 <= i < rows.len(),
    ensures
        const_hier_upto(m, rows, e, i + 1) == (const_hier_upto(m, rows, e, i) || const_row_edge(
            m,
            rows[i],
            e,
        )),
{
    if const_hier_upto(m, rows, e, i + 1) {
        let w = choose|w: int| 0 <= w < i + 1 && w < rows.len() && const_row_edge(m, rows[w], e);
        if w < i {
            assert(const_hier_upto(m, rows, e, i));
        }
    }
    if const_hier_upto(m, rows, e, i) {
        let w = choose|w: int| 0 <= w < i && w < rows.len() && const_row_edge(m, rows[w], e);
        assert(0 <= w < i + 1 && w < rows.len() && const_row_edge(m, rows[w], e));
    }
    if const_row_edge(m, rows[i], e) {
        assert(0 <= i < i + 1 && i < rows.len() && const_row_edge(m, rows[i], e));
    }
}

proof fn lemma_cite_upto_step(
    m: Map<(Source, Seq<u8>), Seq<int>>,
    nodes: Seq<NodeModel>,
    texts: Seq<Seq<u8>>,
    e: EdgeModel,
    i: int,
)
    requires
        0 <= i < nodes.len(),
        i < texts.len(),
    ensures
        cite_upto(m, nodes, texts, e, i + 1) == (cite_upto(m, nodes, texts, e, i)
            || cite_node_edge(m, nodes[i], texts[i], e)),
{
    if cite_upto(m, nodes, texts, e, i + 1) {
        let w = choose|w: int|
            0 <= w < i + 1 && w < nodes.len() && w < texts.len() && cite_node_edge(
                m,
                nodes[w],
                texts[w],
                e,
            );
        if w < i {
            assert(cite_upto(m, nodes, texts, e, i));
        }
    }
    if cite_upto(m, nodes, texts, e, i) {
        let w = choose|w: int|
            0 <= w < i && w < nodes.len() && w < texts.len() && cite_node_edge(
                m,
                nodes[w],
                texts[w],
                e,
            );
        assert(0 <= w < i + 1 && w < nodes.len() && w < texts.len() && cite_node_edge(
            m,
            nodes[w],
            texts[w],
            e,
        ));
    }
    if cite_node_edge(m, nodes[i], texts[i], e) {
        assert(0 <= i < i + 1 && i < nodes.len() && i < texts.len() && cite_node_edge(
            m,
            nodes[i],
            texts[i],
            e,
        ));
    }
}

proof fn lemma_doc_upto_step(
    m: Map<(Source, Seq<u8>), Seq<int>>,
    rows: Seq<DocumentRow>,
    e: EdgeModel,
    i: int,
)
    requires
        0 <= i < rows.len(),
    ensures
        doc_upto(m, rows, e, i + 1) == (doc_upto(m, rows, e, i) || doc_row_edge(m, rows[i], e)),
{
    if doc_upto(m, rows, e, i + 1) {
        let w = choose|w: int| 0 <= w < i + 1 && w < rows.len() && doc_row_edge(m, rows[w], e);
        if w < i {
            assert(doc_upto(m, rows, e, i));
        }
    }
    if doc_upto(m, rows, e, i) {
        let w = choose|w: int| 0 <= w < i && w < rows.len() && doc_row_edge(m, rows[w], e);
        assert(0 <= w < i + 1 && w < rows.len() && doc_row_edge(m, rows[w], e));
    }
    if doc_row_edge(m, rows[i], e) {
        assert(0 <= i < i + 1 && i < rows.len() && doc_row_edge(m, rows[i], e));
    }
}

/// Builds the full edge set of the graph: containment edges resolved from
/// the raw hierarchy rows, citation edges from the text of citable nodes,
/// and reference edges from raw document content — every edge resolved
/// through the lookup table, unresolvable references silently skipped, the
/// result ordered by `(from, to, relation)` with no duplicate entries.
pub fn build_edges(
    nodes: &Vec<Node>,
    lookup: &Lookup,
    code_rows: &Vec<VirginiaCodeRow>,
    constitution_rows: &Vec<ConstitutionRow>,
    document_rows: &Vec<DocumentRow>,
    texts: &Vec<Vec<u8>>,
) -> (out: Vec<Edge>)
    requires
        lookup.wf(),
        texts@.len() == nodes@.len(),
        forall|i: int| 0 <= i < nodes@.len() ==> (#[trigger] nodes@[i])@.id == i + 1,
    ensures
        edges_strictly_sorted(edge_views(out@)),
        forall|e: EdgeModel|
            #[trigger] edge_present(edge_views(out@), e) <==> graph_edge(
                lookup@,
                code_rows@,
                constitution_rows@,
                document_rows@,
                crate::etl::views_of(nodes@),
                ref_views(texts@),
                e,
            ),
{
    let ghost m = lookup@;
    let ghost nm = crate::etl::views_of(nodes@);
    let ghost tm = ref_views(texts@);
    let mut out: Vec<Edge> = Vec::new();

    // Containment edges from the statute hierarchy.
    let mut i: usize = 0;
    while i < code_rows.len()
        invariant
            m == lookup@,
            lookup.wf(),
            0 <= i <= code_rows@.len(),
            edges_strictly_sorted(edge_views(out@)),
            forall|e: EdgeModel|
                #[trigger] edge_present(edge_views(out@), e) <==> code_hier_upto(
                    m,
                    code_rows@,
                    e,
                    i as int,
                ),
        decreases code_rows@.len() - i,
    {
        let r = &code_rows[i];
        let ghost pre0 = edge_views(out@);
        let ck = crate::nodes::chapter_key(&r.title_num, &r.chapter_num);
        let ghost tkk = (Source::VirginiaCode, r.title_num@);
        let ghost ckk = (Source::VirginiaCode, ck@);
        let ghost skk = (Source::VirginiaCode, r.section@);
        let c_opt = lookup.get(Source::VirginiaCode, &ck);
        if let Option::Some(cv) = c_opt {
            let ghost cids = ids_of(cv@);
            let t_opt = lookup.get(Source::VirginiaCode, &r.title_num);
            if let Option::Some(tv) = t_opt {
                insert_pairs(&mut out, tv, cv, RelType::Contains);
                proof {
                    assert forall|e: EdgeModel|
                        pair_edge(ids_of(tv@), cids, RelType::Contains, e) == (e.rel_type
                            == RelType::Contains && in_lk(m, Source::VirginiaCode, r.title_num@, e.from_id)
                            && in_lk(m, Source::VirginiaCode, ck@, e.to_id)) by {}
                }
            }
            let ghost pre1 = edge_views(out@);
            let s_opt = lookup.get(Source::VirginiaCode, &r.section);
            if let Option::Some(sv) = s_opt {
                insert_pairs(&mut out, cv, sv, RelType::Contains);
                proof {
                    assert forall|e: EdgeModel|
                        pair_edge(cids, ids_of(sv@), RelType::Contains, e) == (e.rel_type
                            == RelType::Contains && in_lk(m, Source::VirginiaCode, ck@, e.from_id)
                            && in_lk(m, Source::VirginiaCode, r.section@, e.to_id)) by {}
                }
            }
            proof {
                assert forall|e: EdgeModel|
                    #[trigger] edge_present(edge_views(out@), e) <==> code_hier_upto(
                        m,
                        code_rows@,
                        e,
                        i + 1,
                    ) by {
                    lemma_code_upto_step(m, code_rows@, e, i as int);
                    assert(code_row_edge(m, code_rows@[i as int], e) == (e.rel_type
                        == RelType::Contains && ((in_lk(m, Source::VirginiaCode, r.title_num@, e.from_id)
                        && in_lk(m, Source::VirginiaCode, ck@, e.to_id)) || (in_lk(
                        m,
                        Source::VirginiaCode,
                        ck@,
                        e.from_id,
                    ) && in_lk(m, Source::VirginiaCode, r.section@, e.to_id)))));
                }
            }
        } else {
            let t_opt = lookup.get(Source::VirginiaCode, &r.title_num);
            let s_opt = lookup.get(Source::VirginiaCode, &r.section);
            if let (Option::Some(tv), Option::Some(sv)) = (t_opt, s_opt) {
                insert_pairs(&mut out, tv, sv, RelType::Contains);
                proof {
                    assert forall|e: EdgeModel|
                        pair_edge(ids_of(tv@), ids_of(sv@), RelType::Contains, e) == (e.rel_type
                            == RelType::Contains && in_lk(m, Source::VirginiaCode, r.title_num@, e.from_id)
                            && in_lk(m, Source::VirginiaCode, r.section@, e.to_id)) by {}
                }
            }
            proof {
                assert forall|e: EdgeModel|
                    #[trigger] edge_present(edge_views(out@), e) <==> code_hier_upto(
                        m,
                        code_rows@,
                        e,
                        i + 1,
                    ) by {
                    lemma_code_upto_step(m, code_rows@, e, i as int);
                    assert(!m.dom().contains(ckk));
                }
            }
        }
        i = i + 1;
    }
    let ghost n_code = code_rows@.len() as int;

    // Containment edges from the constitution.
    let mut i2: usize = 0;
    while i2 < constitution_rows.len()
        invariant
            m == lookup@,
            lookup.wf(),
            0 <= i2 <= constitution_rows@.len(),
            n_code == code_rows@.len() as int,
            edges_strictly_sorted(edge_views(out@)),
            forall|e: EdgeModel|
                #[trigger] edge_present(edge_views(out@), e) <==> (code_hier_upto(
                    m,
                    code_rows@,
                    e,
                    n_code,
                ) || const_hier_upto(m, constitution_rows@, e, i2 as int)),
        decreases constitution_rows@.len() - i2,
    {
        let r = &constitution_rows[i2];
        let ak = crate::nodes::article_key(r.article_id);
        let sk = crate::nodes::const_section_key(r.article_id, r.section_count);
        let a_opt = lookup.get(Source::Constitution, &ak);
        if let Option::Some(av) = a_opt {
            let s_opt = lookup.get(Source::Constitution, &sk);
            if let Option::Some(sv) = s_opt {
                insert_pairs(&mut out, av, sv, RelType::Contains);
            }
        }
        proof {
            assert forall|e: EdgeModel|
                #[trigger] edge_present(edge_views(out@), e) <==> (code_hier_upto(
                    m,
                    code_rows@,
                    e,
                    n_code,
                ) || const_hier_upto(m, constitution_rows@, e, i2 + 1)) by {
                lemma_const_upto_step(m, constitution_rows@, e, i2 as int);
                assert(const_row_edge(m, constitution_rows@[i2 as int], e) == (e.rel_type
                    == RelType::Contains && in_lk(m, Source::Constitution, ak@, e.from_id)
                    && in_lk(m, Source::Constitution, sk@, e.to_id)));
            }
        }
        i2 = i2 + 1;
    }
    let ghost n_const = constitution_rows@.len() as int;

    // Citation edges from the text of citable nodes.
    let mut i3: usize = 0;
    while i3 < nodes.len()
        invariant
            m == lookup@,
            lookup.wf(),
            nm == crate::etl::views_of(nodes@),
            tm == ref_views(texts@),
            texts@.len() == nodes@.len(),
            forall|k: int| 0 <= k < nodes@.len() ==> (#[trigger] nodes@[k])@.id == k + 1,
            0 <= i3 <= nodes@.len(),
            n_code == code_rows@.len() as int,
            n_const == constitution_rows@.len() as int,
            edges_strictly_sorted(edge_views(out@)),
            forall|e: EdgeModel|
                #[trigger] edge_present(edge_views(out@), e) <==> (code_hier_upto(
                    m,
                    code_rows@,
                    e,
                    n_code,
                ) || const_hier_upto(m, constitution_rows@, e, n_const) || cite_upto(
                    m,
                    nm,
                    tm,
                    e,
                    i3 as int,
                )),
        decreases nodes@.len() - i3,
    {
        let nd = &nodes[i3];
        proof {
            assert(nm[i3 as int] == nodes@[i3 as int]@);
            assert(tm[i3 as int] == texts@[i3 as int]@);
        }
        if node_type_citable(nd.node_type) {
            let refs = extract_section_refs(&texts[i3]);
            let ghost rv = ref_views(refs@);
            let node_id = nd.id;
            let mut j: usize = 0;
            while j < refs.len()
                invariant
                    m == lookup@,
                    lookup.wf(),
                    nm == crate::etl::views_of(nodes@),
                    tm == ref_views(texts@),
                    texts@.len() == nodes@.len(),
                    0 <= i3 < nodes@.len(),
                    nodes@[i3 as int]@ == nm[i3 as int],
                    node_id as int == nm[i3 as int].id,
                    citable(nm[i3 as int].node_type),
                    rv == ref_views(refs@),
                    forall|r: Seq<u8>|
                        #[trigger] ref_present(rv, r) <==> extract_model(tm[i3 as int]).contains(
                            r,
                        ),
                    0 <= j <= refs@.len(),
                    n_code == code_rows@.len() as int,
                    n_const == constitution_rows@.len() as int,
                    edges_strictly_sorted(edge_views(out@)),
                    forall|e: EdgeModel|
                        #[trigger] edge_present(edge_views(out@), e) <==> (code_hier_upto(
                            m,
                            code_rows@,
                            e,
                            n_code,
                        ) || const_hier_upto(m, constitution_rows@, e, n_const) || cite_upto(
                            m,
                            nm,
                            tm,
                            e,
                            i3 as int,
                        ) || (e.rel_type == RelType::Cites && e.from_id == nm[i3 as int].id
                            && e.to_id != nm[i3 as int].id && (exists|jj: int|
                            0 <= jj < j && in_lk(m, Source::VirginiaCode, #[trigger] rv[jj], e.to_id)))),
                decreases refs@.len() - j,
            {
                let ghost prev = edge_views(out@);
                let t_opt = lookup.get(Source::VirginiaCode, &refs[j]);
                if let Option::Some(tv) = t_opt {
                    insert_fan(&mut out, node_id, tv, RelType::Cites, true);
                }
                proof {
                    assert forall|e: EdgeModel|
                        #[trigger] edge_present(edge_views(out@), e) <==> (code_hier_upto(
                            m,
                            code_rows@,
                            e,
                            n_code,
                        ) || const_hier_upto(m, constitution_rows@, e, n_const) || cite_upto(
                            m,
                            nm,
                            tm,
                            e,
                            i3 as int,
                        ) || (e.rel_type == RelType::Cites && e.from_id == nm[i3 as int].id
                            && e.to_id != nm[i3 as int].id && (exists|jj: int|
                            0 <= jj < j + 1 && in_lk(m, Source::VirginiaCode, #[trigger] rv[jj], e.to_id)))) by {
                        assert(rv[j as int] == refs@[j as int]@);
                        if e.rel_type == RelType::Cites && e.from_id == nm[i3 as int].id
                            && e.to_id != nm[i3 as int].id && (exists|jj: int|
                            0 <= jj < j + 1 && in_lk(m, Source::VirginiaCode, #[trigger] rv[jj], e.to_id)) {
                            let jj = choose|jj: int|
                                0 <= jj < j + 1 && in_lk(m, Source::VirginiaCode, #[trigger] rv[jj], e.to_id);
                            if jj < j {
                                assert(edge_present(prev, e));
                            }
                        }
                    }
                }
                j = j + 1;
            }
            proof {
                assert forall|e: EdgeModel|
                    #[trigger] edge_present(edge_views(out@), e) <==> (code_hier_upto(
                        m,
                        code_rows@,
                        e,
                        n_code,
                    ) || const_hier_upto(m, constitution_rows@, e, n_const) || cite_upto(
                        m,
                        nm,
                        tm,
                        e,
                        i3 + 1,
                    )) by {
                    lemma_cite_upto_step(m, nm, tm, e, i3 as int);
                    assert(cite_node_edge(m, nm[i3 as int], tm[i3 as int], e) == (e.rel_type
                        == RelType::Cites && e.from_id == nm[i3 as int].id && e.to_id
                        != nm[i3 as int].id && (exists|jj: int|
                        0 <= jj < refs@.len() && in_lk(m, Source::VirginiaCode, #[trigger] rv[jj], e.to_id)))) by {
                        if cite_node_edge(m, nm[i3 as int], tm[i3 as int], e) {
                            let r = choose|r: Seq<u8>|
                                #[trigger] extract_model(tm[i3 as int]).contains(r) && in_lk(
                                    m,
                                    Source::VirginiaCode,
                                    r,
                                    e.to_id,
                                );
                            assert(ref_present(rv, r));
                            let jj = choose|jj: int| 0 <= jj < rv.len() && rv[jj] == r;
                            assert(in_lk(m, Source::VirginiaCode, rv[jj], e.to_id));
                        }
                        if e.rel_type == RelType::Cites && e.from_id == nm[i3 as int].id
                            && e.to_id != nm[i3 as int].id && (exists|jj: int|
                            0 <= jj < refs@.len() && in_lk(m, Source::VirginiaCode, #[trigger] rv[jj], e.to_id)) {
                            let jj = choose|jj: int|
                                0 <= jj < refs@.len() && in_lk(m, Source::VirginiaCode, #[trigger] rv[jj], e.to_id);
                            assert(ref_present(rv, rv[jj]));
                            assert(extract_model(tm[i3 as int]).contains(rv[jj]));
                        }
                    }
                }
            }
        } else {
            proof {
                assert forall|e: EdgeModel|
                    #[trigger] edge_present(edge_views(out@), e) <==> (code_hier_upto(
                        m,
                        code_rows@,
                        e,
                        n_code,
                    ) || const_hier_upto(m, constitution_rows@, e, n_const) || cite_upto(
                        m,
                        nm,
                        tm,
                        e,
                        i3 + 1,
                    )) by {
                    lemma_cite_upto_step(m, nm, tm, e, i3 as int);
                    assert(!citable(nm[i3 as int].node_type));
                }
            }
        }
        i3 = i3 + 1;
    }
    let ghost n_nodes = nodes@.len() as int;

    // Reference edges from raw document content, fanned out from each
    // document's first chunk node only.
    let mut i4: usize = 0;
    while i4 < document_rows.len()
        invariant
            m == lookup@,
            lookup.wf(),
            nm == crate::etl::views_of(nodes@),
            tm == ref_views(texts@),
            0 <= i4 <= document_rows@.len(),
            n_code == code_rows@.len() as int,
            n_const == constitution_rows@.len() as int,
            n_nodes == nodes@.len() as int,
            edges_strictly_sorted(edge_views(out@)),
            forall|e: EdgeModel|
                #[trigger] edge_present(edge_views(out@), e) <==> (code_hier_upto(
                    m,
                    code_rows@,
                    e,
                    n_code,
                ) || const_hier_upto(m, constitution_rows@, e, n_const) || cite_upto(
                    m,
                    nm,
                    tm,
                    e,
                    n_nodes,
                ) || doc_upto(m, document_rows@, e, i4 as int)),
        decreases document_rows@.len() - i4,
    {
        let r = &document_rows[i4];
        let ghost dkk = (Source::Documents, r.filename@);
        let d_opt = lookup.get(Source::Documents, &r.filename);
        let mut have_first: bool = false;
        let mut first_id: usize = 0;
        if let Option::Some(dv) = d_opt {
            if dv.len() > 0 {
                have_first = true;
                first_id = dv[0];
                proof {
                    assert(ids_of(dv@)[0] == dv@[0] as int);
                }
            }
        }
        if have_first {
            proof {
                assert(m.dom().contains(dkk) && m[dkk].len() > 0 && first_id as int == m[dkk][0]);
            }
            let refs = extract_section_refs(&r.content);
            let ghost rv = ref_views(refs@);
            let mut j: usize = 0;
            while j < refs.len()
                invariant
                    m == lookup@,
                    lookup.wf(),
                    nm == crate::etl::views_of(nodes@),
                    tm == ref_views(texts@),
                    0 <= i4 < document_rows@.len(),
                    dkk == (Source::Documents, document_rows@[i4 as int].filename@),
                    m.dom().contains(dkk) && m[dkk].len() > 0 && first_id as int == m[dkk][0],
                    rv == ref_views(refs@),
                    forall|rr: Seq<u8>|
                        #[trigger] ref_present(rv, rr) <==> extract_model(
                            document_rows@[i4 as int].content@,
                        ).contains(rr),
                    0 <= j <= refs@.len(),
                    n_code == code_rows@.len() as int,
                    n_const == constitution_rows@.len() as int,
                    n_nodes == nodes@.len() as int,
                    edges_strictly_sorted(edge_views(out@)),
                    forall|e: EdgeModel|
                        #[trigger] edge_present(edge_views(out@), e) <==> (code_hier_upto(
                            m,
                            code_rows@,
                            e,
                            n_code,
                        ) || const_hier_upto(m, constitution_rows@, e, n_const) || cite_upto(
                            m,
                            nm,
                            tm,
                            e,
                            n_nodes,
                        ) || doc_upto(m, document_rows@, e, i4 as int) || (e.rel_type
                            == RelType::References && e.from_id == first_id as int && (exists|jj: int|
                            0 <= jj < j && in_lk(m, Source::VirginiaCode, #[trigger] rv[jj], e.to_id)))),
                decreases refs@.len() - j,
            {
                let ghost prev = edge_views(out@);
                let t_opt = lookup.get(Source::VirginiaCode, &refs[j]);
                if let Option::Some(tv) = t_opt {
                    insert_fan(&mut out, first_id, tv, RelType::References, false);
                }
                proof {
                    assert forall|e: EdgeModel|
                        #[trigger] edge_present(edge_views(out@), e) <==> (code_hier_upto(
                            m,
                            code_rows@,
                            e,
                            n_code,
                        ) || const_hier_upto(m, constitution_rows@, e, n_const) || cite_upto(
                            m,
                            nm,
                            tm,
                            e,
                            n_nodes,
                        ) || doc_upto(m, document_rows@, e, i4 as int) || (e.rel_type
                            == RelType::References && e.from_id == first_id as int && (exists|jj: int|
                            0 <= jj < j + 1 && in_lk(m, Source::VirginiaCode, #[trigger] rv[jj], e.to_id)))) by {
                        assert(rv[j as int] == refs@[j as int]@);
                        if e.rel_type == RelType::References && e.from_id == first_id as int && (
                        exists|jj: int|
                            0 <= jj < j + 1 && in_lk(m, Source::VirginiaCode, #[trigger] rv[jj], e.to_id)) {
                            let jj = choose|jj: int|
                                0 <= jj < j + 1 && in_lk(m, Source::VirginiaCode, #[trigger] rv[jj], e.to_id);
                            if jj < j {
                                assert(edge_present(prev, e));
                            }
                        }
                    }
                }
                j = j + 1;
            }
            proof {
                assert forall|e: EdgeModel|
                    #[trigger] edge_present(edge_views(out@), e) <==> (code_hier_upto(
                        m,
                        code_rows@,
                        e,
                        n_code,
                    ) || const_hier_upto(m, constitution_rows@, e, n_const) || cite_upto(
                        m,
                        nm,
                        tm,
                        e,
                        n_nodes,
                    ) || doc_upto(m, document_rows@, e, i4 + 1)) by {
                    lemma_doc_upto_step(m, document_rows@, e, i4 as int);
                    assert(doc_row_edge(m, document_rows@[i4 as int], e) == (e.rel_type
                        == RelType::References && e.from_id == first_id as int && (exists|jj: int|
                        0 <= jj < refs@.len() && in_lk(m, Source::VirginiaCode, #[trigger] rv[jj], e.to_id)))) by {
                        if doc_row_edge(m, document_rows@[i4 as int], e) {
                            let rr = choose|rr: Seq<u8>|
                                #[trigger] extract_model(
                                    document_rows@[i4 as int].content@,
                                ).contains(rr) && in_lk(m, Source::VirginiaCode, rr, e.to_id);
                            assert(ref_present(rv, rr));
                            let jj = choose|jj: int| 0 <= jj < rv.len() && rv[jj] == rr;
                            assert(in_lk(m, Source::VirginiaCode, rv[jj], e.to_id));
                        }
                        if e.rel_type == RelType::References && e.from_id == first_id as int && (
                        exists|jj: int|
                            0 <= jj < refs@.len() && in_lk(m, Source::VirginiaCode, #[trigger] rv[jj], e.to_id)) {
                            let jj = choose|jj: int|
                                0 <= jj < refs@.len() && in_lk(m, Source::VirginiaCode, #[trigger] rv[jj], e.to_id);
                            assert(ref_present(rv, rv[jj]));
                            assert(extract_model(document_rows@[i4 as int].content@).contains(
                                rv[jj],
                            ));
                        }
                    }
                }
            }
        } else {
            proof {
                assert forall|e: EdgeModel|
                    #[trigger] edge_present(edge_views(out@), e) <==> (code_hier_upto(
                        m,
                        code_rows@,
                        e,
                        n_code,
                    ) || const_hier_upto(m, constitution_rows@, e, n_const) || cite_upto(
                        m,
                        nm,
                        tm,
                        e,
                        n_nodes,
                    ) || doc_upto(m, document_rows@, e, i4 + 1)) by {
                    lemma_doc_upto_step(m, document_rows@, e, i4 as int);
                    assert(!doc_row_edge(m, document_rows@[i4 as int], e));
                }
            }
        }
        i4 = i4 + 1;
    }
    out
}

/// The dedup law: an ordered edge list holds no two entries with the same
/// `(from, to, relation)` triple.
pub proof fn lemma_edges_no_duplicates(es: Seq<EdgeModel>)
    requires
        edges_strictly_sorted(es),
    ensures
        forall|i: int, j: int| 0 <= i < j < es.len() ==> #[trigger] es[i] != #[trigger] es[j],
{
    assert forall|i: int, j: int| 0 <= i < j < es.len() implies #[trigger] es[i]
        != #[trigger] es[j] by {
        assert(edge_lt(es[i], es[j]));
    }
}

/// The containment-completeness law: whenever a raw hierarchy relation has
/// both of its structural keys in the lookup table with at least one node
/// each, the edge set holds a containment edge between their node lists;
/// and every containment edge of the set was resolved from some raw
/// hierarchy row.
pub proof fn lemma_containment_complete(
    m: Map<(Source, Seq<u8>), Seq<int>>,
    code_rows: Seq<VirginiaCodeRow>,
    constitution_rows: Seq<ConstitutionRow>,
    document_rows: Seq<DocumentRow>,
    nodes: Seq<NodeModel>,
    texts: Seq<Seq<u8>>,
    es: Seq<EdgeModel>,
    i: int,
)
    requires
        forall|e: EdgeModel|
            #[trigger] edge_present(es, e) <==> graph_edge(
                m,
                code_rows,
                constitution_rows,
                document_rows,
                nodes,
                texts,
                e,
            ),
        0 <= i < code_rows.len(),
    ensures
        ({
            let tk = (Source::VirginiaCode, code_rows[i].title_num@);
            let ck = (
                Source::VirginiaCode,
                crate::nodes::chapter_key_spec(
                    code_rows[i].title_num@,
                    code_rows[i].chapter_num@,
                ),
            );
            m.dom().contains(tk) && m[tk].len() > 0 && m.dom().contains(ck) && m[ck].len() > 0
                ==> exists|e: EdgeModel|
                #[trigger] edge_present(es, e) && e.rel_type == RelType::Contains
                    && m[tk].contains(e.from_id) && m[ck].contains(e.to_id)
        }),
        ({
            let ck = (
                Source::VirginiaCode,
                crate::nodes::chapter_key_spec(
                    code_rows[i].title_num@,
                    code_rows[i].chapter_num@,
                ),
            );
            let sk = (Source::VirginiaCode, code_rows[i].section@);
            m.dom().contains(ck) && m[ck].len() > 0 && m.dom().contains(sk) && m[sk].len() > 0
                ==> exists|e: EdgeModel|
                #[trigger] edge_present(es, e) && e.rel_type == RelType::Contains
                    && m[ck].contains(e.from_id) && m[sk].contains(e.to_id)
        }),
        ({
            let tk = (Source::VirginiaCode, code_rows[i].title_num@);
            let ck = (
                Source::VirginiaCode,
                crate::nodes::chapter_key_spec(
                    code_rows[i].title_num@,
                    code_rows[i].chapter_num@,
                ),
            );
            let sk = (Source::VirginiaCode, code_rows[i].section@);
            !m.dom().contains(ck) && m.dom().contains(tk) && m[tk].len() > 0 && m.dom().contains(
                sk,
            ) && m[sk].len() > 0 ==> exists|e: EdgeModel|
                #[trigger] edge_present(es, e) && e.rel_type == RelType::Contains
                    && m[tk].contains(e.from_id) && m[sk].contains(e.to_id)
        }),
        forall|e: EdgeModel|
            #[trigger] edge_present(es, e) && e.rel_type == RelType::Contains ==> (code_hier_upto(
                m,
                code_rows,
                e,
                code_rows.len() as int,
            ) || const_hier_upto(m, constitution_rows, e, constitution_rows.len() as int)),
{
    let r = code_rows[i];
    let tk = (Source::VirginiaCode, r.title_num@);
    let ck = (
        Source::VirginiaCode,
        crate::nodes::chapter_key_spec(r.title_num@, r.chapter_num@),
    );
    let sk = (Source::VirginiaCode, r.section@);
    if m.dom().contains(tk) && m[tk].len() > 0 && m.dom().contains(ck) && m[ck].len() > 0 {
        let e = EdgeModel { from_id: m[tk][0], to_id: m[ck][0], rel_type: RelType::Contains };
        assert(m[tk].contains(e.from_id));
        assert(m[ck].contains(e.to_id));
        assert(code_row_edge(m, code_rows[i], e));
        assert(code_hier_upto(m, code_rows, e, code_rows.len() as int));
        assert(edge_present(es, e));
    }
    if m.dom().contains(ck) && m[ck].len() > 0 && m.dom().contains(sk) && m[sk].len() > 0 {
        let e = EdgeModel { from_id: m[ck][0], to_id: m[sk][0], rel_type: RelType::Contains };
        assert(m[ck].contains(e.from_id));
        assert(m[sk].contains(e.to_id));
        assert(code_row_edge(m, code_rows[i], e));
        assert(code_hier_upto(m, code_rows, e, code_rows.len() as int));
        assert(edge_present(es, e));
    }
    if !m.dom().contains(ck) && m.dom().contains(tk) && m[tk].len() > 0 && m.dom().contains(sk)
        && m[sk].len() > 0 {
        let e = EdgeModel { from_id: m[tk][0], to_id: m[sk][0], rel_type: RelType::Contains };
        assert(m[tk].contains(e.from_id));
        assert(m[sk].contains(e.to_id));
        assert(code_row_edge(m, code_rows[i], e));
        assert(code_hier_upto(m, code_rows, e, code_rows.len() as int));
        assert(edge_present(es, e));
    }
    assert forall|e: EdgeModel|
        #[trigger] edge_present(es, e) && e.rel_type == RelType::Contains implies (code_hier_upto(
        m,
        code_rows,
        e,
        code_rows.len() as int,
    ) || const_hier_upto(m, constitution_rows, e, constitution_rows.len() as int)) by {
        if cite_upto(m, nodes, texts, e, nodes.len() as int) {
            let w = choose|w: int|
                0 <= w < nodes.len() && w < nodes.len() && w < texts.len() && cite_node_edge(
                    m,
                    nodes[w],
                    texts[w],
                    e,
                );
            assert(false);
        }
        if doc_upto(m, document_rows, e, document_rows.len() as int) {
            let w = choose|w: int|
                0 <= w < document_rows.len() && w < document_rows.len() && doc_row_edge(
                    m,
                    document_rows[w],
                    e,
                );
            assert(false);
        }
    }
}

/// The article-to-section side of containment completeness.
pub proof fn lemma_constitution_containment_complete(
    m: Map<(Source, Seq<u8>), Seq<int>>,
    code_rows: Seq<VirginiaCodeRow>,
    constitution_rows: Seq<ConstitutionRow>,
    document_rows: Seq<DocumentRow>,
    nodes: Seq<NodeModel>,
    texts: Seq<Seq<u8>>,
    es: Seq<EdgeModel>,
    i: int,
)
    requires
        forall|e: EdgeModel|
            #[trigger] edge_present(es, e) <==> graph_edge(
                m,
                code_rows,
                constitution_rows,
                document_rows,
                nodes,
                texts,
                e,
            ),
        0 <= i < constitution_rows.len(),
    ensures
        ({
            let ak = (
                Source::Constitution,
                crate::nodes::article_key_spec(constitution_rows[i].article_id as int),
            );
            let sk = (
                Source::Constitution,
                crate::nodes::const_section_key_spec(
                    constitution_rows[i].article_id as int,
                    constitution_rows[i].section_count as int,
                ),
            );
            m.dom().contains(ak) && m[ak].len() > 0 && m.dom().contains(sk) && m[sk].len() > 0
                ==> exists|e: EdgeModel|
                #[trigger] edge_present(es, e) && e.rel_type == RelType::Contains
                    && m[ak].contains(e.from_id) && m[sk].contains(e.to_id)
        }),
{
    let r = constitution_rows[i];
    let ak = (Source::Constitution, crate::nodes::article_key_spec(r.article_id as int));
    let sk = (
        Source::Constitution,
        crate::nodes::const_section_key_spec(r.article_id as int, r.section_count as int),
    );
    if m.dom().contains(ak) && m[ak].len() > 0 && m.dom().contains(sk) && m[sk].len() > 0 {
        let e = EdgeModel { from_id: m[ak][0], to_id: m[sk][0], rel_type: RelType::Contains };
        assert(m[ak].contains(e.from_id));
        assert(m[sk].contains(e.to_id));
        assert(const_row_edge(m, constitution_rows[i], e));
        assert(const_hier_upto(m, constitution_rows, e, constitution_rows.len() as int));
        assert(edge_present(es, e));
    }
}

} // verus!

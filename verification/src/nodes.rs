//! Node construction: one node per citable unit or text chunk, with stable
//! integer identities assigned in order, a reverse lookup from structural key
//! to the node identities sharing it, and byte-offset metadata for chunks.

use vstd::prelude::*;

use crate::chunker::{chunk_model, chunk_text, ChunkModel};
use crate::etl::{
    views_of, CleanedAuthorityModel, CleanedConstitutionModel, CleanedCourtModel,
    CleanedData, CleanedDocumentModel, CleanedPopularNameModel, CleanedSectionModel,
};
use crate::text::{append_bytes, copy_bytes};

verus! {

/// The originating table of a node.
#[derive(Clone, Copy, PartialEq, Eq, Structural, Debug, Hash)]
pub enum Source {
    VirginiaCode,
    Constitution,
    Authorities,
    Courts,
    PopularNames,
    Documents,
}

/// The fine-grained kind of a node; one source can yield several structural
/// levels.
#[derive(Clone, Copy, PartialEq, Eq, Structural, Debug, Hash)]
pub enum NodeType {
    Title,
    Chapter,
    Section,
    Article,
    ConstitutionSection,
    Authority,
    Court,
    PopularName,
    ManualChunk,
}

/// A node of the knowledge graph: a citable unit of text, or a synthetic
/// ancestor that only anchors hierarchy edges.
pub struct Node {
    pub id: usize,
    pub source: Source,
    pub source_id: Vec<u8>,
    pub chunk_idx: usize,
    pub node_type: NodeType,
    pub synthetic: bool,
}

/// The mathematical image of a node.
pub struct NodeModel {
    pub id: int,
    pub source: Source,
    pub source_id: Seq<u8>,
    pub chunk_idx: int,
    pub node_type: NodeType,
    pub synthetic: bool,
}

impl View for Node {
    type V = NodeModel;

    open spec fn view(&self) -> NodeModel {
        NodeModel {
            id: self.id as int,
            source: self.source,
            source_id: self.source_id@,
            chunk_idx: self.chunk_idx as int,
            node_type: self.node_type,
            synthetic: self.synthetic,
        }
    }
}

/// Byte-offset metadata for a chunk node, used to slice source text later.
pub struct ChunkMeta {
    pub node_id: usize,
    pub char_start: usize,
    pub char_end: usize,
}

/// The mathematical image of a chunk-offset record.
pub struct ChunkMetaModel {
    pub node_id: int,
    pub char_start: int,
    pub char_end: int,
}

impl View for ChunkMeta {
    type V = ChunkMetaModel;

    open spec fn view(&self) -> ChunkMetaModel {
        ChunkMetaModel {
            node_id: self.node_id as int,
            char_start: self.char_start as int,
            char_end: self.char_end as int,
        }
    }
}

/// One key of the lookup table with the ordered node identities sharing it.
pub struct LookupEntry {
    pub source: Source,
    pub key: Vec<u8>,
    pub ids: Vec<usize>,
}

/// The identities of an entry, as mathematical integers.
pub open spec fn ids_of(ids: Seq<usize>) -> Seq<int> {
    ids.map_values(|x: usize| x as int)
}

/// The map held by a list of lookup entries.
pub open spec fn lookup_map(es: Seq<LookupEntry>) -> Map<(Source, Seq<u8>), Seq<int>>
    decreases es.len(),
{
    if es.len() == 0 {
        Map::empty()
    } else {
        lookup_map(es.drop_last()).insert(
            (es.last().source, es.last().key@),
            ids_of(es.last().ids@),
        )
    }
}

/// No two entries share a key.
pub open spec fn lookup_keys_distinct(es: Seq<LookupEntry>) -> bool {
    forall|i: int, j: int|
        0 <= i < j < es.len() ==> ((#[trigger] es[i]).source, es[i].key@) != (
        (#[trigger] es[j]).source,
        es[j].key@,
        )
}

proof fn lemma_lookup_map_props(es: Seq<LookupEntry>)
    requires
        lookup_keys_distinct(es),
    ensures
        forall|k: (Source, Seq<u8>)|
            #[trigger] lookup_map(es).dom().contains(k) ==> exists|j: int|
                0 <= j < es.len() && ((#[trigger] es[j]).source, es[j].key@) == k,
        forall|j: int|
            0 <= j < es.len() ==> lookup_map(es).dom().contains(
                ((#[trigger] es[j]).source, es[j].key@),
            ) && lookup_map(es)[(es[j].source, es[j].key@)] == ids_of(es[j].ids@),
    decreases es.len(),
{
    if es.len() == 0 {
    } else {
        let pre = es.drop_last();
        lemma_lookup_map_props(pre);
        let last = es.last();
        let lk = (last.source, last.key@);
        assert forall|j: int| 0 <= j < es.len() implies lookup_map(es).dom().contains(
            ((#[trigger] es[j]).source, es[j].key@),
        ) && lookup_map(es)[(es[j].source, es[j].key@)] == ids_of(es[j].ids@) by {
            if j < es.len() - 1 {
                assert(es[j] == pre[j]);
                assert((es[j].source, es[j].key@) != lk);
            } else {
                assert(es[j] == last);
            }
        }
        assert forall|k: (Source, Seq<u8>)| #[trigger] lookup_map(es).dom().contains(k) implies
            exists|j: int| 0 <= j < es.len() && ((#[trigger] es[j]).source, es[j].key@) == k by {
            if k == lk {
                assert(((es[es.len() - 1]).source, es[es.len() - 1].key@) == k);
            } else {
                assert(lookup_map(pre).dom().contains(k));
                let j = choose|j: int|
                    0 <= j < pre.len() && ((#[trigger] pre[j]).source, pre[j].key@) == k;
                assert(((es[j]).source, es[j].key@) == k);
            }
        }
    }
}

/// What adding one identity under a key does to the lookup map: the identity
/// is appended to the key's list, or starts it.
pub open spec fn lk_add(
    m: Map<(Source, Seq<u8>), Seq<int>>,
    k: (Source, Seq<u8>),
    id: int,
) -> Map<(Source, Seq<u8>), Seq<int>> {
    if m.dom().contains(k) {
        m.insert(k, m[k] + seq![id])
    } else {
        m.insert(k, seq![id])
    }
}

/// The lookup table: an insertion-ordered index from `(source, key)` to the
/// ordered list of node identities sharing that key.
pub struct Lookup {
    pub entries: Vec<LookupEntry>,
}

impl View for Lookup {
    type V = Map<(Source, Seq<u8>), Seq<int>>;

    open spec fn view(&self) -> Map<(Source, Seq<u8>), Seq<int>> {
        lookup_map(self.entries@)
    }
}

impl Lookup {
    /// The table never holds two entries for one key.
    pub open spec fn wf(&self) -> bool {
        lookup_keys_distinct(self.entries@)
    }

    /// An empty table.
    pub fn new() -> (out: Lookup)
        ensures
            out@ == Map::<(Source, Seq<u8>), Seq<int>>::empty(),
            out.wf(),
    {
        let out = Lookup { entries: Vec::new() };
        out
    }

    /// The ordered identities under a key, if the key is present.
    pub fn get(&self, source: Source, key: &Vec<u8>) -> (r: Option<&Vec<usize>>)
        requires
            self.wf(),
        ensures
            match r {
                Option::Some(v) => self@.dom().contains((source, key@)) && ids_of(v@) == self@[
                    (source, key@)
                ],
                Option::None => !self@.dom().contains((source, key@)),
            },
    {
        proof {
            lemma_lookup_map_props(self.entries@);
        }
        let n: usize = self.entries.len();
        let mut i: usize = 0;
        while i < n
            invariant
                n == self.entries@.len(),
                0 <= i <= n,
                lookup_keys_distinct(self.entries@),
                forall|j: int|
                    0 <= j < i ==> ((#[trigger] self.entries@[j]).source, self.entries@[j].key@)
                        != (source, key@),
            decreases n - i,
        {
            let e = &self.entries[i];
            if e.source == source && crate::text::bytes_eq(&e.key, key) {
                proof {
                    lemma_lookup_map_props(self.entries@);
                }
                return Option::Some(&self.entries[i].ids);
            }
            i = i + 1;
        }
        proof {
            if self@.dom().contains((source, key@)) {
                lemma_lookup_map_props(self.entries@);
                let j = choose|j: int|
                    0 <= j < self.entries@.len() && ((#[trigger] self.entries@[j]).source,
                    self.entries@[j].key@) == (source, key@);
                assert(false);
            }
        }
        Option::None
    }

    /// Registers one identity under a key, appending to the key's list or
    /// starting it.
    pub fn add(&mut self, source: Source, key: &Vec<u8>, id: usize)
        requires
            old(self).wf(),
        ensures
            final(self).wf(),
            final(self)@ == lk_add(old(self)@, (source, key@), id as int),
    {
        proof {
            lemma_lookup_map_props(self.entries@);
        }
        let ghost es0 = self.entries@;
        let n: usize = self.entries.len();
        let mut i: usize = 0;
        while i < n
            invariant
                self.entries@ == es0,
                old(self).entries@ == es0,
                n == es0.len(),
                0 <= i <= n,
                lookup_keys_distinct(es0),
                forall|j: int|
                    0 <= j < i ==> ((#[trigger] es0[j]).source, es0[j].key@) != (source, key@),
            decreases n - i,
        {
            let matches_here = {
                let e = &self.entries[i];
                e.source == source && crate::text::bytes_eq(&e.key, key)
            };
            if matches_here {
                let ghost old_entry = self.entries@[i as int];
                self.entries[i].ids.push(id);
                proof {
                    let es1 = self.entries@;
                    assert(es1 =~= es0.update(
                        i as int,
                        LookupEntry {
                            source: old_entry.source,
                            key: old_entry.key,
                            ids: es1[i as int].ids,
                        },
                    ));
                    assert(es1[i as int].ids@ == old_entry.ids@.push(id));
                    assert(lookup_keys_distinct(es1));
                    lemma_lookup_map_props(es0);
                    lemma_lookup_map_props(es1);
                    let k = (source, key@);
                    assert(ids_of(old_entry.ids@.push(id)) =~= ids_of(old_entry.ids@) + seq![
                        id as int,
                    ]);
                    assert forall|k2: (Source, Seq<u8>)|
                        lookup_map(es1).dom().contains(k2) == lk_add(
                            lookup_map(es0),
                            k,
                            id as int,
                        ).dom().contains(k2) by {
                        if lookup_map(es1).dom().contains(k2) {
                            let j = choose|j: int|
                                0 <= j < es1.len() && ((#[trigger] es1[j]).source, es1[j].key@)
                                    == k2;
                            assert((es0[j].source, es0[j].key@) == k2);
                        }
                        if lk_add(lookup_map(es0), k, id as int).dom().contains(k2) {
                            if k2 == k {
                                assert((es1[i as int].source, es1[i as int].key@) == k2);
                            } else {
                                let j = choose|j: int|
                                    0 <= j < es0.len() && ((#[trigger] es0[j]).source,
                                    es0[j].key@) == k2;
                                assert((es1[j].source, es1[j].key@) == k2);
                            }
                        }
                    }
                    assert forall|k2: (Source, Seq<u8>)|
                        #[trigger] lookup_map(es1).dom().contains(k2) implies lookup_map(es1)[k2]
                        == lk_add(lookup_map(es0), k, id as int)[k2] by {
                        let j = choose|j: int|
                            0 <= j < es1.len() && ((#[trigger] es1[j]).source, es1[j].key@) == k2;
                        if j == i as int {
                            assert(k2 == k);
                            assert(lookup_map(es1)[k2] == ids_of(es1[j].ids@));
                            assert(lookup_map(es0)[k] == ids_of(old_entry.ids@));
                        } else {
                            assert(es1[j] == es0[j]);
                            assert(k2 != k);
                            assert(lookup_map(es1)[k2] == ids_of(es1[j].ids@));
                            assert(lookup_map(es0)[k2] == ids_of(es0[j].ids@));
                        }
                    }
                    assert(lookup_map(es1) =~= lk_add(lookup_map(es0), k, id as int));
                }
                return ;
            }
            i = i + 1;
        }
        let mut ids: Vec<usize> = Vec::new();
        ids.push(id);
        let entry = LookupEntry { source, key: copy_bytes(key), ids };
        self.entries.push(entry);
        proof {
            let es1 = self.entries@;
            assert(es1.drop_last() =~= es0);
            assert(ids_of(es1.last().ids@) =~= seq![id as int]);
            lemma_lookup_map_props(es0);
            if lookup_map(es0).dom().contains((source, key@)) {
                let j = choose|j: int|
                    0 <= j < es0.len() && ((#[trigger] es0[j]).source, es0[j].key@) == (
                    source,
                    key@,
                );
                assert(false);
            }
            assert(lookup_keys_distinct(es1));
        }
    }
}

/// The decimal digits of a nonnegative integer.
pub open spec fn dec_nat(n: int) -> Seq<u8>
    decreases n,
{
    if n < 0 {
        seq![48u8]
    } else if n < 10 {
        seq![(48 + n) as u8]
    } else {
        dec_nat(n / 10) + seq![(48 + n % 10) as u8]
    }
}

/// The decimal form of an integer, with a leading minus sign when negative.
pub open spec fn dec_i64(n: int) -> Seq<u8> {
    if n < 0 {
        seq![45u8] + dec_nat(-n)
    } else {
        dec_nat(n)
    }
}

fn format_u64(n: u64) -> (out: Vec<u8>)
    ensures
        out@ == dec_nat(n as int),
    decreases n,
{
    if n < 10 {
        let mut v: Vec<u8> = Vec::new();
        v.push(48 + (n as u8));
        proof {
            assert(v@ =~= dec_nat(n as int));
        }
        v
    } else {
        let mut v = format_u64(n / 10);
        v.push(48 + ((n % 10) as u8));
        proof {
            assert(v@ =~= dec_nat(n as int));
        }
        v
    }
}

/// Writes an integer identity in decimal, as the structural key of sources
/// whose natural key is numeric.
pub fn format_i64(n: i64) -> (out: Vec<u8>)
    ensures
        out@ == dec_i64(n as int),
{
    if n >= 0 {
        format_u64(n as u64)
    } else {
        let m: u64 = ((-(n + 1)) as u64) + 1;
        proof {
            assert(m as int == -(n as int));
        }
        let mut v: Vec<u8> = Vec::new();
        v.push(45u8);
        let d = format_u64(m);
        append_bytes(&mut v, &d);
        proof {
            assert(v@ =~= dec_i64(n as int));
        }
        v
    }
}

/// The composite key of a chapter: title number, colon, chapter number.
pub open spec fn chapter_key_spec(t: Seq<u8>, c: Seq<u8>) -> Seq<u8> {
    t + seq![58u8] + c
}

pub(crate) fn chapter_key(t: &Vec<u8>, c: &Vec<u8>) -> (out: Vec<u8>)
    ensures
        out@ == chapter_key_spec(t@, c@),
{
    let mut out: Vec<u8> = Vec::new();
    append_bytes(&mut out, t);
    out.push(58u8);
    append_bytes(&mut out, c);
    proof {
        assert(out@ =~= chapter_key_spec(t@, c@));
    }
    out
}

/// The bytes of "article:".
pub open spec fn article_prefix() -> Seq<u8> {
    seq![97u8, 114u8, 116u8, 105u8, 99u8, 108u8, 101u8, 58u8]
}

/// The key of a synthetic article node.
pub open spec fn article_key_spec(aid: int) -> Seq<u8> {
    article_prefix() + dec_i64(aid)
}

pub(crate) fn article_key(aid: i64) -> (out: Vec<u8>)
    ensures
        out@ == article_key_spec(aid as int),
{
    let mut out: Vec<u8> = Vec::new();
    out.push(97u8);
    out.push(114u8);
    out.push(116u8);
    out.push(105u8);
    out.push(99u8);
    out.push(108u8);
    out.push(101u8);
    out.push(58u8);
    let d = format_i64(aid);
    append_bytes(&mut out, &d);
    proof {
        assert(out@ =~= article_key_spec(aid as int));
    }
    out
}

/// The key of a constitutional section: article id, colon, section count.
pub open spec fn const_section_key_spec(aid: int, sc: int) -> Seq<u8> {
    dec_i64(aid) + seq![58u8] + dec_i64(sc)
}

pub(crate) fn const_section_key(aid: i64, sc: i64) -> (out: Vec<u8>)
    ensures
        out@ == const_section_key_spec(aid as int, sc as int),
{
    let mut out = format_i64(aid);
    out.push(58u8);
    let d = format_i64(sc);
    append_bytes(&mut out, &d);
    proof {
        assert(out@ =~= const_section_key_spec(aid as int, sc as int));
    }
    out
}

/// One unit of node construction: a synthetic ancestor label, or a leaf
/// record whose text may be chunked. `meta_always` records offsets for every
/// chunk; otherwise offsets are recorded only when a text was split.
pub struct Unit {
    pub source: Source,
    pub key: Vec<u8>,
    pub node_type: NodeType,
    pub synthetic: bool,
    pub do_chunk: bool,
    pub meta_always: bool,
    pub text: Vec<u8>,
}

/// The mathematical image of a unit.
pub struct UnitModel {
    pub source: Source,
    pub key: Seq<u8>,
    pub node_type: NodeType,
    pub synthetic: bool,
    pub do_chunk: bool,
    pub meta_always: bool,
    pub text: Seq<u8>,
}

impl View for Unit {
    type V = UnitModel;

    open spec fn view(&self) -> UnitModel {
        UnitModel {
            source: self.source,
            key: self.key@,
            node_type: self.node_type,
            synthetic: self.synthetic,
            do_chunk: self.do_chunk,
            meta_always: self.meta_always,
            text: self.text@,
        }
    }
}

/// The synthetic title units of the statute table: one per distinct nonempty
/// title number, first-seen name wins.
pub open spec fn vc_title_units(
    rows: Seq<CleanedSectionModel>,
    i: int,
    seen: Set<Seq<u8>>,
) -> Seq<UnitModel>
    decreases rows.len() - i,
{
    if i < 0 || i >= rows.len() {
        Seq::empty()
    } else {
        let r = rows[i];
        if r.title_num.len() > 0 && !seen.contains(r.title_num) {
            seq![
                UnitModel {
                    source: Source::VirginiaCode,
                    key: r.title_num,
                    node_type: NodeType::Title,
                    synthetic: true,
                    do_chunk: false,
                    meta_always: false,
                    text: r.title_name,
                },
            ] + vc_title_units(rows, i + 1, seen.insert(r.title_num))
        } else {
            vc_title_units(rows, i + 1, seen)
        }
    }
}

/// The synthetic chapter units of the statute table: one per distinct
/// composite chapter key with a nonempty chapter number, first-seen name
/// wins.
pub open spec fn vc_chapter_units(
    rows: Seq<CleanedSectionModel>,
    i: int,
    seen: Set<Seq<u8>>,
) -> Seq<UnitModel>
    decreases rows.len() - i,
{
    if i < 0 || i >= rows.len() {
        Seq::empty()
    } else {
        let r = rows[i];
        let ck = chapter_key_spec(r.title_num, r.chapter_num);
        if r.chapter_num.len() > 0 && !seen.contains(ck) {
            seq![
                UnitModel {
                    source: Source::VirginiaCode,
                    key: ck,
                    node_type: NodeType::Chapter,
                    synthetic: true,
                    do_chunk: false,
                    meta_always: false,
                    text: r.chapter_name,
                },
            ] + vc_chapter_units(rows, i + 1, seen.insert(ck))
        } else {
            vc_chapter_units(rows, i + 1, seen)
        }
    }
}

/// The leaf section units of the statute table, in record order.
pub open spec fn vc_section_units(rows: Seq<CleanedSectionModel>, i: int) -> Seq<UnitModel>
    decreases rows.len() - i,
{
    if i < 0 || i >= rows.len() {
        Seq::empty()
    } else {
        let r = rows[i];
        if r.section.len() > 0 {
            seq![
                UnitModel {
                    source: Source::VirginiaCode,
                    key: r.section,
                    node_type: NodeType::Section,
                    synthetic: false,
                    do_chunk: true,
                    meta_always: false,
                    text: r.clean_text,
                },
            ] + vc_section_units(rows, i + 1)
        } else {
            vc_section_units(rows, i + 1)
        }
    }
}

/// The synthetic article units of the constitution table: one per distinct
/// article id, first-seen name wins.
pub open spec fn const_article_units(
    rows: Seq<CleanedConstitutionModel>,
    i: int,
    seen: Set<int>,
) -> Seq<UnitModel>
    decreases rows.len() - i,
{
    if i < 0 || i >= rows.len() {
        Seq::empty()
    } else {
        let r = rows[i];
        if !seen.contains(r.article_id) {
            seq![
                UnitModel {
                    source: Source::Constitution,
                    key: article_key_spec(r.article_id),
                    node_type: NodeType::Article,
                    synthetic: true,
                    do_chunk: false,
                    meta_always: false,
                    text: r.article_name,
                },
            ] + const_article_units(rows, i + 1, seen.insert(r.article_id))
        } else {
            const_article_units(rows, i + 1, seen)
        }
    }
}

/// The leaf section units of the constitution table, in record order.
pub open spec fn const_section_units(rows: Seq<CleanedConstitutionModel>, i: int) -> Seq<
    UnitModel,
>
    decreases rows.len() - i,
{
    if i < 0 || i >= rows.len() {
        Seq::empty()
    } else {
        let r = rows[i];
        seq![
            UnitModel {
                source: Source::Constitution,
                key: const_section_key_spec(r.article_id, r.section_count),
                node_type: NodeType::ConstitutionSection,
                synthetic: false,
                do_chunk: true,
                meta_always: false,
                text: r.clean_text,
            },
        ] + const_section_units(rows, i + 1)
    }
}

/// The authority units, in record order.
pub open spec fn auth_units(rows: Seq<CleanedAuthorityModel>, i: int) -> Seq<UnitModel>
    decreases rows.len() - i,
{
    if i < 0 || i >= rows.len() {
        Seq::empty()
    } else {
        let r = rows[i];
        if r.short_name.len() > 0 {
            seq![
                UnitModel {
                    source: Source::Authorities,
                    key: r.short_name,
                    node_type: NodeType::Authority,
                    synthetic: false,
                    do_chunk: true,
                    meta_always: false,
                    text: r.clean_text,
                },
            ] + auth_units(rows, i + 1)
        } else {
            auth_units(rows, i + 1)
        }
    }
}

/// The court units, in record order; court text is never chunked.
pub open spec fn court_units(rows: Seq<CleanedCourtModel>, i: int) -> Seq<UnitModel>
    decreases rows.len() - i,
{
    if i < 0 || i >= rows.len() {
        Seq::empty()
    } else {
        let r = rows[i];
        seq![
            UnitModel {
                source: Source::Courts,
                key: dec_i64(r.id),
                node_type: NodeType::Court,
                synthetic: false,
                do_chunk: false,
                meta_always: false,
                text: r.clean_text,
            },
        ] + court_units(rows, i + 1)
    }
}

/// The named-act units, in record order.
pub open spec fn pop_units(rows: Seq<CleanedPopularNameModel>, i: int) -> Seq<UnitModel>
    decreases rows.len() - i,
{
    if i < 0 || i >= rows.len() {
        Seq::empty()
    } else {
        let r = rows[i];
        if r.name.len() > 0 {
            seq![
                UnitModel {
                    source: Source::PopularNames,
                    key: r.name,
                    node_type: NodeType::PopularName,
                    synthetic: false,
                    do_chunk: true,
                    meta_always: false,
                    text: r.clean_text,
                },
            ] + pop_units(rows, i + 1)
        } else {
            pop_units(rows, i + 1)
        }
    }
}

/// The document units, in record order; every chunk's offsets are recorded.
pub open spec fn doc_units(rows: Seq<CleanedDocumentModel>, i: int) -> Seq<UnitModel>
    decreases rows.len() - i,
{
    if i < 0 || i >= rows.len() {
        Seq::empty()
    } else {
        let r = rows[i];
        if r.filename.len() > 0 {
            seq![
                UnitModel {
                    source: Source::Documents,
                    key: r.filename,
                    node_type: NodeType::ManualChunk,
                    synthetic: false,
                    do_chunk: true,
                    meta_always: true,
                    text: r.clean_text,
                },
            ] + doc_units(rows, i + 1)
        } else {
            doc_units(rows, i + 1)
        }
    }
}

/// The set of integers held by a vector.
pub open spec fn ints_set(v: Seq<i64>) -> Set<int> {
    Set::new(|t: int| exists|j: int| 0 <= j < v.len() && v[j] as int == t)
}

proof fn lemma_ints_set_push(v: Seq<i64>, x: i64)
    ensures
        ints_set(v.push(x)) =~= ints_set(v).insert(x as int),
{
    assert forall|t: int| ints_set(v.push(x)).contains(t) == ints_set(v).insert(
        x as int,
    ).contains(t) by {
        if ints_set(v.push(x)).contains(t) {
            let j = choose|j: int| 0 <= j < v.push(x).len() && v.push(x)[j] as int == t;
            if j < v.len() {
                assert(v[j] as int == t);
                assert(ints_set(v).contains(t));
            } else {
                assert(t == x as int);
            }
        }
        if ints_set(v).insert(x as int).contains(t) {
            if t == x as int {
                assert(v.push(x)[v.len() as int] as int == t);
                assert(ints_set(v.push(x)).contains(t));
            } else {
                assert(ints_set(v).contains(t));
                let j = choose|j: int| 0 <= j < v.len() && v[j] as int == t;
                assert(v.push(x)[j] as int == t);
                assert(ints_set(v.push(x)).contains(t));
            }
        }
    }
}

/// Whether one of the integers held so far equals `t`.
fn ints_contains(seen: &Vec<i64>, t: i64) -> (r: bool)
    ensures
        r == ints_set(seen@).contains(t as int),
{
    let n: usize = seen.len();
    let mut i: usize = 0;
    while i < n
        invariant
            n == seen@.len(),
            0 <= i <= n,
            forall|j: int| 0 <= j < i ==> (#[trigger] seen@[j]) != t,
        decreases n - i,
    {
        if seen[i] == t {
            proof {
                assert(ints_set(seen@).contains(t as int));
            }
            return true;
        }
        i = i + 1;
    }
    proof {
        if ints_set(seen@).contains(t as int) {
            let j = choose|j: int| 0 <= j < seen@.len() && seen@[j] as int == t as int;
            assert(false);
        }
    }
    false
}

/// Every unit of node construction, in pass order: statute titles, chapters
/// and sections, then constitution articles and sections, authorities,
/// courts, named acts and documents.
pub open spec fn all_units(
    vc: Seq<CleanedSectionModel>,
    co: Seq<CleanedConstitutionModel>,
    au: Seq<CleanedAuthorityModel>,
    ct: Seq<CleanedCourtModel>,
    pn: Seq<CleanedPopularNameModel>,
    dc: Seq<CleanedDocumentModel>,
) -> Seq<UnitModel> {
    vc_title_units(vc, 0, Set::empty()) + vc_chapter_units(vc, 0, Set::empty())
        + vc_section_units(vc, 0) + const_article_units(co, 0, Set::empty())
        + const_section_units(co, 0) + auth_units(au, 0) + court_units(ct, 0) + pop_units(pn, 0)
        + doc_units(dc, 0)
}

/// Derives every unit of node construction from the cleaned tables, in pass
/// order, with the synthetic ancestors deduplicated by key.
fn build_units(cleaned: &CleanedData) -> (out: Vec<Unit>)
    ensures
        views_of(out@) == all_units(
            views_of(cleaned.virginia_code@),
            views_of(cleaned.constitution@),
            views_of(cleaned.authorities@),
            views_of(cleaned.courts@),
            views_of(cleaned.popular_names@),
            views_of(cleaned.documents@),
        ),
{
    let ghost vcm = views_of(cleaned.virginia_code@);
    let ghost com = views_of(cleaned.constitution@);
    let ghost aum = views_of(cleaned.authorities@);
    let ghost ctm = views_of(cleaned.courts@);
    let ghost pnm = views_of(cleaned.popular_names@);
    let ghost dcm = views_of(cleaned.documents@);
    let mut units: Vec<Unit> = Vec::new();

    // Statute titles, deduplicated by title number.
    let mut seen: Vec<Vec<u8>> = Vec::new();
    let mut i: usize = 0;
    proof {
        assert(crate::etl::texts_set(seen@) =~= Set::<Seq<u8>>::empty());
    }
    let n_vc: usize = cleaned.virginia_code.len();
    while i < n_vc
        invariant
            vcm == views_of(cleaned.virginia_code@),
            n_vc == vcm.len(),
            0 <= i <= n_vc,
            vc_title_units(vcm, 0, Set::empty()) == views_of(units@) + vc_title_units(
                vcm,
                i as int,
                crate::etl::texts_set(seen@),
            ),
        decreases n_vc - i,
    {
        let r = &cleaned.virginia_code[i];
        proof {
            assert(cleaned.virginia_code@[i as int]@ == vcm[i as int]);
        }
        if r.title_num.len() > 0 && !crate::etl::seen_contains(&seen, &r.title_num) {
            let ghost units0 = units@;
            let ghost seen0 = seen@;
            units.push(
                Unit {
                    source: Source::VirginiaCode,
                    key: copy_bytes(&r.title_num),
                    node_type: NodeType::Title,
                    synthetic: true,
                    do_chunk: false,
                    meta_always: false,
                    text: copy_bytes(&r.title_name),
                },
            );
            seen.push(copy_bytes(&r.title_num));
            proof {
                crate::etl::lemma_texts_set_push(seen0, seen@[seen@.len() - 1]);
                assert(views_of(units@) =~= views_of(units0) + seq![units@[units@.len() - 1]@]);
            }
        }
        i = i + 1;
    }

    // Statute chapters, deduplicated by the composite chapter key.
    let mut seen2: Vec<Vec<u8>> = Vec::new();
    let mut i2: usize = 0;
    proof {
        assert(crate::etl::texts_set(seen2@) =~= Set::<Seq<u8>>::empty());
    }
    while i2 < n_vc
        invariant
            vcm == views_of(cleaned.virginia_code@),
            n_vc == vcm.len(),
            0 <= i2 <= n_vc,
            vc_title_units(vcm, 0, Set::empty()) + vc_chapter_units(vcm, 0, Set::empty())
                == views_of(units@) + vc_chapter_units(
                vcm,
                i2 as int,
                crate::etl::texts_set(seen2@),
            ),
        decreases n_vc - i2,
    {
        let r = &cleaned.virginia_code[i2];
        proof {
            assert(cleaned.virginia_code@[i2 as int]@ == vcm[i2 as int]);
        }
        let ck = chapter_key(&r.title_num, &r.chapter_num);
        if r.chapter_num.len() > 0 && !crate::etl::seen_contains(&seen2, &ck) {
            let ghost units0 = units@;
            let ghost seen0 = seen2@;
            let ck2 = copy_bytes(&ck);
            units.push(
                Unit {
                    source: Source::VirginiaCode,
                    key: ck,
                    node_type: NodeType::Chapter,
                    synthetic: true,
                    do_chunk: false,
                    meta_always: false,
                    text: copy_bytes(&r.chapter_name),
                },
            );
            seen2.push(ck2);
            proof {
                crate::etl::lemma_texts_set_push(seen0, seen2@[seen2@.len() - 1]);
                assert(views_of(units@) =~= views_of(units0) + seq![units@[units@.len() - 1]@]);
                assert(views_of(units@) + vc_chapter_units(
                    vcm,
                    i2 + 1,
                    crate::etl::texts_set(seen2@),
                ) =~= vc_title_units(vcm, 0, Set::empty()) + vc_chapter_units(
                    vcm,
                    0,
                    Set::empty(),
                ));
            }
        }
        i2 = i2 + 1;
    }

    // Statute sections, in record order.
    let mut i3: usize = 0;
    while i3 < n_vc
        invariant
            vcm == views_of(cleaned.virginia_code@),
            n_vc == vcm.len(),
            0 <= i3 <= n_vc,
            vc_title_units(vcm, 0, Set::empty()) + vc_chapter_units(vcm, 0, Set::empty())
                + vc_section_units(vcm, 0) == views_of(units@) + vc_section_units(vcm, i3 as int),
        decreases n_vc - i3,
    {
        let r = &cleaned.virginia_code[i3];
        proof {
            assert(cleaned.virginia_code@[i3 as int]@ == vcm[i3 as int]);
        }
        if r.section.len() > 0 {
            let ghost units0 = units@;
            units.push(
                Unit {
                    source: Source::VirginiaCode,
                    key: copy_bytes(&r.section),
                    node_type: NodeType::Section,
                    synthetic: false,
                    do_chunk: true,
                    meta_always: false,
                    text: copy_bytes(&r.clean_text),
                },
            );
            proof {
                assert(views_of(units@) =~= views_of(units0) + seq![units@[units@.len() - 1]@]);
                assert(views_of(units@) + vc_section_units(vcm, i3 + 1) =~= vc_title_units(
                    vcm,
                    0,
                    Set::empty(),
                ) + vc_chapter_units(vcm, 0, Set::empty()) + vc_section_units(vcm, 0));
            }
        }
        i3 = i3 + 1;
    }
    let ghost pre3 = vc_title_units(vcm, 0, Set::empty()) + vc_chapter_units(vcm, 0, Set::empty())
        + vc_section_units(vcm, 0);

    // Constitution articles, deduplicated by article id.
    let mut seen_ids: Vec<i64> = Vec::new();
    let mut i4: usize = 0;
    proof {
        assert(ints_set(seen_ids@) =~= Set::<int>::empty());
    }
    let n_co: usize = cleaned.constitution.len();
    while i4 < n_co
        invariant
            com == views_of(cleaned.constitution@),
            n_co == com.len(),
            0 <= i4 <= n_co,
            pre3 + const_article_units(com, 0, Set::empty()) == views_of(units@)
                + const_article_units(com, i4 as int, ints_set(seen_ids@)),
        decreases n_co - i4,
    {
        let r = &cleaned.constitution[i4];
        proof {
            assert(cleaned.constitution@[i4 as int]@ == com[i4 as int]);
        }
        if !ints_contains(&seen_ids, r.article_id) {
            let ghost units0 = units@;
            let ghost seen0 = seen_ids@;
            units.push(
                Unit {
                    source: Source::Constitution,
                    key: article_key(r.article_id),
                    node_type: NodeType::Article,
                    synthetic: true,
                    do_chunk: false,
                    meta_always: false,
                    text: copy_bytes(&r.article_name),
                },
            );
            seen_ids.push(r.article_id);
            proof {
                lemma_ints_set_push(seen0, seen_ids@[seen_ids@.len() - 1]);
                assert(views_of(units@) =~= views_of(units0) + seq![units@[units@.len() - 1]@]);
                assert(views_of(units@) + const_article_units(com, i4 + 1, ints_set(seen_ids@))
                    =~= pre3 + const_article_units(com, 0, Set::empty()));
            }
        }
        i4 = i4 + 1;
    }
    let ghost pre4 = pre3 + const_article_units(com, 0, Set::empty());

    // Constitution sections, in record order.
    let mut i5: usize = 0;
    while i5 < n_co
        invariant
            com == views_of(cleaned.constitution@),
            n_co == com.len(),
            0 <= i5 <= n_co,
            pre4 + const_section_units(com, 0) == views_of(units@) + const_section_units(
                com,
                i5 as int,
            ),
        decreases n_co - i5,
    {
        let r = &cleaned.constitution[i5];
        proof {
            assert(cleaned.constitution@[i5 as int]@ == com[i5 as int]);
        }
        let ghost units0 = units@;
        units.push(
            Unit {
                source: Source::Constitution,
                key: const_section_key(r.article_id, r.section_count),
                node_type: NodeType::ConstitutionSection,
                synthetic: false,
                do_chunk: true,
                meta_always: false,
                text: copy_bytes(&r.clean_text),
            },
        );
        proof {
            assert(views_of(units@) =~= views_of(units0) + seq![units@[units@.len() - 1]@]);
            assert(views_of(units@) + const_section_units(com, i5 + 1) =~= pre4
                + const_section_units(com, 0));
        }
        i5 = i5 + 1;
    }
    let ghost pre5 = pre4 + const_section_units(com, 0);

    // Authorities, in record order.
    let mut i6: usize = 0;
    let n_au: usize = cleaned.authorities.len();
    while i6 < n_au
        invariant
            aum == views_of(cleaned.authorities@),
            n_au == aum.len(),
            0 <= i6 <= n_au,
            pre5 + auth_units(aum, 0) == views_of(units@) + auth_units(aum, i6 as int),
        decreases n_au - i6,
    {
        let r = &cleaned.authorities[i6];
        proof {
            assert(cleaned.authorities@[i6 as int]@ == aum[i6 as int]);
        }
        if r.short_name.len() > 0 {
            let ghost units0 = units@;
            units.push(
                Unit {
                    source: Source::Authorities,
                    key: copy_bytes(&r.short_name),
                    node_type: NodeType::Authority,
                    synthetic: false,
                    do_chunk: true,
                    meta_always: false,
                    text: copy_bytes(&r.clean_text),
                },
            );
            proof {
                assert(views_of(units@) =~= views_of(units0) + seq![units@[units@.len() - 1]@]);
                assert(views_of(units@) + auth_units(aum, i6 + 1) =~= pre5 + auth_units(aum, 0));
            }
        }
        i6 = i6 + 1;
    }
    let ghost pre6 = pre5 + auth_units(aum, 0);

    // Courts, in record order.
    let mut i7: usize = 0;
    let n_ct: usize = cleaned.courts.len();
    while i7 < n_ct
        invariant
            ctm == views_of(cleaned.courts@),
            n_ct == ctm.len(),
            0 <= i7 <= n_ct,
            pre6 + court_units(ctm, 0) == views_of(units@) + court_units(ctm, i7 as int),
        decreases n_ct - i7,
    {
        let r = &cleaned.courts[i7];
        proof {
            assert(cleaned.courts@[i7 as int]@ == ctm[i7 as int]);
        }
        let ghost units0 = units@;
        units.push(
            Unit {
                source: Source::Courts,
                key: format_i64(r.id),
                node_type: NodeType::Court,
                synthetic: false,
                do_chunk: false,
                meta_always: false,
                text: copy_bytes(&r.clean_text),
            },
        );
        proof {
            assert(views_of(units@) =~= views_of(units0) + seq![units@[units@.len() - 1]@]);
            assert(views_of(units@) + court_units(ctm, i7 + 1) =~= pre6 + court_units(ctm, 0));
        }
        i7 = i7 + 1;
    }
    let ghost pre7 = pre6 + court_units(ctm, 0);

    // Named acts, in record order.
    let mut i8: usize = 0;
    let n_pn: usize = cleaned.popular_names.len();
    while i8 < n_pn
        invariant
            pnm == views_of(cleaned.popular_names@),
            n_pn == pnm.len(),
            0 <= i8 <= n_pn,
            pre7 + pop_units(pnm, 0) == views_of(units@) + pop_units(pnm, i8 as int),
        decreases n_pn - i8,
    {
        let r = &cleaned.popular_names[i8];
        proof {
            assert(cleaned.popular_names@[i8 as int]@ == pnm[i8 as int]);
        }
        if r.name.len() > 0 {
            let ghost units0 = units@;
            units.push(
                Unit {
                    source: Source::PopularNames,
                    key: copy_bytes(&r.name),
                    node_type: NodeType::PopularName,
                    synthetic: false,
                    do_chunk: true,
                    meta_always: false,
                    text: copy_bytes(&r.clean_text),
                },
            );
            proof {
                assert(views_of(units@) =~= views_of(units0) + seq![units@[units@.len() - 1]@]);
                assert(views_of(units@) + pop_units(pnm, i8 + 1) =~= pre7 + pop_units(pnm, 0));
            }
        }
        i8 = i8 + 1;
    }
    let ghost pre8 = pre7 + pop_units(pnm, 0);

    // Documents, in record order.
    let mut i9: usize = 0;
    let n_dc: usize = cleaned.documents.len();
    while i9 < n_dc
        invariant
            dcm == views_of(cleaned.documents@),
            n_dc == dcm.len(),
            0 <= i9 <= n_dc,
            pre8 + doc_units(dcm, 0) == views_of(units@) + doc_units(dcm, i9 as int),
        decreases n_dc - i9,
    {
        let r = &cleaned.documents[i9];
        proof {
            assert(cleaned.documents@[i9 as int]@ == dcm[i9 as int]);
        }
        if r.filename.len() > 0 {
            let ghost units0 = units@;
            units.push(
                Unit {
                    source: Source::Documents,
                    key: copy_bytes(&r.filename),
                    node_type: NodeType::ManualChunk,
                    synthetic: false,
                    do_chunk: true,
                    meta_always: true,
                    text: copy_bytes(&r.clean_text),
                },
            );
            proof {
                assert(views_of(units@) =~= views_of(units0) + seq![units@[units@.len() - 1]@]);
                assert(views_of(units@) + doc_units(dcm, i9 + 1) =~= pre8 + doc_units(dcm, 0));
            }
        }
        i9 = i9 + 1;
    }
    proof {
        assert(views_of(units@) =~= all_units(vcm, com, aum, ctm, pnm, dcm));
    }
    units
}

/// The chunk budget applied to every leaf text.
pub const CHUNK_MAX_TOKENS: usize = 500;

/// The overlap budget applied between consecutive chunks.
pub const CHUNK_OVERLAP_TOKENS: usize = 50;

/// The state of node construction: the nodes and their texts so far (always
/// of equal length, node `i` holding identity `i + 1`), the lookup map, and
/// the chunk-offset records.
pub struct AsmState {
    pub nodes: Seq<NodeModel>,
    pub lookup: Map<(Source, Seq<u8>), Seq<int>>,
    pub texts: Seq<Seq<u8>>,
    pub meta: Seq<ChunkMetaModel>,
}

/// The empty construction state.
pub open spec fn asm_init() -> AsmState {
    AsmState {
        nodes: Seq::empty(),
        lookup: Map::empty(),
        texts: Seq::empty(),
        meta: Seq::empty(),
    }
}

/// Adds one node for chunk `j` of a unit: the next identity, the chunk's
/// text, registration under the unit's key, and an offset record when the
/// unit always keeps offsets or the text was split.
pub open spec fn asm_chunks(st: AsmState, u: UnitModel, cs: Seq<ChunkModel>, j: int) -> AsmState
    decreases cs.len() - j,
{
    if j < 0 || j >= cs.len() {
        st
    } else {
        let id = st.nodes.len() + 1;
        let st2 = AsmState {
            nodes: st.nodes.push(
                NodeModel {
                    id: id as int,
                    source: u.source,
                    source_id: u.key,
                    chunk_idx: j,
                    node_type: u.node_type,
                    synthetic: u.synthetic,
                },
            ),
            lookup: lk_add(st.lookup, (u.source, u.key), id as int),
            texts: st.texts.push(cs[j].text),
            meta: if u.meta_always || cs.len() > 1 {
                st.meta.push(
                    ChunkMetaModel { node_id: id as int, char_start: cs[j].start, char_end: cs[j].end },
                )
            } else {
                st.meta
            },
        };
        asm_chunks(st2, u, cs, j + 1)
    }
}

/// Adds the nodes of one unit: a single unchunked node, or one node per
/// chunk of its text.
pub open spec fn asm_unit(st: AsmState, u: UnitModel, max: int, over: int) -> AsmState {
    if !u.do_chunk {
        let id = st.nodes.len() + 1;
        AsmState {
            nodes: st.nodes.push(
                NodeModel {
                    id: id as int,
                    source: u.source,
                    source_id: u.key,
                    chunk_idx: 0,
                    node_type: u.node_type,
                    synthetic: u.synthetic,
                },
            ),
            lookup: lk_add(st.lookup, (u.source, u.key), id as int),
            texts: st.texts.push(u.text),
            meta: st.meta,
        }
    } else {
        asm_chunks(st, u, chunk_model(u.text, max, over), 0)
    }
}

/// Adds the nodes of `units[k..]`, one unit at a time.
pub open spec fn asm_units(
    st: AsmState,
    units: Seq<UnitModel>,
    k: int,
    max: int,
    over: int,
) -> AsmState
    decreases units.len() - k,
{
    if k < 0 || k >= units.len() {
        st
    } else {
        asm_units(asm_unit(st, units[k], max, over), units, k + 1, max, over)
    }
}

/// The final construction state over cleaned-table models.
pub open spec fn built_state_of(
    vc: Seq<CleanedSectionModel>,
    co: Seq<CleanedConstitutionModel>,
    au: Seq<CleanedAuthorityModel>,
    ct: Seq<CleanedCourtModel>,
    pn: Seq<CleanedPopularNameModel>,
    dc: Seq<CleanedDocumentModel>,
) -> AsmState {
    asm_units(
        asm_init(),
        all_units(vc, co, au, ct, pn, dc),
        0,
        CHUNK_MAX_TOKENS as int,
        CHUNK_OVERLAP_TOKENS as int,
    )
}

/// The final construction state over the cleaned tables.
pub open spec fn built_state(cleaned: CleanedData) -> AsmState {
    built_state_of(
        views_of(cleaned.virginia_code@),
        views_of(cleaned.constitution@),
        views_of(cleaned.authorities@),
        views_of(cleaned.courts@),
        views_of(cleaned.popular_names@),
        views_of(cleaned.documents@),
    )
}

/// The construction state is id-consistent: nodes and texts run in
/// parallel, and node `i` holds identity `i + 1`.
pub open spec fn ids_ok(st: AsmState) -> bool {
    &&& st.nodes.len() == st.texts.len()
    &&& forall|i: int| 0 <= i < st.nodes.len() ==> (#[trigger] st.nodes[i]).id == i + 1
}

proof fn lemma_asm_chunks_ids(st: AsmState, u: UnitModel, cs: Seq<ChunkModel>, j: int)
    requires
        ids_ok(st),
    ensures
        ids_ok(asm_chunks(st, u, cs, j)),
    decreases cs.len() - j,
{
    if j < 0 || j >= cs.len() {
    } else {
        let id = st.nodes.len() + 1;
        let st2 = AsmState {
            nodes: st.nodes.push(
                NodeModel {
                    id: id as int,
                    source: u.source,
                    source_id: u.key,
                    chunk_idx: j,
                    node_type: u.node_type,
                    synthetic: u.synthetic,
                },
            ),
            lookup: lk_add(st.lookup, (u.source, u.key), id as int),
            texts: st.texts.push(cs[j].text),
            meta: if u.meta_always || cs.len() > 1 {
                st.meta.push(
                    ChunkMetaModel { node_id: id as int, char_start: cs[j].start, char_end: cs[j].end },
                )
            } else {
                st.meta
            },
        };
        assert(ids_ok(st2));
        lemma_asm_chunks_ids(st2, u, cs, j + 1);
    }
}

proof fn lemma_asm_unit_ids(st: AsmState, u: UnitModel, max: int, over: int)
    requires
        ids_ok(st),
    ensures
        ids_ok(asm_unit(st, u, max, over)),
{
    if !u.do_chunk {
        assert(ids_ok(asm_unit(st, u, max, over)));
    } else {
        lemma_asm_chunks_ids(st, u, chunk_model(u.text, max, over), 0);
    }
}

proof fn lemma_asm_units_ids(st: AsmState, units: Seq<UnitModel>, k: int, max: int, over: int)
    requires
        ids_ok(st),
    ensures
        ids_ok(asm_units(st, units, k, max, over)),
    decreases units.len() - k,
{
    if k < 0 || k >= units.len() {
    } else {
        lemma_asm_unit_ids(st, units[k], max, over);
        lemma_asm_units_ids(asm_unit(st, units[k], max, over), units, k + 1, max, over);
    }
}

/// Node `i` of the built graph always holds identity `i + 1`, and the texts
/// run parallel to the nodes.
pub proof fn lemma_built_state_ids(cleaned: CleanedData)
    ensures
        ids_ok(built_state(cleaned)),
{
    assert(ids_ok(asm_init()));
    lemma_asm_units_ids(
        asm_init(),
        all_units(
            views_of(cleaned.virginia_code@),
            views_of(cleaned.constitution@),
            views_of(cleaned.authorities@),
            views_of(cleaned.courts@),
            views_of(cleaned.popular_names@),
            views_of(cleaned.documents@),
        ),
        0,
        CHUNK_MAX_TOKENS as int,
        CHUNK_OVERLAP_TOKENS as int,
    );
}

/// The result of building nodes: the node list, the lookup table, the
/// cleaned text of each node (parallel to the node list), and the chunk
/// offset records.
pub struct NodeBuildResult {
    pub nodes: Vec<Node>,
    pub lookup: Lookup,
    pub texts: Vec<Vec<u8>>,
    pub chunk_meta: Vec<ChunkMeta>,
}

/// Builds every node of the graph from the cleaned tables: synthetic
/// ancestors first (deduplicated by key), then one node per chunk of each
/// leaf record, identities assigned from 1 in construction order, every node
/// registered in the lookup table under its structural key. Construction
/// never fails; records without a key were already dropped.
pub fn build_nodes(cleaned: &CleanedData) -> (out: NodeBuildResult)
    ensures
        views_of(out.nodes@) == built_state(*cleaned).nodes,
        out.lookup@ == built_state(*cleaned).lookup,
        out.lookup.wf(),
        views_of(out.texts@) == built_state(*cleaned).texts,
        views_of(out.chunk_meta@) == built_state(*cleaned).meta,
        out.nodes@.len() == out.texts@.len(),
{
    let units = build_units(cleaned);
    let ghost um = views_of(units@);
    let ghost maxg = CHUNK_MAX_TOKENS as int;
    let ghost overg = CHUNK_OVERLAP_TOKENS as int;
    let ghost fin = asm_units(asm_init(), um, 0, maxg, overg);
    let mut nodes: Vec<Node> = Vec::new();
    let mut lookup = Lookup::new();
    let mut texts: Vec<Vec<u8>> = Vec::new();
    let mut chunk_meta: Vec<ChunkMeta> = Vec::new();
    let mut k: usize = 0;
    proof {
        assert(views_of(nodes@) =~= Seq::<NodeModel>::empty());
        assert(views_of(texts@) =~= Seq::<Seq<u8>>::empty());
        assert(views_of(chunk_meta@) =~= Seq::<ChunkMetaModel>::empty());
        assert(AsmState {
            nodes: views_of(nodes@),
            lookup: lookup@,
            texts: views_of(texts@),
            meta: views_of(chunk_meta@),
        } == asm_init());
    }
    while k < units.len()
        invariant
            um == views_of(units@),
            fin == asm_units(asm_init(), um, 0, maxg, overg),
            maxg == CHUNK_MAX_TOKENS as int,
            overg == CHUNK_OVERLAP_TOKENS as int,
            0 <= k <= units@.len(),
            lookup.wf(),
            nodes@.len() == texts@.len(),
            asm_units(
                AsmState {
                    nodes: views_of(nodes@),
                    lookup: lookup@,
                    texts: views_of(texts@),
                    meta: views_of(chunk_meta@),
                },
                um,
                k as int,
                maxg,
                overg,
            ) == fin,
        decreases units@.len() - k,
    {
        let u = &units[k];
        let ghost st0 = AsmState {
            nodes: views_of(nodes@),
            lookup: lookup@,
            texts: views_of(texts@),
            meta: views_of(chunk_meta@),
        };
        proof {
            assert(units@[k as int]@ == um[k as int]);
        }
        if !u.do_chunk {
            texts.push(copy_bytes(&u.text));
            let id: usize = texts.len();
            nodes.push(
                Node {
                    id,
                    source: u.source,
                    source_id: copy_bytes(&u.key),
                    chunk_idx: 0,
                    node_type: u.node_type,
                    synthetic: u.synthetic,
                },
            );
            lookup.add(u.source, &u.key, id);
            proof {
                let st1 = AsmState {
                    nodes: views_of(nodes@),
                    lookup: lookup@,
                    texts: views_of(texts@),
                    meta: views_of(chunk_meta@),
                };
                let u_m = um[k as int];
                let idg = st0.nodes.len() + 1;
                assert(st1.nodes =~= st0.nodes.push(
                    NodeModel {
                        id: idg as int,
                        source: u_m.source,
                        source_id: u_m.key,
                        chunk_idx: 0,
                        node_type: u_m.node_type,
                        synthetic: u_m.synthetic,
                    },
                ));
                assert(st1.texts =~= st0.texts.push(u_m.text));
                assert(st1.lookup == lk_add(st0.lookup, (u_m.source, u_m.key), idg as int));
                assert(st1 == asm_unit(st0, u_m, maxg, overg));
            }
        } else {
            proof {
                assert(CHUNK_OVERLAP_TOKENS < CHUNK_MAX_TOKENS);
                assert(CHUNK_MAX_TOKENS <= usize::MAX / 3);
            }
            let cs = chunk_text(&u.text, CHUNK_MAX_TOKENS, CHUNK_OVERLAP_TOKENS);
            let ghost csm = chunk_model(um[k as int].text, maxg, overg);
            proof {
                assert(crate::chunker::chunk_views(cs@) == csm);
            }
            let n_cs: usize = cs.len();
            let meta_flag: bool = u.meta_always || n_cs > 1;
            let mut j: usize = 0;
            while j < n_cs
                invariant
                    um == views_of(units@),
                    0 <= k < units@.len(),
                    units@[k as int]@ == um[k as int],
                    csm == chunk_model(um[k as int].text, maxg, overg),
                    crate::chunker::chunk_views(cs@) == csm,
                    n_cs == cs@.len(),
                    0 <= j <= n_cs,
                    meta_flag == (um[k as int].meta_always || csm.len() > 1),
                    lookup.wf(),
                    nodes@.len() == texts@.len(),
                    asm_chunks(
                        AsmState {
                            nodes: views_of(nodes@),
                            lookup: lookup@,
                            texts: views_of(texts@),
                            meta: views_of(chunk_meta@),
                        },
                        um[k as int],
                        csm,
                        j as int,
                    ) == asm_chunks(st0, um[k as int], csm, 0),
                decreases n_cs - j,
            {
                let ghost stj = AsmState {
                    nodes: views_of(nodes@),
                    lookup: lookup@,
                    texts: views_of(texts@),
                    meta: views_of(chunk_meta@),
                };
                let u2 = &units[k];
                texts.push(copy_bytes(&cs[j].text));
                let id: usize = texts.len();
                nodes.push(
                    Node {
                        id,
                        source: u2.source,
                        source_id: copy_bytes(&u2.key),
                        chunk_idx: j,
                        node_type: u2.node_type,
                        synthetic: u2.synthetic,
                    },
                );
                lookup.add(u2.source, &u2.key, id);
                if meta_flag {
                    chunk_meta.push(
                        ChunkMeta {
                            node_id: id,
                            char_start: cs[j].char_start,
                            char_end: cs[j].char_end,
                        },
                    );
                }
                proof {
                    let stj2 = AsmState {
                        nodes: views_of(nodes@),
                        lookup: lookup@,
                        texts: views_of(texts@),
                        meta: views_of(chunk_meta@),
                    };
                    let u_m = um[k as int];
                    let idg = stj.nodes.len() + 1;
                    assert(cs@[j as int]@ == crate::chunker::chunk_views(cs@)[j as int]);
                    assert(stj2.nodes =~= stj.nodes.push(
                        NodeModel {
                            id: idg as int,
                            source: u_m.source,
                            source_id: u_m.key,
                            chunk_idx: j as int,
                            node_type: u_m.node_type,
                            synthetic: u_m.synthetic,
                        },
                    ));
                    assert(stj2.texts =~= stj.texts.push(csm[j as int].text));
                    assert(stj2.lookup == lk_add(stj.lookup, (u_m.source, u_m.key), idg as int));
                    if meta_flag {
                        assert(stj2.meta =~= stj.meta.push(
                            ChunkMetaModel {
                                node_id: idg as int,
                                char_start: csm[j as int].start,
                                char_end: csm[j as int].end,
                            },
                        ));
                    } else {
                        assert(stj2.meta =~= stj.meta);
                    }
                    assert(asm_chunks(stj, u_m, csm, j as int) == asm_chunks(
                        stj2,
                        u_m,
                        csm,
                        j + 1,
                    ));
                }
                j = j + 1;
            }
            proof {
                assert(asm_chunks(
                    AsmState {
                        nodes: views_of(nodes@),
                        lookup: lookup@,
                        texts: views_of(texts@),
                        meta: views_of(chunk_meta@),
                    },
                    um[k as int],
                    csm,
                    n_cs as int,
                ) == asm_chunks(st0, um[k as int], csm, 0));
                assert(asm_unit(st0, um[k as int], maxg, overg) == asm_chunks(
                    st0,
                    um[k as int],
                    csm,
                    0,
                ));
            }
        }
        k = k + 1;
    }
    let out = NodeBuildResult { nodes, lookup, texts, chunk_meta };
    proof {
        assert(views_of(out.nodes@) == fin.nodes);
    }
    out
}

/// The key a unit registers its nodes under.
pub open spec fn unit_key(u: UnitModel) -> (Source, Seq<u8>) {
    (u.source, u.key)
}

/// No two units register under one key.
pub open spec fn unit_keys_distinct(us: Seq<UnitModel>) -> bool {
    forall|a: int, b: int|
        0 <= a < b < us.len() ==> unit_key(#[trigger] us[a]) != unit_key(#[trigger] us[b])
}

/// Entry `j` of a key's list names a node whose chunk index is exactly `j`
/// and whose key is that key.
pub open spec fn entry_ok(st: AsmState, k: (Source, Seq<u8>), j: int) -> bool {
    &&& 1 <= st.lookup[k][j] <= st.nodes.len()
    &&& st.nodes[st.lookup[k][j] - 1].chunk_idx == j
    &&& st.nodes[st.lookup[k][j] - 1].source == k.0
    &&& st.nodes[st.lookup[k][j] - 1].source_id == k.1
}

/// Chunk indices run 0, 1, 2, ... down each key's list, and every node is
/// registered under its own key at its chunk index.
pub open spec fn chunk_idx_ok(st: AsmState) -> bool {
    &&& forall|k: (Source, Seq<u8>), j: int|
        st.lookup.dom().contains(k) && 0 <= j < st.lookup[k].len() ==> #[trigger] entry_ok(
            st,
            k,
            j,
        )
    &&& forall|i: int|
        0 <= i < st.nodes.len() ==> {
            let nk = ((#[trigger] st.nodes[i]).source, st.nodes[i].source_id);
            st.lookup.dom().contains(nk) && 0 <= st.nodes[i].chunk_idx < st.lookup[nk].len()
                && st.lookup[nk][st.nodes[i].chunk_idx] == i + 1
        }
}

proof fn lemma_asm_chunks_chunk_idx(st: AsmState, u: UnitModel, cs: Seq<ChunkModel>, j: int)
    requires
        ids_ok(st),
        chunk_idx_ok(st),
        j >= 0,
        j > 0 ==> st.lookup.dom().contains(unit_key(u)) && st.lookup[unit_key(u)].len() == j,
        j == 0 ==> !st.lookup.dom().contains(unit_key(u)),
    ensures
        chunk_idx_ok(asm_chunks(st, u, cs, j)),
        forall|k: (Source, Seq<u8>)|
            k != unit_key(u) ==> (#[trigger] asm_chunks(st, u, cs, j).lookup.dom().contains(k)
                == st.lookup.dom().contains(k) && (st.lookup.dom().contains(k) ==> asm_chunks(
                st,
                u,
                cs,
                j,
            ).lookup[k] == st.lookup[k])),
    decreases cs.len() - j,
{
    if j >= cs.len() {
    } else {
        let ku = unit_key(u);
        let id = st.nodes.len() + 1;
        let nd = NodeModel {
            id: id as int,
            source: u.source,
            source_id: u.key,
            chunk_idx: j,
            node_type: u.node_type,
            synthetic: u.synthetic,
        };
        let st2 = AsmState {
            nodes: st.nodes.push(nd),
            lookup: lk_add(st.lookup, ku, id as int),
            texts: st.texts.push(cs[j].text),
            meta: if u.meta_always || cs.len() > 1 {
                st.meta.push(
                    ChunkMetaModel { node_id: id as int, char_start: cs[j].start, char_end: cs[j].end },
                )
            } else {
                st.meta
            },
        };
        assert(st2.lookup[ku].len() == j + 1) by {
            if j > 0 {
                assert(st2.lookup[ku] == st.lookup[ku] + seq![id as int]);
            } else {
                assert(st2.lookup[ku] == seq![id as int]);
            }
        }
        assert forall|k: (Source, Seq<u8>), jj: int|
            st2.lookup.dom().contains(k) && 0 <= jj < st2.lookup[k].len() implies #[trigger] entry_ok(
            st2,
            k,
            jj,
        ) by {
            if k == ku {
                if jj < j {
                    assert(st.lookup[ku][jj] == st2.lookup[ku][jj]);
                    assert(entry_ok(st, ku, jj));
                    assert(st2.nodes[st2.lookup[k][jj] - 1] == st.nodes[st.lookup[ku][jj] - 1]);
                } else {
                    assert(st2.lookup[ku][jj] == id as int);
                    assert(st2.nodes[id - 1] == nd);
                }
            } else {
                assert(st2.lookup[k] == st.lookup[k]);
                assert(entry_ok(st, k, jj));
                assert(st2.nodes[st.lookup[k][jj] - 1] == st.nodes[st.lookup[k][jj] - 1]);
            }
        }
        assert forall|i: int| 0 <= i < st2.nodes.len() implies {
            let nk = ((#[trigger] st2.nodes[i]).source, st2.nodes[i].source_id);
            st2.lookup.dom().contains(nk) && 0 <= st2.nodes[i].chunk_idx < st2.lookup[nk].len()
                && st2.lookup[nk][st2.nodes[i].chunk_idx] == i + 1
        } by {
            if i < st.nodes.len() {
                assert(st2.nodes[i] == st.nodes[i]);
                let nk = (st.nodes[i].source, st.nodes[i].source_id);
                if nk == ku {
                    assert(st2.lookup[ku][st.nodes[i].chunk_idx] == st.lookup[ku][st.nodes[i].chunk_idx]);
                } else {
                    assert(st2.lookup[nk] == st.lookup[nk]);
                }
            } else {
                assert(st2.nodes[i] == nd);
                assert(st2.lookup[ku][j] == id as int);
            }
        }
        assert(ids_ok(st2));
        lemma_asm_chunks_chunk_idx(st2, u, cs, j + 1);
        assert(asm_chunks(st, u, cs, j) == asm_chunks(st2, u, cs, j + 1));
    }
}

proof fn lemma_asm_unit_chunk_idx(st: AsmState, u: UnitModel, max: int, over: int)
    requires
        ids_ok(st),
        chunk_idx_ok(st),
        !st.lookup.dom().contains(unit_key(u)),
    ensures
        chunk_idx_ok(asm_unit(st, u, max, over)),
        forall|k: (Source, Seq<u8>)|
            k != unit_key(u) ==> (#[trigger] asm_unit(st, u, max, over).lookup.dom().contains(k)
                == st.lookup.dom().contains(k) && (st.lookup.dom().contains(k) ==> asm_unit(
                st,
                u,
                max,
                over,
            ).lookup[k] == st.lookup[k])),
{
    let ku = unit_key(u);
    if !u.do_chunk {
        let id = st.nodes.len() + 1;
        let nd = NodeModel {
            id: id as int,
            source: u.source,
            source_id: u.key,
            chunk_idx: 0,
            node_type: u.node_type,
            synthetic: u.synthetic,
        };
        let st2 = asm_unit(st, u, max, over);
        assert(st2.lookup[ku] == seq![id as int]);
        assert forall|k: (Source, Seq<u8>), jj: int|
            st2.lookup.dom().contains(k) && 0 <= jj < st2.lookup[k].len() implies #[trigger] entry_ok(
            st2,
            k,
            jj,
        ) by {
            if k == ku {
                assert(st2.lookup[ku][jj] == id as int);
                assert(st2.nodes[id - 1] == nd);
            } else {
                assert(st2.lookup[k] == st.lookup[k]);
                assert(entry_ok(st, k, jj));
                assert(st2.nodes[st.lookup[k][jj] - 1] == st.nodes[st.lookup[k][jj] - 1]);
            }
        }
        assert forall|i: int| 0 <= i < st2.nodes.len() implies {
            let nk = ((#[trigger] st2.nodes[i]).source, st2.nodes[i].source_id);
            st2.lookup.dom().contains(nk) && 0 <= st2.nodes[i].chunk_idx < st2.lookup[nk].len()
                && st2.lookup[nk][st2.nodes[i].chunk_idx] == i + 1
        } by {
            if i < st.nodes.len() {
                assert(st2.nodes[i] == st.nodes[i]);
                let nk = (st.nodes[i].source, st.nodes[i].source_id);
                assert(nk != ku);
                assert(st2.lookup[nk] == st.lookup[nk]);
            } else {
                assert(st2.nodes[i] == nd);
            }
        }
        assert forall|k: (Source, Seq<u8>)| k != ku implies (#[trigger] st2.lookup.dom().contains(
            k,
        ) == st.lookup.dom().contains(k) && (st.lookup.dom().contains(k) ==> st2.lookup[k]
            == st.lookup[k])) by {
            assert(st2.lookup == st.lookup.insert(ku, seq![id as int]));
        }
    } else {
        lemma_asm_chunks_chunk_idx(st, u, chunk_model(u.text, max, over), 0);
    }
}

proof fn lemma_asm_units_chunk_idx(
    st: AsmState,
    units: Seq<UnitModel>,
    k: int,
    max: int,
    over: int,
)
    requires
        ids_ok(st),
        chunk_idx_ok(st),
        unit_keys_distinct(units),
        forall|kk: int|
            k <= kk < units.len() ==> !st.lookup.dom().contains(unit_key(#[trigger] units[kk])),
    ensures
        chunk_idx_ok(asm_units(st, units, k, max, over)),
    decreases units.len() - k,
{
    if k < 0 || k >= units.len() {
    } else {
        lemma_asm_unit_ids(st, units[k], max, over);
        lemma_asm_unit_chunk_idx(st, units[k], max, over);
        let st2 = asm_unit(st, units[k], max, over);
        assert forall|kk: int|
            k + 1 <= kk < units.len() implies !st2.lookup.dom().contains(
            unit_key(#[trigger] units[kk]),
        ) by {
            assert(unit_key(units[kk]) != unit_key(units[k]));
        }
        lemma_asm_units_chunk_idx(st2, units, k + 1, max, over);
    }
}

/// The chunk-order law: when no two units of node construction share a
/// structural key, the nodes under each key of the lookup table carry chunk
/// indices 0, 1, 2, ... in list order, every node is registered under its
/// own key at its chunk index, and `(source, source_id, chunk_idx)` is
/// unique across all nodes.
pub proof fn lemma_chunk_order(cleaned: CleanedData)
    requires
        unit_keys_distinct(
            all_units(
                views_of(cleaned.virginia_code@),
                views_of(cleaned.constitution@),
                views_of(cleaned.authorities@),
                views_of(cleaned.courts@),
                views_of(cleaned.popular_names@),
                views_of(cleaned.documents@),
            ),
        ),
    ensures
        chunk_idx_ok(built_state(cleaned)),
        forall|a: int, b: int|
            0 <= a < built_state(cleaned).nodes.len() && 0 <= b < built_state(
                cleaned,
            ).nodes.len() && a != b ==> !((#[trigger] built_state(cleaned).nodes[a]).source == (
            #[trigger] built_state(cleaned).nodes[b]).source && built_state(
                cleaned,
            ).nodes[a].source_id == built_state(cleaned).nodes[b].source_id && built_state(
                cleaned,
            ).nodes[a].chunk_idx == built_state(cleaned).nodes[b].chunk_idx),
{
    assert(ids_ok(asm_init()));
    assert(chunk_idx_ok(asm_init()));
    lemma_asm_units_chunk_idx(
        asm_init(),
        all_units(
            views_of(cleaned.virginia_code@),
            views_of(cleaned.constitution@),
            views_of(cleaned.authorities@),
            views_of(cleaned.courts@),
            views_of(cleaned.popular_names@),
            views_of(cleaned.documents@),
        ),
        0,
        CHUNK_MAX_TOKENS as int,
        CHUNK_OVERLAP_TOKENS as int,
    );
    let fin = built_state(cleaned);
    assert forall|a: int, b: int|
        0 <= a < fin.nodes.len() && 0 <= b < fin.nodes.len() && a != b implies !((
    #[trigger] fin.nodes[a]).source == (#[trigger] fin.nodes[b]).source
        && fin.nodes[a].source_id == fin.nodes[b].source_id && fin.nodes[a].chunk_idx
        == fin.nodes[b].chunk_idx) by {
        if fin.nodes[a].source == fin.nodes[b].source && fin.nodes[a].source_id
            == fin.nodes[b].source_id && fin.nodes[a].chunk_idx == fin.nodes[b].chunk_idx {
            let nk = (fin.nodes[a].source, fin.nodes[a].source_id);
            assert(fin.lookup[nk][fin.nodes[a].chunk_idx] == a + 1);
            assert(fin.lookup[nk][fin.nodes[b].chunk_idx] == b + 1);
            assert(false);
        }
    }
}

/// Every chunk-offset record spans a well-formed byte range.
pub open spec fn meta_ok(st: AsmState) -> bool {
    forall|i: int|
        0 <= i < st.meta.len() ==> 0 <= (#[trigger] st.meta[i]).char_start <= st.meta[i].char_end
}

proof fn lemma_asm_chunks_meta(st: AsmState, u: UnitModel, cs: Seq<ChunkModel>, j: int)
    requires
        meta_ok(st),
        forall|jj: int|
            0 <= jj < cs.len() ==> 0 <= (#[trigger] cs[jj]).start <= cs[jj].end,
    ensures
        meta_ok(asm_chunks(st, u, cs, j)),
    decreases cs.len() - j,
{
    if j < 0 || j >= cs.len() {
    } else {
        let id = st.nodes.len() + 1;
        let st2 = AsmState {
            nodes: st.nodes.push(
                NodeModel {
                    id: id as int,
                    source: u.source,
                    source_id: u.key,
                    chunk_idx: j,
                    node_type: u.node_type,
                    synthetic: u.synthetic,
                },
            ),
            lookup: lk_add(st.lookup, (u.source, u.key), id as int),
            texts: st.texts.push(cs[j].text),
            meta: if u.meta_always || cs.len() > 1 {
                st.meta.push(
                    ChunkMetaModel { node_id: id as int, char_start: cs[j].start, char_end: cs[j].end },
                )
            } else {
                st.meta
            },
        };
        assert forall|i: int|
            0 <= i < st2.meta.len() implies 0 <= (#[trigger] st2.meta[i]).char_start
            <= st2.meta[i].char_end by {
            if u.meta_always || cs.len() > 1 {
                if i < st.meta.len() {
                    assert(st2.meta[i] == st.meta[i]);
                }
            } else {
                assert(st2.meta[i] == st.meta[i]);
            }
        }
        lemma_asm_chunks_meta(st2, u, cs, j + 1);
    }
}

proof fn lemma_asm_units_meta(st: AsmState, units: Seq<UnitModel>, k: int, max: int, over: int)
    requires
        meta_ok(st),
        0 <= over < max,
    ensures
        meta_ok(asm_units(st, units, k, max, over)),
    decreases units.len() - k,
{
    if k < 0 || k >= units.len() {
    } else {
        let u = units[k];
        if u.do_chunk {
            crate::chunker::lemma_chunk_model_bounds(u.text, max, over);
            lemma_asm_chunks_meta(st, u, chunk_model(u.text, max, over), 0);
        }
        lemma_asm_units_meta(asm_unit(st, u, max, over), units, k + 1, max, over);
    }
}

/// The offset-validity law: every chunk-offset record of the built graph
/// spans a well-formed byte range of its source text.
pub proof fn lemma_meta_spans(cleaned: CleanedData)
    ensures
        meta_ok(built_state(cleaned)),
{
    assert(meta_ok(asm_init()));
    lemma_asm_units_meta(
        asm_init(),
        all_units(
            views_of(cleaned.virginia_code@),
            views_of(cleaned.constitution@),
            views_of(cleaned.authorities@),
            views_of(cleaned.courts@),
            views_of(cleaned.popular_names@),
            views_of(cleaned.documents@),
        ),
        0,
        CHUNK_MAX_TOKENS as int,
        CHUNK_OVERLAP_TOKENS as int,
    );
}

} // verus!

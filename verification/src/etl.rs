//! Cleans the raw rows of each source table into addressable records with a
//! single normalized text per record: markup stripped, fields joined with
//! fixed separators, records without a structural key or without enough text
//! dropped, and statute rows deduplicated by their cleaned text (first
//! occurrence wins).

use vstd::prelude::*;

use crate::html::{strip_html, strip_model};
use crate::rows::{
    AuthorityRow, ConstitutionRow, CourtRow, DocumentRow, PopularNameRow, VirginiaCodeRow,
};
use crate::text::{append_bytes, bytes_eq, copy_bytes};

verus! {

/// The separator written between name fields: space, vertical bar, space.
pub open spec fn sep_bar() -> Seq<u8> {
    seq![32u8, 124u8, 32u8]
}

/// Appends " | " to a buffer.
fn append_sep_bar(dst: &mut Vec<u8>)
    ensures
        final(dst)@ == old(dst)@ + sep_bar(),
{
    dst.push(32u8);
    dst.push(124u8);
    dst.push(32u8);
    proof {
        assert(dst@ =~= old(dst)@ + sep_bar());
    }
}

/// Appends a single space to a buffer.
fn append_space(dst: &mut Vec<u8>)
    ensures
        final(dst)@ == old(dst)@ + seq![32u8],
{
    dst.push(32u8);
    proof {
        assert(dst@ =~= old(dst)@ + seq![32u8]);
    }
}

/// A cleaned statute section record.
pub struct CleanedSection {
    pub id: i64,
    pub section: Vec<u8>,
    pub title_num: Vec<u8>,
    pub chapter_num: Vec<u8>,
    pub title_name: Vec<u8>,
    pub chapter_name: Vec<u8>,
    pub clean_text: Vec<u8>,
}

/// The mathematical image of a cleaned statute section record.
pub struct CleanedSectionModel {
    pub id: int,
    pub section: Seq<u8>,
    pub title_num: Seq<u8>,
    pub chapter_num: Seq<u8>,
    pub title_name: Seq<u8>,
    pub chapter_name: Seq<u8>,
    pub clean_text: Seq<u8>,
}

impl View for CleanedSection {
    type V = CleanedSectionModel;

    open spec fn view(&self) -> CleanedSectionModel {
        CleanedSectionModel {
            id: self.id as int,
            section: self.section@,
            title_num: self.title_num@,
            chapter_num: self.chapter_num@,
            title_name: self.title_name@,
            chapter_name: self.chapter_name@,
            clean_text: self.clean_text@,
        }
    }
}

/// A cleaned constitutional section record.
pub struct CleanedConstitution {
    pub id: i64,
    pub article_id: i64,
    pub article_name: Vec<u8>,
    pub section_count: i64,
    pub clean_text: Vec<u8>,
}

/// The mathematical image of a cleaned constitutional section record.
pub struct CleanedConstitutionModel {
    pub id: int,
    pub article_id: int,
    pub article_name: Seq<u8>,
    pub section_count: int,
    pub clean_text: Seq<u8>,
}

impl View for CleanedConstitution {
    type V = CleanedConstitutionModel;

    open spec fn view(&self) -> CleanedConstitutionModel {
        CleanedConstitutionModel {
            id: self.id as int,
            article_id: self.article_id as int,
            article_name: self.article_name@,
            section_count: self.section_count as int,
            clean_text: self.clean_text@,
        }
    }
}

/// A cleaned authority record.
pub struct CleanedAuthority {
    pub id: i64,
    pub short_name: Vec<u8>,
    pub clean_text: Vec<u8>,
}

/// The mathematical image of a cleaned authority record.
pub struct CleanedAuthorityModel {
    pub id: int,
    pub short_name: Seq<u8>,
    pub clean_text: Seq<u8>,
}

impl View for CleanedAuthority {
    type V = CleanedAuthorityModel;

    open spec fn view(&self) -> CleanedAuthorityModel {
        CleanedAuthorityModel {
            id: self.id as int,
            short_name: self.short_name@,
            clean_text: self.clean_text@,
        }
    }
}

/// A cleaned court record.
pub struct CleanedCourt {
    pub id: i64,
    pub clean_text: Vec<u8>,
}

/// The mathematical image of a cleaned court record.
pub struct CleanedCourtModel {
    pub id: int,
    pub clean_text: Seq<u8>,
}

impl View for CleanedCourt {
    type V = CleanedCourtModel;

    open spec fn view(&self) -> CleanedCourtModel {
        CleanedCourtModel { id: self.id as int, clean_text: self.clean_text@ }
    }
}

/// A cleaned named-act record.
pub struct CleanedPopularName {
    pub id: i64,
    pub name: Vec<u8>,
    pub clean_text: Vec<u8>,
}

/// The mathematical image of a cleaned named-act record.
pub struct CleanedPopularNameModel {
    pub id: int,
    pub name: Seq<u8>,
    pub clean_text: Seq<u8>,
}

impl View for CleanedPopularName {
    type V = CleanedPopularNameModel;

    open spec fn view(&self) -> CleanedPopularNameModel {
        CleanedPopularNameModel {
            id: self.id as int,
            name: self.name@,
            clean_text: self.clean_text@,
        }
    }
}

/// A cleaned free-form document record.
pub struct CleanedDocument {
    pub id: i64,
    pub filename: Vec<u8>,
    pub clean_text: Vec<u8>,
}

/// The mathematical image of a cleaned free-form document record.
pub struct CleanedDocumentModel {
    pub id: int,
    pub filename: Seq<u8>,
    pub clean_text: Seq<u8>,
}

impl View for CleanedDocument {
    type V = CleanedDocumentModel;

    open spec fn view(&self) -> CleanedDocumentModel {
        CleanedDocumentModel {
            id: self.id as int,
            filename: self.filename@,
            clean_text: self.clean_text@,
        }
    }
}

/// The views of a cleaned vector.
pub open spec fn views_of<T: View>(v: Seq<T>) -> Seq<<T as View>::V> {
    v.map_values(|x: T| x@)
}

/// The cleaned text of a statute row: title name, chapter name, stripped
/// title and stripped body, with bar separators between the names.
pub open spec fn vc_clean_text(r: VirginiaCodeRow) -> Seq<u8> {
    r.title_name@ + sep_bar() + r.chapter_name@ + sep_bar() + strip_model(r.title@) + seq![32u8]
        + strip_model(r.body@)
}

/// The cleaned statute records of `rows[i..]`: rows with a section number and
/// more than 20 bytes of cleaned text, the first row of each distinct cleaned
/// text kept, in input order. `seen` holds the cleaned texts already kept.
pub open spec fn vc_model(rows: Seq<VirginiaCodeRow>, i: int, seen: Set<Seq<u8>>) -> Seq<
    CleanedSectionModel,
>
    decreases rows.len() - i,
{
    if i < 0 || i >= rows.len() {
        Seq::empty()
    } else {
        let r = rows[i];
        let ct = vc_clean_text(r);
        if r.section@.len() > 0 && ct.len() > 20 && !seen.contains(ct) {
            seq![
                CleanedSectionModel {
                    id: r.id as int,
                    section: r.section@,
                    title_num: r.title_num@,
                    chapter_num: r.chapter_num@,
                    title_name: r.title_name@,
                    chapter_name: r.chapter_name@,
                    clean_text: ct,
                },
            ] + vc_model(rows, i + 1, seen.insert(ct))
        } else {
            vc_model(rows, i + 1, seen)
        }
    }
}

/// The cleaned text of a constitutional row.
pub open spec fn const_clean_text(r: ConstitutionRow) -> Seq<u8> {
    r.article_name@ + sep_bar() + strip_model(r.section_name@) + seq![32u8] + strip_model(
        r.section_title@,
    ) + seq![32u8] + strip_model(r.section_text@)
}

/// The cleaned constitutional records of `rows[i..]`: rows whose stripped
/// section text is nonempty, in input order.
pub open spec fn const_model(rows: Seq<ConstitutionRow>, i: int) -> Seq<CleanedConstitutionModel>
    decreases rows.len() - i,
{
    if i < 0 || i >= rows.len() {
        Seq::empty()
    } else {
        let r = rows[i];
        if strip_model(r.section_text@).len() > 0 {
            seq![
                CleanedConstitutionModel {
                    id: r.id as int,
                    article_id: r.article_id as int,
                    article_name: r.article_name@,
                    section_count: r.section_count as int,
                    clean_text: const_clean_text(r),
                },
            ] + const_model(rows, i + 1)
        } else {
            const_model(rows, i + 1)
        }
    }
}

/// The cleaned text of an authority row.
pub open spec fn auth_clean_text(r: AuthorityRow) -> Seq<u8> {
    strip_model(r.title@) + seq![32u8] + strip_model(r.body@)
}

/// The cleaned authority records of `rows[i..]`: rows with a short name and
/// more than 10 bytes of cleaned text, in input order.
pub open spec fn auth_model(rows: Seq<AuthorityRow>, i: int) -> Seq<CleanedAuthorityModel>
    decreases rows.len() - i,
{
    if i < 0 || i >= rows.len() {
        Seq::empty()
    } else {
        let r = rows[i];
        let ct = auth_clean_text(r);
        if r.short_name@.len() > 0 && ct.len() > 10 {
            seq![
                CleanedAuthorityModel {
                    id: r.id as int,
                    short_name: r.short_name@,
                    clean_text: ct,
                },
            ] + auth_model(rows, i + 1)
        } else {
            auth_model(rows, i + 1)
        }
    }
}

/// The cleaned text of a court row: its name fields joined with spaces, with
/// no markup stripping.
pub open spec fn court_clean_text(r: CourtRow) -> Seq<u8> {
    r.name@ + seq![32u8] + r.locality@ + seq![32u8] + r.court_type@ + seq![32u8] + r.district@
        + seq![32u8] + r.city@
}

/// The cleaned court records of `rows[i..]`: every row is kept.
pub open spec fn court_model(rows: Seq<CourtRow>, i: int) -> Seq<CleanedCourtModel>
    decreases rows.len() - i,
{
    if i < 0 || i >= rows.len() {
        Seq::empty()
    } else {
        let r = rows[i];
        seq![CleanedCourtModel { id: r.id as int, clean_text: court_clean_text(r) }] + court_model(
            rows,
            i + 1,
        )
    }
}

/// The cleaned text of a named-act row.
pub open spec fn pop_clean_text(r: PopularNameRow) -> Seq<u8> {
    r.name@ + seq![32u8] + strip_model(r.body@)
}

/// The cleaned named-act records of `rows[i..]`: rows with a name and more
/// than 10 bytes of cleaned text, in input order.
pub open spec fn pop_model(rows: Seq<PopularNameRow>, i: int) -> Seq<CleanedPopularNameModel>
    decreases rows.len() - i,
{
    if i < 0 || i >= rows.len() {
        Seq::empty()
    } else {
        let r = rows[i];
        let ct = pop_clean_text(r);
        if r.name@.len() > 0 && ct.len() > 10 {
            seq![CleanedPopularNameModel { id: r.id as int, name: r.name@, clean_text: ct }]
                + pop_model(rows, i + 1)
        } else {
            pop_model(rows, i + 1)
        }
    }
}

/// The cleaned text of a document row.
pub open spec fn doc_clean_text(r: DocumentRow) -> Seq<u8> {
    strip_model(r.title@) + seq![32u8] + strip_model(r.content@)
}

/// The cleaned document records of `rows[i..]`: rows with a filename, in
/// input order.
pub open spec fn doc_model(rows: Seq<DocumentRow>, i: int) -> Seq<CleanedDocumentModel>
    decreases rows.len() - i,
{
    if i < 0 || i >= rows.len() {
        Seq::empty()
    } else {
        let r = rows[i];
        if r.filename@.len() > 0 {
            seq![
                CleanedDocumentModel {
                    id: r.id as int,
                    filename: r.filename@,
                    clean_text: doc_clean_text(r),
                },
            ] + doc_model(rows, i + 1)
        } else {
            doc_model(rows, i + 1)
        }
    }
}

/// The set of texts held by a vector of byte strings.
pub open spec fn texts_set(v: Seq<Vec<u8>>) -> Set<Seq<u8>> {
    Set::new(|t: Seq<u8>| exists|j: int| 0 <= j < v.len() && v[j]@ == t)
}

pub(crate) proof fn lemma_texts_set_push(v: Seq<Vec<u8>>, x: Vec<u8>)
    ensures
        texts_set(v.push(x)) =~= texts_set(v).insert(x@),
{
    assert forall|t: Seq<u8>|
        texts_set(v.push(x)).contains(t) == texts_set(v).insert(x@).contains(t) by {
        if texts_set(v.push(x)).contains(t) {
            let j = choose|j: int| 0 <= j < v.push(x).len() && v.push(x)[j]@ == t;
            if j < v.len() {
                assert(v[j]@ == t);
                assert(texts_set(v).contains(t));
            } else {
                assert(t == x@);
            }
        }
        if texts_set(v).insert(x@).contains(t) {
            if t == x@ {
                assert(v.push(x)[v.len() as int]@ == t);
                assert(texts_set(v.push(x)).contains(t));
            } else {
                assert(texts_set(v).contains(t));
                let j = choose|j: int| 0 <= j < v.len() && v[j]@ == t;
                assert(v.push(x)[j]@ == t);
                assert(texts_set(v.push(x)).contains(t));
            }
        }
    }
}

/// Whether one of the byte strings held so far equals `t`.
pub(crate) fn seen_contains(seen: &Vec<Vec<u8>>, t: &Vec<u8>) -> (r: bool)
    ensures
        r == texts_set(seen@).contains(t@),
{
    let n: usize = seen.len();
    let mut i: usize = 0;
    while i < n
        invariant
            n == seen@.len(),
            0 <= i <= n,
            forall|j: int| 0 <= j < i ==> (#[trigger] seen@[j])@ != t@,
        decreases n - i,
    {
        if bytes_eq(&seen[i], t) {
            proof {
                assert(texts_set(seen@).contains(t@));
            }
            return true;
        }
        i = i + 1;
    }
    proof {
        if texts_set(seen@).contains(t@) {
            let j = choose|j: int| 0 <= j < seen@.len() && seen@[j]@ == t@;
            assert(false);
        }
    }
    false
}

/// Builds the cleaned text of a statute row.
fn build_vc_clean_text(r: &VirginiaCodeRow) -> (out: Vec<u8>)
    ensures
        out@ == vc_clean_text(*r),
{
    let mut out: Vec<u8> = Vec::new();
    append_bytes(&mut out, &r.title_name);
    append_sep_bar(&mut out);
    append_bytes(&mut out, &r.chapter_name);
    append_sep_bar(&mut out);
    let st = strip_html(&r.title);
    append_bytes(&mut out, &st);
    append_space(&mut out);
    let sb = strip_html(&r.body);
    append_bytes(&mut out, &sb);
    proof {
        assert(out@ =~= vc_clean_text(*r));
    }
    out
}

/// Cleans the statute table: keeps rows with a section number and a
/// substantive cleaned text, deduplicated by cleaned text, first row wins.
pub fn clean_virginia_code(rows: &Vec<VirginiaCodeRow>) -> (out: Vec<CleanedSection>)
    ensures
        views_of(out@) == vc_model(rows@, 0, Set::empty()),
{
    let n: usize = rows.len();
    let mut out: Vec<CleanedSection> = Vec::new();
    let mut seen: Vec<Vec<u8>> = Vec::new();
    let mut i: usize = 0;
    proof {
        assert(texts_set(seen@) =~= Set::<Seq<u8>>::empty());
    }
    while i < n
        invariant
            n == rows@.len(),
            0 <= i <= n,
            vc_model(rows@, 0, Set::empty()) == views_of(out@) + vc_model(
                rows@,
                i as int,
                texts_set(seen@),
            ),
        decreases n - i,
    {
        let r = &rows[i];
        let ct = build_vc_clean_text(r);
        let keep_key = r.section.len() > 0;
        let keep_len = ct.len() > 20;
        if keep_key && keep_len {
            let dup = seen_contains(&seen, &ct);
            if !dup {
                let ghost seen0 = seen@;
                let ghost out0 = out@;
                let rec = CleanedSection {
                    id: r.id,
                    section: copy_bytes(&r.section),
                    title_num: copy_bytes(&r.title_num),
                    chapter_num: copy_bytes(&r.chapter_num),
                    title_name: copy_bytes(&r.title_name),
                    chapter_name: copy_bytes(&r.chapter_name),
                    clean_text: ct,
                };
                let ct2 = copy_bytes(&rec.clean_text);
                out.push(rec);
                seen.push(ct2);
                proof {
                    lemma_texts_set_push(seen0, seen@[seen@.len() - 1]);
                    assert(views_of(out@) =~= views_of(out0) + seq![out@[out@.len() - 1]@]);
                    assert(vc_model(rows@, i as int, texts_set(seen0)) == seq![
                        out@[out@.len() - 1]@,
                    ] + vc_model(rows@, i + 1, texts_set(seen0).insert(vc_clean_text(rows@[
                        i as int
                    ]))));
                }
            }
        }
        i = i + 1;
    }
    out
}

/// Builds the cleaned text of a constitutional row.
fn build_const_clean_text(r: &ConstitutionRow) -> (out: Vec<u8>)
    ensures
        out@ == const_clean_text(*r),
{
    let mut out: Vec<u8> = Vec::new();
    append_bytes(&mut out, &r.article_name);
    append_sep_bar(&mut out);
    let sn = strip_html(&r.section_name);
    append_bytes(&mut out, &sn);
    append_space(&mut out);
    let st = strip_html(&r.section_title);
    append_bytes(&mut out, &st);
    append_space(&mut out);
    let sx = strip_html(&r.section_text);
    append_bytes(&mut out, &sx);
    proof {
        assert(out@ =~= const_clean_text(*r));
    }
    out
}

/// Cleans the constitution table: keeps rows whose stripped section text is
/// nonempty.
pub fn clean_constitution(rows: &Vec<ConstitutionRow>) -> (out: Vec<CleanedConstitution>)
    ensures
        views_of(out@) == const_model(rows@, 0),
{
    let n: usize = rows.len();
    let mut out: Vec<CleanedConstitution> = Vec::new();
    let mut i: usize = 0;
    while i < n
        invariant
            n == rows@.len(),
            0 <= i <= n,
            const_model(rows@, 0) == views_of(out@) + const_model(rows@, i as int),
        decreases n - i,
    {
        let r = &rows[i];
        let sx = strip_html(&r.section_text);
        if sx.len() > 0 {
            let ghost out0 = out@;
            let ct = build_const_clean_text(r);
            out.push(
                CleanedConstitution {
                    id: r.id,
                    article_id: r.article_id,
                    article_name: copy_bytes(&r.article_name),
                    section_count: r.section_count,
                    clean_text: ct,
                },
            );
            proof {
                assert(views_of(out@) =~= views_of(out0) + seq![out@[out@.len() - 1]@]);
            }
        }
        i = i + 1;
    }
    out
}

/// Builds the cleaned text of an authority row.
fn build_auth_clean_text(r: &AuthorityRow) -> (out: Vec<u8>)
    ensures
        out@ == auth_clean_text(*r),
{
    let mut out: Vec<u8> = Vec::new();
    let st = strip_html(&r.title);
    append_bytes(&mut out, &st);
    append_space(&mut out);
    let sb = strip_html(&r.body);
    append_bytes(&mut out, &sb);
    proof {
        assert(out@ =~= auth_clean_text(*r));
    }
    out
}

/// Cleans the authorities table: keeps rows with a short name and a
/// substantive cleaned text.
pub fn clean_authorities(rows: &Vec<AuthorityRow>) -> (out: Vec<CleanedAuthority>)
    ensures
        views_of(out@) == auth_model(rows@, 0),
{
    let n: usize = rows.len();
    let mut out: Vec<CleanedAuthority> = Vec::new();
    let mut i: usize = 0;
    while i < n
        invariant
            n == rows@.len(),
            0 <= i <= n,
            auth_model(rows@, 0) == views_of(out@) + auth_model(rows@, i as int),
        decreases n - i,
    {
        let r = &rows[i];
        let ct = build_auth_clean_text(r);
        if r.short_name.len() > 0 && ct.len() > 10 {
            let ghost out0 = out@;
            out.push(
                CleanedAuthority {
                    id: r.id,
                    short_name: copy_bytes(&r.short_name),
                    clean_text: ct,
                },
            );
            proof {
                assert(views_of(out@) =~= views_of(out0) + seq![out@[out@.len() - 1]@]);
            }
        }
        i = i + 1;
    }
    out
}

/// Builds the cleaned text of a court row.
fn build_court_clean_text(r: &CourtRow) -> (out: Vec<u8>)
    ensures
        out@ == court_clean_text(*r),
{
    let mut out: Vec<u8> = Vec::new();
    append_bytes(&mut out, &r.name);
    append_space(&mut out);
    append_bytes(&mut out, &r.locality);
    append_space(&mut out);
    append_bytes(&mut out, &r.court_type);
    append_space(&mut out);
    append_bytes(&mut out, &r.district);
    append_space(&mut out);
    append_bytes(&mut out, &r.city);
    proof {
        assert(out@ =~= court_clean_text(*r));
    }
    out
}

/// Cleans the courts table: every row is kept, its name fields joined.
pub fn clean_courts(rows: &Vec<CourtRow>) -> (out: Vec<CleanedCourt>)
    ensures
        views_of(out@) == court_model(rows@, 0),
{
    let n: usize = rows.len();
    let mut out: Vec<CleanedCourt> = Vec::new();
    let mut i: usize = 0;
    while i < n
        invariant
            n == rows@.len(),
            0 <= i <= n,
            court_model(rows@, 0) == views_of(out@) + court_model(rows@, i as int),
        decreases n - i,
    {
        let r = &rows[i];
        let ct = build_court_clean_text(r);
        let ghost out0 = out@;
        out.push(CleanedCourt { id: r.id, clean_text: ct });
        proof {
            assert(views_of(out@) =~= views_of(out0) + seq![out@[out@.len() - 1]@]);
        }
        i = i + 1;
    }
    out
}

/// Builds the cleaned text of a named-act row.
fn build_pop_clean_text(r: &PopularNameRow) -> (out: Vec<u8>)
    ensures
        out@ == pop_clean_text(*r),
{
    let mut out: Vec<u8> = Vec::new();
    append_bytes(&mut out, &r.name);
    append_space(&mut out);
    let sb = strip_html(&r.body);
    append_bytes(&mut out, &sb);
    proof {
        assert(out@ =~= pop_clean_text(*r));
    }
    out
}

/// Cleans the named-acts table: keeps rows with a name and a substantive
/// cleaned text.
pub fn clean_popular_names(rows: &Vec<PopularNameRow>) -> (out: Vec<CleanedPopularName>)
    ensures
        views_of(out@) == pop_model(rows@, 0),
{
    let n: usize = rows.len();
    let mut out: Vec<CleanedPopularName> = Vec::new();
    let mut i: usize = 0;
    while i < n
        invariant
            n == rows@.len(),
            0 <= i <= n,
            pop_model(rows@, 0) == views_of(out@) + pop_model(rows@, i as int),
        decreases n - i,
    {
        let r = &rows[i];
        let ct = build_pop_clean_text(r);
        if r.name.len() > 0 && ct.len() > 10 {
            let ghost out0 = out@;
            out.push(
                CleanedPopularName { id: r.id, name: copy_bytes(&r.name), clean_text: ct },
            );
            proof {
                assert(views_of(out@) =~= views_of(out0) + seq![out@[out@.len() - 1]@]);
            }
        }
        i = i + 1;
    }
    out
}

/// Builds the cleaned text of a document row.
fn build_doc_clean_text(r: &DocumentRow) -> (out: Vec<u8>)
    ensures
        out@ == doc_clean_text(*r),
{
    let mut out: Vec<u8> = Vec::new();
    let st = strip_html(&r.title);
    append_bytes(&mut out, &st);
    append_space(&mut out);
    let sc = strip_html(&r.content);
    append_bytes(&mut out, &sc);
    proof {
        assert(out@ =~= doc_clean_text(*r));
    }
    out
}

/// Cleans the documents table: keeps rows with a filename.
pub fn clean_documents(rows: &Vec<DocumentRow>) -> (out: Vec<CleanedDocument>)
    ensures
        views_of(out@) == doc_model(rows@, 0),
{
    let n: usize = rows.len();
    let mut out: Vec<CleanedDocument> = Vec::new();
    let mut i: usize = 0;
    while i < n
        invariant
            n == rows@.len(),
            0 <= i <= n,
            doc_model(rows@, 0) == views_of(out@) + doc_model(rows@, i as int),
        decreases n - i,
    {
        let r = &rows[i];
        if r.filename.len() > 0 {
            let ghost out0 = out@;
            let ct = build_doc_clean_text(r);
            out.push(
                CleanedDocument { id: r.id, filename: copy_bytes(&r.filename), clean_text: ct },
            );
            proof {
                assert(views_of(out@) =~= views_of(out0) + seq![out@[out@.len() - 1]@]);
            }
        }
        i = i + 1;
    }
    out
}

/// The cleaned tables, ready for node building. Each record carries its
/// structural key fields and one `clean_text`.
pub struct CleanedData {
    pub virginia_code: Vec<CleanedSection>,
    pub constitution: Vec<CleanedConstitution>,
    pub authorities: Vec<CleanedAuthority>,
    pub courts: Vec<CleanedCourt>,
    pub popular_names: Vec<CleanedPopularName>,
    pub documents: Vec<CleanedDocument>,
}

/// Runs the full cleaning pass over the raw rows of every source table.
/// Cleaning never fails: defective rows are dropped, not reported.
pub fn run_etl(
    code_rows: &Vec<VirginiaCodeRow>,
    constitution_rows: &Vec<ConstitutionRow>,
    authority_rows: &Vec<AuthorityRow>,
    court_rows: &Vec<CourtRow>,
    popular_name_rows: &Vec<PopularNameRow>,
    document_rows: &Vec<DocumentRow>,
) -> (out: CleanedData)
    ensures
        views_of(out.virginia_code@) == vc_model(code_rows@, 0, Set::empty()),
        views_of(out.constitution@) == const_model(constitution_rows@, 0),
        views_of(out.authorities@) == auth_model(authority_rows@, 0),
        views_of(out.courts@) == court_model(court_rows@, 0),
        views_of(out.popular_names@) == pop_model(popular_name_rows@, 0),
        views_of(out.documents@) == doc_model(document_rows@, 0),
{
    CleanedData {
        virginia_code: clean_virginia_code(code_rows),
        constitution: clean_constitution(constitution_rows),
        authorities: clean_authorities(authority_rows),
        courts: clean_courts(court_rows),
        popular_names: clean_popular_names(popular_name_rows),
        documents: clean_documents(document_rows),
    }
}

} // verus!

//! The raw record types of the corpus, one per source table. Text fields are
//! UTF-8 bytes; the caller materializes these from its store before the graph
//! pipeline runs.

use vstd::prelude::*;

verus! {

/// One statute section row: its structural position (title and chapter), its
/// section number, and its raw title and body markup.
pub struct VirginiaCodeRow {
    pub id: i64,
    pub title_num: Vec<u8>,
    pub title_name: Vec<u8>,
    pub chapter_num: Vec<u8>,
    pub chapter_name: Vec<u8>,
    pub section: Vec<u8>,
    pub title: Vec<u8>,
    pub body: Vec<u8>,
}

/// One constitutional section row.
pub struct ConstitutionRow {
    pub id: i64,
    pub article_id: i64,
    pub article: Vec<u8>,
    pub article_name: Vec<u8>,
    pub section_name: Vec<u8>,
    pub section_title: Vec<u8>,
    pub section_text: Vec<u8>,
    pub section_count: i64,
}

/// One administrative-authority row.
pub struct AuthorityRow {
    pub id: i64,
    pub name: Vec<u8>,
    pub short_name: Vec<u8>,
    pub codified: Vec<u8>,
    pub title: Vec<u8>,
    pub section: Vec<u8>,
    pub body: Vec<u8>,
}

/// One court row.
pub struct CourtRow {
    pub id: i64,
    pub name: Vec<u8>,
    pub locality: Vec<u8>,
    pub court_type: Vec<u8>,
    pub district: Vec<u8>,
    pub address: Vec<u8>,
    pub city: Vec<u8>,
    pub state: Vec<u8>,
    pub zip: Vec<u8>,
}

/// One named-act (popular name) row.
pub struct PopularNameRow {
    pub id: i64,
    pub name: Vec<u8>,
    pub title_num: Vec<u8>,
    pub section: Vec<u8>,
    pub body: Vec<u8>,
}

/// One free-form document row.
pub struct DocumentRow {
    pub id: i64,
    pub dataset: Vec<u8>,
    pub filename: Vec<u8>,
    pub title: Vec<u8>,
    pub content: Vec<u8>,
}

} // verus!

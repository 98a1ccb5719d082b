use lawgraph::etl::{
    clean_authorities, clean_courts, clean_documents, clean_popular_names, clean_virginia_code,
};
use lawgraph::rows::{AuthorityRow, CourtRow, DocumentRow, PopularNameRow, VirginiaCodeRow};

fn contains_bytes(haystack: &[u8], needle: &[u8]) -> bool {
    if needle.is_empty() {
        return true;
    }
    haystack.windows(needle.len()).any(|w| w == needle)
}

#[test]
fn test_clean_virginia_code_dedup() {
    let rows = vec![
        VirginiaCodeRow {
            id: 1,
            title_num: b"1".to_vec(),
            title_name: b"Title One".to_vec(),
            chapter_num: b"1".to_vec(),
            chapter_name: b"Chapter One".to_vec(),
            section: b"1-1".to_vec(),
            title: b"<b>Active Section</b>".to_vec(),
            body: b"<p>Some substantive content here.</p>".to_vec(),
        },
        VirginiaCodeRow {
            id: 2,
            title_num: b"1".to_vec(),
            title_name: b"Title One".to_vec(),
            chapter_num: b"2".to_vec(),
            chapter_name: b"Chapter Two".to_vec(),
            section: b"1-2".to_vec(),
            title: b"Repealed".to_vec(),
            body: b"".to_vec(),
        },
        VirginiaCodeRow {
            id: 3,
            title_num: b"1".to_vec(),
            title_name: b"Title One".to_vec(),
            chapter_num: b"3".to_vec(),
            chapter_name: b"Chapter Three".to_vec(),
            section: b"1-3".to_vec(),
            title: b"Repealed".to_vec(),
            body: b"".to_vec(),
        },
    ];

    let result = clean_virginia_code(&rows);
    assert!(result.len() <= rows.len());
    assert!(result.len() >= 1);
}

#[test]
fn test_clean_courts() {
    let rows = vec![CourtRow {
        id: 1,
        name: b"Circuit Court".to_vec(),
        locality: b"Fairfax".to_vec(),
        court_type: b"Circuit".to_vec(),
        district: b"19th".to_vec(),
        address: b"4110 Chain Bridge Rd".to_vec(),
        city: b"Fairfax".to_vec(),
        state: b"VA".to_vec(),
        zip: b"22030".to_vec(),
    }];

    let result = clean_courts(&rows);
    assert_eq!(result.len(), 1);
    let text = &result[0].clean_text;
    assert!(contains_bytes(text, b"Circuit Court"));
    assert!(contains_bytes(text, b"Fairfax"));
}

#[test]
fn test_clean_virginia_code_drops_keyless_rows() {
    let rows = vec![VirginiaCodeRow {
        id: 7,
        title_num: b"2".to_vec(),
        title_name: b"Title Two".to_vec(),
        chapter_num: b"1".to_vec(),
        chapter_name: b"Chapter One".to_vec(),
        section: b"".to_vec(),
        title: b"Orphan".to_vec(),
        body: b"Plenty of text that would otherwise pass the length test.".to_vec(),
    }];
    let result = clean_virginia_code(&rows);
    assert_eq!(result.len(), 0);
}

#[test]
fn test_clean_virginia_code_exact_dedup_keeps_first() {
    let mk = |id: i64, section: &[u8]| VirginiaCodeRow {
        id,
        title_num: b"1".to_vec(),
        title_name: b"Title One".to_vec(),
        chapter_num: b"1".to_vec(),
        chapter_name: b"Chapter One".to_vec(),
        section: section.to_vec(),
        title: b"Same Heading".to_vec(),
        body: b"Identical body text for both rows.".to_vec(),
    };
    let rows = vec![mk(1, b"1-1"), mk(2, b"1-1")];
    let result = clean_virginia_code(&rows);
    assert_eq!(result.len(), 1);
    assert_eq!(result[0].id, 1);
}

#[test]
fn test_clean_authorities_filters_short_text() {
    let rows = vec![
        AuthorityRow {
            id: 1,
            name: b"Alpha Board".to_vec(),
            short_name: b"alpha".to_vec(),
            codified: b"".to_vec(),
            title: b"Alpha Board of Review".to_vec(),
            section: b"".to_vec(),
            body: b"A body with plenty of descriptive text.".to_vec(),
        },
        AuthorityRow {
            id: 2,
            name: b"Beta Board".to_vec(),
            short_name: b"".to_vec(),
            codified: b"".to_vec(),
            title: b"Beta Board".to_vec(),
            section: b"".to_vec(),
            body: b"Dropped for its empty short name.".to_vec(),
        },
    ];
    let result = clean_authorities(&rows);
    assert_eq!(result.len(), 1);
    assert_eq!(result[0].short_name, b"alpha".to_vec());
}

#[test]
fn test_clean_popular_names_requires_name() {
    let rows = vec![PopularNameRow {
        id: 3,
        name: b"".to_vec(),
        title_num: b"1".to_vec(),
        section: b"1-1".to_vec(),
        body: b"An act known by no popular name at all.".to_vec(),
    }];
    let result = clean_popular_names(&rows);
    assert_eq!(result.len(), 0);
}

#[test]
fn test_clean_documents_requires_filename() {
    let rows = vec![
        DocumentRow {
            id: 1,
            dataset: b"manuals".to_vec(),
            filename: b"guide.html".to_vec(),
            title: b"<h1>Guide</h1>".to_vec(),
            content: b"<p>Contents of the guide.</p>".to_vec(),
        },
        DocumentRow {
            id: 2,
            dataset: b"manuals".to_vec(),
            filename: b"".to_vec(),
            title: b"Nameless".to_vec(),
            content: b"Dropped for its empty filename.".to_vec(),
        },
    ];
    let result = clean_documents(&rows);
    assert_eq!(result.len(), 1);
    assert_eq!(result[0].filename, b"guide.html".to_vec());
    assert!(contains_bytes(&result[0].clean_text, b"Guide"));
    assert!(contains_bytes(&result[0].clean_text, b"Contents of the guide."));
}

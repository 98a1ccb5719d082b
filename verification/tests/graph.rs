use lawgraph::edges::RelType;
use lawgraph::nodes::{NodeType, Source};
use lawgraph::pipeline::build_graph;
use lawgraph::rows::{
    AuthorityRow, ConstitutionRow, CourtRow, DocumentRow, PopularNameRow, VirginiaCodeRow,
};

fn code_row(
    id: i64,
    title_num: &[u8],
    title_name: &[u8],
    chapter_num: &[u8],
    chapter_name: &[u8],
    section: &[u8],
    title: &[u8],
    body: &[u8],
) -> VirginiaCodeRow {
    VirginiaCodeRow {
        id,
        title_num: title_num.to_vec(),
        title_name: title_name.to_vec(),
        chapter_num: chapter_num.to_vec(),
        chapter_name: chapter_name.to_vec(),
        section: section.to_vec(),
        title: title.to_vec(),
        body: body.to_vec(),
    }
}

#[test]
fn test_end_to_end_title_and_section() {
    // One parent record that carries only the title, one child record in the
    // same title with a self-reference that resolves to no known key.
    let code_rows = vec![
        code_row(1, b"1", b"General Provisions", b"", b"", b"", b"", b""),
        code_row(
            2,
            b"1",
            b"General Provisions",
            b"",
            b"",
            b"1-200",
            b"Cross references",
            "See § 1-200.1 for related provisions.".as_bytes(),
        ),
    ];
    let constitution_rows: Vec<ConstitutionRow> = Vec::new();
    let authority_rows: Vec<AuthorityRow> = Vec::new();
    let court_rows: Vec<CourtRow> = Vec::new();
    let popular_name_rows: Vec<PopularNameRow> = Vec::new();
    let document_rows: Vec<DocumentRow> = Vec::new();

    let graph = build_graph(
        &code_rows,
        &constitution_rows,
        &authority_rows,
        &court_rows,
        &popular_name_rows,
        &document_rows,
    );

    assert_eq!(graph.nodes.len(), 2);
    assert_eq!(graph.nodes[0].id, 1);
    assert_eq!(graph.nodes[0].source, Source::VirginiaCode);
    assert_eq!(graph.nodes[0].source_id, b"1".to_vec());
    assert_eq!(graph.nodes[0].node_type, NodeType::Title);
    assert!(graph.nodes[0].synthetic);
    assert_eq!(graph.nodes[1].id, 2);
    assert_eq!(graph.nodes[1].source_id, b"1-200".to_vec());
    assert_eq!(graph.nodes[1].node_type, NodeType::Section);
    assert!(!graph.nodes[1].synthetic);

    assert_eq!(graph.texts.len(), 2);
    assert_eq!(graph.texts[0], b"General Provisions".to_vec());

    // Exactly one containment edge from the synthetic title to the section,
    // and no citation edges: "1-200.1" resolves to no key.
    assert_eq!(graph.edges.len(), 1);
    assert_eq!(graph.edges[0].from_id, 1);
    assert_eq!(graph.edges[0].to_id, 2);
    assert_eq!(graph.edges[0].rel_type, RelType::Contains);

    // The section is addressable through the lookup table.
    let ids = graph
        .lookup
        .get(Source::VirginiaCode, &b"1-200".to_vec())
        .expect("section key present");
    assert_eq!(ids, &vec![2usize]);

    // No chunking happened, so no chunk offsets were recorded.
    assert!(graph.chunk_meta.is_empty());
}

#[test]
fn test_hierarchy_with_chapter_and_citation() {
    let code_rows = vec![
        code_row(
            1,
            b"1",
            b"General Provisions",
            b"2",
            b"Definitions",
            b"1-200",
            b"Definitions",
            b"This section defines the terms used throughout the present title.",
        ),
        code_row(
            2,
            b"1",
            b"General Provisions",
            b"2",
            b"Definitions",
            b"1-201",
            b"Scope",
            "The scope is fixed by § 1-200 of this chapter.".as_bytes(),
        ),
    ];
    let graph = build_graph(&code_rows, &Vec::new(), &Vec::new(), &Vec::new(), &Vec::new(), &Vec::new());

    // One title, one chapter, two sections.
    assert_eq!(graph.nodes.len(), 4);
    assert_eq!(graph.nodes[0].node_type, NodeType::Title);
    assert_eq!(graph.nodes[1].node_type, NodeType::Chapter);
    assert_eq!(graph.nodes[1].source_id, b"1:2".to_vec());
    assert_eq!(graph.nodes[2].source_id, b"1-200".to_vec());
    assert_eq!(graph.nodes[3].source_id, b"1-201".to_vec());

    // Edges: title(1) contains chapter(2); chapter(2) contains both
    // sections; section 1-201 (id 4) cites section 1-200 (id 3). Ordered by
    // source id, target id, relation.
    let got: Vec<(usize, usize, RelType)> = graph
        .edges
        .iter()
        .map(|e| (e.from_id, e.to_id, e.rel_type))
        .collect();
    assert_eq!(
        got,
        vec![
            (1, 2, RelType::Contains),
            (2, 3, RelType::Contains),
            (2, 4, RelType::Contains),
            (4, 3, RelType::Cites),
        ]
    );
}

#[test]
fn test_document_references_first_chunk_only() {
    let code_rows = vec![code_row(
        1,
        b"19",
        b"Criminal Procedure",
        b"23",
        b"Expungement",
        b"19.2-392",
        b"Expungement of records",
        b"The body of the expungement section with enough text to keep.",
    )];
    let document_rows = vec![DocumentRow {
        id: 1,
        dataset: b"manuals".to_vec(),
        filename: b"expungement-guide.html".to_vec(),
        title: b"Expungement guide".to_vec(),
        content: r#"<a href="https://law.lis.virginia.gov/vacode/19.2-392">the statute</a>"#
            .as_bytes()
            .to_vec(),
    }];
    let graph = build_graph(
        &code_rows,
        &Vec::new(),
        &Vec::new(),
        &Vec::new(),
        &Vec::new(),
        &document_rows,
    );

    // Title, chapter, section, document chunk.
    assert_eq!(graph.nodes.len(), 4);
    assert_eq!(graph.nodes[3].node_type, NodeType::ManualChunk);
    // Document chunks always carry offset metadata.
    assert_eq!(graph.chunk_meta.len(), 1);
    assert_eq!(graph.chunk_meta[0].node_id, 4);

    // The reference edge runs from the document's first chunk to the
    // section node resolved from the raw link markup.
    let refs: Vec<(usize, usize)> = graph
        .edges
        .iter()
        .filter(|e| e.rel_type == RelType::References)
        .map(|e| (e.from_id, e.to_id))
        .collect();
    assert_eq!(refs, vec![(4, 3)]);
}

#[test]
fn test_no_dangling_and_no_duplicate_edges() {
    let code_rows = vec![
        code_row(
            1,
            b"1",
            b"T",
            b"1",
            b"C",
            b"1-1",
            b"Heading one",
            "Refers to § 1-2 and also to §§ 1-2 and 1-9999.".as_bytes(),
        ),
        code_row(
            2,
            b"1",
            b"T",
            b"1",
            b"C",
            b"1-2",
            b"Heading two",
            b"A perfectly ordinary body of statutory text.",
        ),
    ];
    let graph = build_graph(&code_rows, &Vec::new(), &Vec::new(), &Vec::new(), &Vec::new(), &Vec::new());
    // No two edges share (from, to, relation); none points at an unknown id.
    for (i, a) in graph.edges.iter().enumerate() {
        for b in graph.edges.iter().skip(i + 1) {
            assert!(
                !(a.from_id == b.from_id && a.to_id == b.to_id && a.rel_type == b.rel_type)
            );
        }
        assert!(a.from_id >= 1 && a.from_id <= graph.nodes.len());
        assert!(a.to_id >= 1 && a.to_id <= graph.nodes.len());
    }
    // "1-9999" resolves to nothing, so the only citation edge targets 1-2.
    let cites: Vec<(usize, usize)> = graph
        .edges
        .iter()
        .filter(|e| e.rel_type == RelType::Cites)
        .map(|e| (e.from_id, e.to_id))
        .collect();
    let sec1 = graph
        .lookup
        .get(Source::VirginiaCode, &b"1-1".to_vec())
        .unwrap()[0];
    let sec2 = graph
        .lookup
        .get(Source::VirginiaCode, &b"1-2".to_vec())
        .unwrap()[0];
    assert_eq!(cites, vec![(sec1, sec2)]);
}

#[test]
fn test_constitution_hierarchy_keys() {
    let constitution_rows = vec![ConstitutionRow {
        id: 1,
        article_id: 3,
        article: b"III".to_vec(),
        article_name: b"Division of Powers".to_vec(),
        section_name: b"Section 1".to_vec(),
        section_title: b"Departments".to_vec(),
        section_text: b"The powers of government are divided among three departments.".to_vec(),
        section_count: 1,
    }];
    let graph = build_graph(
        &Vec::new(),
        &constitution_rows,
        &Vec::new(),
        &Vec::new(),
        &Vec::new(),
        &Vec::new(),
    );
    assert_eq!(graph.nodes.len(), 2);
    assert_eq!(graph.nodes[0].source, Source::Constitution);
    assert_eq!(graph.nodes[0].source_id, b"article:3".to_vec());
    assert_eq!(graph.nodes[0].node_type, NodeType::Article);
    assert_eq!(graph.nodes[1].source_id, b"3:1".to_vec());
    assert_eq!(graph.nodes[1].node_type, NodeType::ConstitutionSection);
    let got: Vec<(usize, usize, RelType)> = graph
        .edges
        .iter()
        .map(|e| (e.from_id, e.to_id, e.rel_type))
        .collect();
    assert_eq!(got, vec![(1, 2, RelType::Contains)]);
}

#[test]
fn test_courts_and_popular_names_nodes() {
    let court_rows = vec![CourtRow {
        id: 42,
        name: b"Circuit Court".to_vec(),
        locality: b"Fairfax".to_vec(),
        court_type: b"Circuit".to_vec(),
        district: b"19th".to_vec(),
        address: b"4110 Chain Bridge Rd".to_vec(),
        city: b"Fairfax".to_vec(),
        state: b"VA".to_vec(),
        zip: b"22030".to_vec(),
    }];
    let popular_name_rows = vec![PopularNameRow {
        id: 1,
        name: b"Freedom of Information Act".to_vec(),
        title_num: b"2.2".to_vec(),
        section: b"2.2-3700".to_vec(),
        body: b"The short title of the chapter on public records.".to_vec(),
    }];
    let graph = build_graph(
        &Vec::new(),
        &Vec::new(),
        &Vec::new(),
        &court_rows,
        &popular_name_rows,
        &Vec::new(),
    );
    assert_eq!(graph.nodes.len(), 2);
    assert_eq!(graph.nodes[0].source, Source::Courts);
    assert_eq!(graph.nodes[0].source_id, b"42".to_vec());
    assert_eq!(graph.nodes[0].node_type, NodeType::Court);
    assert_eq!(graph.nodes[1].source, Source::PopularNames);
    assert_eq!(graph.nodes[1].node_type, NodeType::PopularName);
    assert!(graph.edges.is_empty());
}

#[test]
fn test_long_section_chunks_with_meta() {
    // Six hundred tokens across sixty sentences force the section text
    // through the chunker: several chunk nodes under one key, chunk indices
    // counting up from zero, and offset metadata for every chunk.
    let mut body = String::new();
    for i in 0..60 {
        body.push_str(&format!(
            "Sentence {} fills the section with ten ordinary words here. ",
            i
        ));
    }
    let code_rows = vec![code_row(
        1,
        b"1",
        b"T",
        b"1",
        b"C",
        b"1-1",
        b"Long section",
        body.trim_end().as_bytes(),
    )];
    let graph = build_graph(&code_rows, &Vec::new(), &Vec::new(), &Vec::new(), &Vec::new(), &Vec::new());

    let section_ids: Vec<usize> = graph
        .lookup
        .get(Source::VirginiaCode, &b"1-1".to_vec())
        .unwrap()
        .clone();
    assert!(section_ids.len() >= 2);
    for (j, id) in section_ids.iter().enumerate() {
        let node = &graph.nodes[id - 1];
        assert_eq!(node.id, *id);
        assert_eq!(node.chunk_idx, j);
        assert_eq!(node.node_type, NodeType::Section);
    }
    // A split section records offsets for each of its chunks, within bounds
    // and in non-decreasing order.
    assert_eq!(graph.chunk_meta.len(), section_ids.len());
    let mut prev_start = 0usize;
    for m in &graph.chunk_meta {
        assert!(m.char_start <= m.char_end);
        assert!(prev_start <= m.char_start);
        prev_start = m.char_start;
    }
}

#[test]
fn test_authority_cites_section() {
    let code_rows = vec![code_row(
        1,
        b"2.2",
        b"Administration",
        b"37",
        b"Records",
        b"2.2-3700",
        b"Public records",
        b"The policy of open government records, stated at length.",
    )];
    let authority_rows = vec![AuthorityRow {
        id: 1,
        name: b"Records Board".to_vec(),
        short_name: b"records-board".to_vec(),
        codified: b"".to_vec(),
        title: b"Records Advisory Board".to_vec(),
        section: b"".to_vec(),
        body: "Advises under § 2.2-3700 of the code.".as_bytes().to_vec(),
    }];
    let graph = build_graph(
        &code_rows,
        &Vec::new(),
        &authority_rows,
        &Vec::new(),
        &Vec::new(),
        &Vec::new(),
    );
    let section_id = graph
        .lookup
        .get(Source::VirginiaCode, &b"2.2-3700".to_vec())
        .unwrap()[0];
    let authority_id = graph
        .lookup
        .get(Source::Authorities, &b"records-board".to_vec())
        .unwrap()[0];
    let cites: Vec<(usize, usize)> = graph
        .edges
        .iter()
        .filter(|e| e.rel_type == RelType::Cites)
        .map(|e| (e.from_id, e.to_id))
        .collect();
    assert_eq!(cites, vec![(authority_id, section_id)]);
}

#[test]
fn test_lookup_absent_key() {
    let graph = build_graph(&Vec::new(), &Vec::new(), &Vec::new(), &Vec::new(), &Vec::new(), &Vec::new());
    assert!(graph.nodes.is_empty());
    assert!(graph.edges.is_empty());
    assert!(graph
        .lookup
        .get(Source::VirginiaCode, &b"1-1".to_vec())
        .is_none());
}

//! The graph assembler: runs the cleaning pass, node construction and edge
//! construction in order, and hands back the complete graph — nodes, edges
//! and chunk-offset records — ready for the caller's persistence layer.

use vstd::prelude::*;

use crate::edges::{build_edges, edge_present, edge_views, edges_strictly_sorted, graph_edge, Edge, EdgeModel};
use crate::etl::{
    auth_model, const_model, court_model, doc_model, pop_model, run_etl, vc_model, views_of,
};
use crate::nodes::{
    build_nodes, built_state, built_state_of, ids_ok, lemma_built_state_ids, AsmState, ChunkMeta,
    Lookup, Node,
};
use crate::rows::{
    AuthorityRow, ConstitutionRow, CourtRow, DocumentRow, PopularNameRow, VirginiaCodeRow,
};

verus! {

/// The construction state the pipeline reaches on these raw tables.
pub open spec fn pipeline_state(
    code_rows: Seq<VirginiaCodeRow>,
    constitution_rows: Seq<ConstitutionRow>,
    authority_rows: Seq<AuthorityRow>,
    court_rows: Seq<CourtRow>,
    popular_name_rows: Seq<PopularNameRow>,
    document_rows: Seq<DocumentRow>,
) -> AsmState {
    built_state_of(
        vc_model(code_rows, 0, Set::empty()),
        const_model(constitution_rows, 0),
        auth_model(authority_rows, 0),
        court_model(court_rows, 0),
        pop_model(popular_name_rows, 0),
        doc_model(document_rows, 0),
    )
}

/// The complete graph: the node list, the key lookup, the cleaned text of
/// each node, the chunk-offset records, and the ordered edge set.
pub struct GraphBuild {
    pub nodes: Vec<Node>,
    pub lookup: Lookup,
    pub texts: Vec<Vec<u8>>,
    pub chunk_meta: Vec<ChunkMeta>,
    pub edges: Vec<Edge>,
}

/// Builds the whole knowledge graph from the raw tables: pass one cleans
/// the rows and constructs every node, pass two derives the deduplicated,
/// ordered edge set from the completed node set and the raw rows. The
/// computation is deterministic and never fails.
pub fn build_graph(
    code_rows: &Vec<VirginiaCodeRow>,
    constitution_rows: &Vec<ConstitutionRow>,
    authority_rows: &Vec<AuthorityRow>,
    court_rows: &Vec<CourtRow>,
    popular_name_rows: &Vec<PopularNameRow>,
    document_rows: &Vec<DocumentRow>,
) -> (out: GraphBuild)
    ensures
        ({
            let st = pipeline_state(
                code_rows@,
                constitution_rows@,
                authority_rows@,
                court_rows@,
                popular_name_rows@,
                document_rows@,
            );
            &&& views_of(out.nodes@) == st.nodes
            &&& out.lookup@ == st.lookup
            &&& out.lookup.wf()
            &&& views_of(out.texts@) == st.texts
            &&& views_of(out.chunk_meta@) == st.meta
            &&& edges_strictly_sorted(edge_views(out.edges@))
            &&& forall|e: EdgeModel|
                #[trigger] edge_present(edge_views(out.edges@), e) <==> graph_edge(
                    st.lookup,
                    code_rows@,
                    constitution_rows@,
                    document_rows@,
                    st.nodes,
                    st.texts,
                    e,
                )
        }),
{
    let ghost st = pipeline_state(
        code_rows@,
        constitution_rows@,
        authority_rows@,
        court_rows@,
        popular_name_rows@,
        document_rows@,
    );
    let cleaned = run_etl(
        code_rows,
        constitution_rows,
        authority_rows,
        court_rows,
        popular_name_rows,
        document_rows,
    );
    proof {
        assert(built_state(cleaned) == st);
    }
    let nb = build_nodes(&cleaned);
    proof {
        lemma_built_state_ids(cleaned);
        assert(ids_ok(st));
        assert forall|i: int| 0 <= i < nb.nodes@.len() implies (#[trigger] nb.nodes@[i])@.id == i
            + 1 by {
            assert(nb.nodes@[i]@ == views_of(nb.nodes@)[i]);
            assert(st.nodes[i].id == i + 1);
        }
        assert(nb.texts@.len() == nb.nodes@.len()) by {
            assert(views_of(nb.texts@).len() == st.texts.len());
            assert(views_of(nb.nodes@).len() == st.nodes.len());
        }
    }
    let edges = build_edges(
        &nb.nodes,
        &nb.lookup,
        code_rows,
        constitution_rows,
        document_rows,
        &nb.texts,
    );
    proof {
        assert(crate::edges::ref_views(nb.texts@) =~= views_of(nb.texts@));
    }
    GraphBuild {
        nodes: nb.nodes,
        lookup: nb.lookup,
        texts: nb.texts,
        chunk_meta: nb.chunk_meta,
        edges,
    }
}

} // verus!

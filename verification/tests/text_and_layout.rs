use graph_canvas::doc::Edge;
use graph_canvas::errors::{DomainError, ErrorAnchor, ErrorIndex, GraphError, IndexedError};
use graph_canvas::layout::{layered_ranks, layout_order, LayoutColumn, LayoutEdge};
use graph_canvas::text::CommentToken::{Break, NodeRef, Text};
use graph_canvas::text::{filter_hit, is_whitespace, slugify, tokenize_comment, trim};

fn e(from: u64, to: u64) -> LayoutEdge {
    LayoutEdge { from, to }
}

#[test]
fn ranks_follow_the_longest_path() {
    let nodes = [0, 1, 2];
    let r = layered_ranks(&nodes, &[e(0, 1), e(1, 2), e(0, 2)]);
    assert_eq!(r[&0], 0);
    assert_eq!(r[&1], 1);
    assert_eq!(r[&2], 2, "a node sits right of everything that feeds it");
}

#[test]
fn unconnected_nodes_rank_as_sources() {
    let nodes = [0, 1, 9];
    let r = layered_ranks(&nodes, &[e(0, 1)]);
    assert_eq!(r[&9], 0, "an island is its own source");
}

#[test]
fn cycles_terminate_instead_of_climbing() {
    let nodes = [0, 1, 2];
    let r = layered_ranks(&nodes, &[e(0, 1), e(1, 2), e(2, 0)]);
    assert!(r.values().all(|v| *v < nodes.len()));
    let r2 = layered_ranks(&[0], &[e(0, 0), e(0, 77)]);
    assert_eq!(r2[&0], 0);
}

#[test]
fn a_cycle_is_broken_at_the_edge_that_closes_it() {
    // 0 -> 1 -> 2 -> 0: the closing edge 2 -> 0 is ignored, the rest ranks
    // by longest path, and the island 3 is its own source.
    let r = layered_ranks(&[0, 1, 2, 3], &[e(0, 1), e(1, 2), e(2, 0)]);
    assert_eq!(r.into_iter().collect::<Vec<_>>(), vec![(0, 0), (1, 1), (2, 2), (3, 0)]);
    // Which edge closes the cycle depends on the order the edges come in.
    let r = layered_ranks(&[0, 1, 2], &[e(2, 0), e(0, 1), e(1, 2)]);
    assert_eq!(r.into_iter().collect::<Vec<_>>(), vec![(0, 1), (1, 2), (2, 0)]);
    // Edges outside the cycle still rank.
    let r = layered_ranks(&[0, 1, 2, 3], &[e(0, 1), e(1, 0), e(1, 2), e(3, 0)]);
    assert_eq!(r.into_iter().collect::<Vec<_>>(), vec![(0, 1), (1, 2), (2, 3), (3, 0)]);
}

#[test]
fn empty_input_ranks_nothing() {
    assert!(layered_ranks(&[], &[]).is_empty());
    assert!(layout_order(&[], &[], &layered_ranks(&[], &[])).is_empty());
}

#[test]
fn barycenter_order_uncrosses_a_crossed_pair() {
    // Sources 0, 1 feed targets 3, 2 crosswise; the target column comes out
    // mirroring the source column.
    let nodes = [0, 1, 2, 3];
    let edges = [e(0, 3), e(1, 2)];
    let rank = layered_ranks(&nodes, &edges);
    let cols = layout_order(&nodes, &edges, &rank);
    assert_eq!(
        cols,
        vec![LayoutColumn { rank: 0, members: vec![0, 1] }, LayoutColumn { rank: 1, members: vec![3, 2] }]
    );
}

#[test]
fn siblings_share_a_column_in_input_order() {
    let nodes = [0, 1, 2];
    let edges = [e(0, 1), e(0, 2)];
    let rank = layered_ranks(&nodes, &edges);
    let cols = layout_order(&nodes, &edges, &rank);
    assert_eq!(
        cols,
        vec![LayoutColumn { rank: 0, members: vec![0] }, LayoutColumn { rank: 1, members: vec![1, 2] }]
    );
}

#[test]
fn unplaced_neighbours_hold_their_position() {
    // 5 has no neighbour in the column to its left, so it sorts after the
    // ones that do.
    let nodes = [5, 0, 1, 2];
    let edges = [e(0, 2), e(1, 2)];
    let rank = layered_ranks(&nodes, &edges);
    let cols = layout_order(&nodes, &edges, &rank);
    assert_eq!(cols[0], LayoutColumn { rank: 0, members: vec![0, 1, 5] });
    assert_eq!(cols[1], LayoutColumn { rank: 1, members: vec![2] });
}

#[test]
fn slugs_are_lowercase_and_dash_separated() {
    assert_eq!(slugify("Hello, World!"), "hello-world");
    assert_eq!(slugify("  Add  Int  "), "add-int");
    assert_eq!(slugify("--a--b--"), "a-b");
    assert_eq!(slugify("Straße 2"), "straße-2");
    assert_eq!(slugify("ÀB"), "àb");
    assert_eq!(slugify("!!!"), "");
    assert_eq!(slugify(""), "");
}

#[test]
fn comments_split_into_words_refs_and_breaks() {
    assert_eq!(
        tokenize_comment("see #add-1 and #\nthen  #9"),
        vec![Text("see"), NodeRef("add-1"), Text("and"), Text("#"), Break, Text("then"), NodeRef("9")]
    );
    assert_eq!(tokenize_comment(""), vec![]);
    assert_eq!(tokenize_comment("\n\n"), vec![Break, Break]);
    assert_eq!(tokenize_comment("  a\tb  "), vec![Text("a"), Text("b")]);
    assert_eq!(tokenize_comment("##x é"), vec![NodeRef("#x"), Text("é")]);
}

#[test]
fn the_filter_highlights_the_first_case_insensitive_match() {
    assert_eq!(filter_hit("Add Int", "  int "), Some((4, 7)));
    assert_eq!(filter_hit("Add Int", "ADD"), Some((0, 3)));
    assert_eq!(filter_hit("int int", "int"), Some((0, 3)));
    assert_eq!(filter_hit("Add Int", "   "), None, "a blank filter highlights nothing");
    assert_eq!(filter_hit("Add Int", "float"), None);
    assert_eq!(filter_hit("Größe", "öß"), Some((2, 6)));
}

#[test]
fn a_match_that_would_cut_a_glyph_is_not_highlighted() {
    // 'İ' lowercases to two characters, so offsets in the lowercased label
    // run one byte ahead of the original and the end falls past it.
    assert_eq!(filter_hit("İab", "ab"), None);
}

fn ge(anchor: ErrorAnchor, message: &str) -> GraphError {
    GraphError { anchor, message: message.to_string(), cycle: None }
}

#[test]
fn errors_are_indexed_by_what_they_are_about() {
    let wire = Edge { from_node: 1, from_pin: "v".into(), to_node: 2, to_pin: "a".into() };
    let doc = vec![
        ge(ErrorAnchor::Node(1), "bad node"),
        ge(ErrorAnchor::Pin { node: 2, pin: "a".into(), output: false }, "bad pin"),
        ge(ErrorAnchor::Pin { node: 2, pin: "a".into(), output: false }, "bad pin again"),
        ge(ErrorAnchor::Edge(wire.clone()), "bad wire"),
        ge(ErrorAnchor::GhostPin { node: 3, pin: "gone".into(), output: true }, "gone"),
        ge(ErrorAnchor::GhostPin { node: 3, pin: "gone".into(), output: true }, "still gone"),
        ge(ErrorAnchor::Document, "cycle"),
    ];
    let refs = vec![ge(ErrorAnchor::Node(4), "dangling")];
    let domain = vec![
        DomainError { node: Some(5), message: "refused".into(), region_node: None },
        DomainError { node: None, message: "nowhere".into(), region_node: None },
    ];
    let ix = ErrorIndex::build(&doc, &refs, &domain);
    assert_eq!(ix.total(), 10);
    assert!(!ix.is_empty());
    assert_eq!(ix.nodes.iter().copied().collect::<Vec<u64>>(), vec![1, 4, 5]);
    assert_eq!(ix.pins, vec![(2, "a".to_string(), false)]);
    assert_eq!(ix.edges, vec![wire]);
    assert_eq!(ix.ghosts_for(3), &[("gone".to_string(), true)]);
    assert!(ix.ghosts_for(1).is_empty());
    assert_eq!(ix.document.len(), 2);
    assert_eq!(ix.ordered[7].text(), "dangling");
    assert!(ErrorIndex::build(&[], &[], &[]).is_empty());
}

#[test]
fn an_indexed_error_reads_its_anchor_text_and_cycle() {
    let cyc = GraphError {
        anchor: ErrorAnchor::Document,
        message: "cycle".into(),
        cycle: Some(vec!["a".into(), "b".into()]),
    };
    let g = IndexedError::Graph(cyc);
    assert_eq!(g.anchor(), ErrorAnchor::Document);
    assert_eq!(g.text(), "cycle");
    assert_eq!(g.cycle_chain(), Some(&vec!["a".to_string(), "b".to_string()]));
    let d = IndexedError::Domain(DomainError { node: Some(7), message: "no".into(), region_node: Some(8) });
    assert_eq!(d.anchor(), ErrorAnchor::Node(7));
    assert_eq!(d.text(), "no");
    assert_eq!(d.cycle_chain(), None);
    let nowhere = IndexedError::Domain(DomainError { node: None, message: "x".into(), region_node: None });
    assert_eq!(nowhere.anchor(), ErrorAnchor::Document);
}

#[test]
fn trimming_drops_outer_whitespace_only() {
    for s in ["  a b  ", "\t\nx\u{3000}", "", "   ", "no-space", " é "] {
        assert_eq!(trim(s), s.trim());
    }
}

#[test]
fn whitespace_is_the_white_space_property() {
    for u in 0u32..0x11000 {
        if let Some(c) = char::from_u32(u) {
            assert_eq!(is_whitespace(c), c.is_whitespace(), "{u:#x}");
        }
    }
}

#[test]
fn ascii_slugs_are_small_letters_digits_and_single_dashes() {
    for s in ["Get Health!", "  --A__b  9 ", "x", "!!", "Add2Int & more"] {
        let slug = slugify(s);
        assert!(slug.chars().all(|c| c.is_ascii_lowercase() || c.is_ascii_digit() || c == '-'), "{slug}");
        assert!(!slug.starts_with('-') && !slug.ends_with('-') && !slug.contains("--"), "{slug}");
    }
    assert_eq!(slugify("Get Health!"), "get-health");
}

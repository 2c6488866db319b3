use callgraph::generator::GraphGenerator;
use callgraph::graph::{RelationKind, Symbol};
use callgraph::types::{
    CallHierarchyIncomingCall, CallHierarchyItem, CallHierarchyOutgoingCall, DocumentSymbol,
    Position, Range, SymbolKind, Uri,
};

fn pos(line: u32, character: u32) -> Position {
    Position { line, character }
}

fn range(l1: u32, c1: u32, l2: u32, c2: u32) -> Range {
    Range { start: pos(l1, c1), end: pos(l2, c2) }
}

fn doc_symbol(
    name: &str,
    kind: SymbolKind,
    full: Range,
    sel: Range,
    children: Vec<DocumentSymbol>,
) -> DocumentSymbol {
    DocumentSymbol {
        name: name.to_string(),
        detail: None,
        kind,
        range: full,
        selection_range: sel,
        children,
    }
}

fn item(name: &str, kind: SymbolKind, path: &str, full: Range, sel: Range) -> CallHierarchyItem {
    CallHierarchyItem {
        name: name.to_string(),
        kind,
        uri: Uri { path: path.to_string() },
        range: full,
        selection_range: sel,
    }
}

#[test]
fn nested_function() {
    let mut generator = GraphGenerator::new(String::new(), "", false);
    let parent_range = Range { start: Position { line: 1, character: 3 }, end: Position {
        line: 1,
        character: 10,
    } };
    let child_range = Range { start: Position { line: 10, character: 4 }, end: Position {
        line: 10,
        character: 16,
    } };

    generator.add_file(
        "abc".to_string(),
        vec![DocumentSymbol {
            name: "fn_parent".to_string(),
            detail: None,
            kind: SymbolKind::Function,
            range: parent_range,
            selection_range: parent_range,
            children: vec![DocumentSymbol {
                name: "fn_child".to_string(),
                detail: None,
                kind: SymbolKind::Function,
                range: child_range,
                selection_range: child_range,
                children: vec![],
            }],
        }],
    );

    let dot = generator.gen_graph();
    println!("{:#?}", dot);
}

#[test]
fn register_same_path_twice() {
    let mut g = GraphGenerator::new(String::new(), "Go", true);
    let outline =
        vec![doc_symbol("f", SymbolKind::Function, range(1, 0, 20, 1), range(1, 3, 1, 8), vec![])];
    assert!(g.add_file("a.go".to_string(), outline));
    let other =
        vec![doc_symbol("g", SymbolKind::Function, range(2, 0, 5, 1), range(2, 3, 2, 8), vec![])];
    assert!(!g.add_file("a.go".to_string(), other));

    let graph = g.gen_graph();
    assert_eq!(graph.files.len(), 1);
    assert_eq!(graph.files[0].id, 1);
    assert_eq!(graph.files[0].symbols.len(), 1);
    assert_eq!(graph.files[0].symbols[0].name, "f");
}

#[test]
fn unsorted_outline_is_rejected() {
    let mut g = GraphGenerator::new(String::new(), "", false);
    let outline = vec![
        doc_symbol("b", SymbolKind::Function, range(5, 0, 8, 1), range(5, 3, 5, 4), vec![]),
        doc_symbol("a", SymbolKind::Function, range(1, 0, 4, 1), range(1, 3, 1, 4), vec![]),
    ];
    assert!(!g.add_file("x.go".to_string(), outline));
    let graph = g.gen_graph();
    assert_eq!(graph.files.len(), 0);
}

#[test]
fn recovery_inserts_nested_symbol() {
    let mut cells = vec![Symbol {
        name: "outer".to_string(),
        kind: SymbolKind::Function,
        range: range(1, 3, 1, 8),
        full_range: range(1, 0, 20, 1),
        children: vec![],
    }];
    let inner = item(
        "inner",
        SymbolKind::Function,
        "f1",
        range(10, 0, 12, 1),
        range(10, 4, 10, 9),
    );
    assert!(callgraph::recovery::try_insert_symbol(&mut cells, &inner));
    assert_eq!(cells.len(), 1);
    assert_eq!(cells[0].children.len(), 1);
    assert_eq!(cells[0].children[0].name, "inner");
    assert_eq!(cells[0].children[0].range.start, pos(10, 4));

    // the identical recovery again is a no-op success
    assert!(callgraph::recovery::try_insert_symbol(&mut cells, &inner));
    assert_eq!(cells[0].children.len(), 1);
}

#[test]
fn recovery_refuses_class_container() {
    let mut cells = vec![Symbol {
        name: "C".to_string(),
        kind: SymbolKind::Class,
        range: range(1, 3, 1, 8),
        full_range: range(1, 0, 20, 1),
        children: vec![],
    }];
    let inner = item(
        "inner",
        SymbolKind::Function,
        "f1",
        range(10, 0, 12, 1),
        range(10, 4, 10, 9),
    );
    assert!(!callgraph::recovery::try_insert_symbol(&mut cells, &inner));
    assert_eq!(cells.len(), 1);
    assert_eq!(cells[0].children.len(), 0);
}

#[test]
fn recovery_detaches_contained_sibling() {
    // a deeper symbol is already known; the recovered item sits between its
    // host and that symbol, so the known one becomes the new node's child
    let mut cells = vec![Symbol {
        name: "outer".to_string(),
        kind: SymbolKind::Function,
        range: range(1, 3, 1, 8),
        full_range: range(1, 0, 30, 1),
        children: vec![Symbol {
            name: "deep".to_string(),
            kind: SymbolKind::Function,
            range: range(12, 8, 12, 12),
            full_range: range(12, 0, 14, 1),
            children: vec![],
        }],
    }];
    let mid = item(
        "mid",
        SymbolKind::Function,
        "f1",
        range(10, 0, 20, 1),
        range(10, 4, 10, 7),
    );
    assert!(callgraph::recovery::try_insert_symbol(&mut cells, &mid));
    assert_eq!(cells[0].children.len(), 1);
    assert_eq!(cells[0].children[0].name, "mid");
    assert_eq!(cells[0].children[0].children.len(), 1);
    assert_eq!(cells[0].children[0].children[0].name, "deep");
}

#[test]
fn filtered_out_callee_yields_no_edges() {
    let mut g = GraphGenerator::new(String::new(), "", true);
    let outline = vec![
        doc_symbol("caller", SymbolKind::Function, range(1, 0, 4, 1), range(1, 3, 1, 9), vec![]),
        doc_symbol("v", SymbolKind::Variable, range(6, 0, 6, 10), range(6, 4, 6, 5), vec![]),
    ];
    assert!(g.add_file("f.go".to_string(), outline));
    // the callee at v's address was dropped by policy filtering
    g.add_incoming_calls(
        "f.go".to_string(),
        pos(6, 4),
        vec![CallHierarchyIncomingCall {
            from: item("caller", SymbolKind::Function, "f.go", range(1, 0, 4, 1), range(1, 3, 1, 9)),
            from_ranges: vec![],
        }],
    );
    let graph = g.gen_graph();
    assert_eq!(graph.relations.len(), 0);
}

#[test]
fn same_pair_from_two_mechanisms_is_one_edge() {
    let mut g = GraphGenerator::new(String::new(), "", false);
    let outline = vec![
        doc_symbol("a", SymbolKind::Function, range(1, 0, 4, 1), range(1, 3, 1, 4), vec![]),
        doc_symbol("b", SymbolKind::Function, range(6, 0, 9, 1), range(6, 3, 6, 4), vec![]),
    ];
    assert!(g.add_file("f.go".to_string(), outline));
    // incoming for b names caller a; outgoing for a names callee b
    g.add_incoming_calls(
        "f.go".to_string(),
        pos(6, 3),
        vec![CallHierarchyIncomingCall {
            from: item("a", SymbolKind::Function, "f.go", range(1, 0, 4, 1), range(1, 3, 1, 4)),
            from_ranges: vec![],
        }],
    );
    g.add_outgoing_calls(
        "f.go".to_string(),
        pos(1, 3),
        vec![CallHierarchyOutgoingCall {
            to: item("b", SymbolKind::Function, "f.go", range(6, 0, 9, 1), range(6, 3, 6, 4)),
            from_ranges: vec![],
        }],
    );
    let graph = g.gen_graph();
    assert_eq!(graph.relations.len(), 1);
    let r = &graph.relations[0];
    assert_eq!((r.from.file_id, r.from.line, r.from.character), (1, 1, 3));
    assert_eq!((r.to.file_id, r.to.line, r.to.character), (1, 6, 3));
}

#[test]
fn directory_clustering_matches_path_nesting() {
    let mut g = GraphGenerator::new("a".to_string(), "Go", true);
    let f = |name: &str| {
        vec![doc_symbol(name, SymbolKind::Function, range(1, 0, 2, 1), range(1, 3, 1, 8), vec![])]
    };
    assert!(g.add_file("a/b/x.go".to_string(), f("x")));
    assert!(g.add_file("a/b/c/y.go".to_string(), f("y")));
    assert!(g.add_file("a/z.go".to_string(), f("z")));

    let groups = g.subgraphs();
    // the root group `a` is stripped; z joins no group
    assert_eq!(groups.len(), 1);
    assert_eq!(groups[0].title, "b");
    assert_eq!(groups[0].nodes, vec![1u32]);
    assert_eq!(groups[0].subgraphs.len(), 1);
    assert_eq!(groups[0].subgraphs[0].title, "c");
    assert_eq!(groups[0].subgraphs[0].nodes, vec![2u32]);
    assert_eq!(groups[0].subgraphs[0].subgraphs.len(), 0);
}

#[test]
fn end_to_end_recovers_caller_and_emits_edge() {
    let mut g = GraphGenerator::new(String::new(), "", false);
    let outline = vec![doc_symbol(
        "outer",
        SymbolKind::Function,
        range(1, 0, 20, 1),
        range(1, 3, 1, 8),
        vec![],
    )];
    assert!(g.add_file("f1".to_string(), outline));
    g.add_incoming_calls(
        "f1".to_string(),
        pos(1, 3),
        vec![CallHierarchyIncomingCall {
            from: item(
                "inner",
                SymbolKind::Function,
                "f1",
                range(10, 0, 12, 1),
                range(10, 4, 10, 9),
            ),
            from_ranges: vec![],
        }],
    );
    let graph = g.gen_graph();
    assert_eq!(graph.relations.len(), 1);
    let r = &graph.relations[0];
    assert!(matches!(r.kind, RelationKind::Call));
    assert_eq!((r.from.file_id, r.from.line, r.from.character), (1, 10, 4));
    assert_eq!((r.to.file_id, r.to.line, r.to.character), (1, 1, 3));
    assert_eq!(graph.files.len(), 1);
    assert_eq!(graph.files[0].symbols[0].children.len(), 1);
    assert_eq!(graph.files[0].symbols[0].children[0].name, "inner");

    // the recovered symbol is retained for later passes
    let again = g.gen_graph();
    assert_eq!(again.files[0].symbols[0].children.len(), 1);
    assert_eq!(again.relations.len(), 1);
}

#[test]
fn outgoing_callee_is_not_recovered() {
    let mut g = GraphGenerator::new(String::new(), "", false);
    let outline = vec![doc_symbol(
        "outer",
        SymbolKind::Function,
        range(1, 0, 20, 1),
        range(1, 3, 1, 8),
        vec![],
    )];
    assert!(g.add_file("f1".to_string(), outline));
    // the callee is nested inside outer but unknown: no recovery on this side
    g.add_outgoing_calls(
        "f1".to_string(),
        pos(1, 3),
        vec![CallHierarchyOutgoingCall {
            to: item(
                "inner",
                SymbolKind::Function,
                "f1",
                range(10, 0, 12, 1),
                range(10, 4, 10, 9),
            ),
            from_ranges: vec![],
        }],
    );
    let graph = g.gen_graph();
    assert_eq!(graph.relations.len(), 0);
    assert_eq!(graph.files[0].symbols[0].children.len(), 0);
}

#[test]
fn implementation_edges_point_at_interface() {
    let mut g = GraphGenerator::new(String::new(), "Go", true);
    let iface = vec![doc_symbol(
        "Shape",
        SymbolKind::Interface,
        range(1, 0, 5, 1),
        range(1, 5, 1, 10),
        vec![],
    )];
    let imp = vec![doc_symbol(
        "Circle",
        SymbolKind::Struct,
        range(1, 0, 8, 1),
        range(1, 5, 1, 11),
        vec![],
    )];
    assert!(g.add_file("shape.go".to_string(), iface));
    assert!(g.add_file("circle.go".to_string(), imp));
    g.add_interface_implementations(
        "shape.go".to_string(),
        pos(1, 5),
        vec![callgraph::types::Location {
            uri: Uri { path: "circle.go".to_string() },
            range: range(1, 5, 1, 11),
        }],
    );
    let graph = g.gen_graph();
    assert_eq!(graph.relations.len(), 1);
    let r = &graph.relations[0];
    assert!(matches!(r.kind, RelationKind::Impl));
    assert_eq!(r.from.file_id, 2);
    assert_eq!(r.to.file_id, 1);
}

#[test]
fn rust_policy_drops_tests_module_and_constants() {
    let mut g = GraphGenerator::new(String::new(), "Rust", true);
    let outline = vec![
        doc_symbol("main", SymbolKind::Function, range(1, 0, 4, 1), range(1, 3, 1, 7), vec![]),
        doc_symbol("LIMIT", SymbolKind::Constant, range(6, 0, 6, 20), range(6, 6, 6, 11), vec![]),
        doc_symbol("tests", SymbolKind::Module, range(8, 0, 20, 1), range(8, 4, 8, 9), vec![]),
    ];
    assert!(g.add_file("m.rs".to_string(), outline));
    let graph = g.gen_graph();
    assert_eq!(graph.files[0].symbols.len(), 1);
    assert_eq!(graph.files[0].symbols[0].name, "main");
}

#[test]
fn jsts_policy_drops_callback_functions() {
    let mut g = GraphGenerator::new(String::new(), "TypeScript", true);
    let outline = vec![
        doc_symbol("run", SymbolKind::Function, range(1, 0, 4, 1), range(1, 9, 1, 12), vec![]),
        doc_symbol(
            "setTimeout() callback",
            SymbolKind::Function,
            range(6, 0, 9, 1),
            range(6, 4, 6, 25),
            vec![],
        ),
    ];
    assert!(g.add_file("m.ts".to_string(), outline));
    let graph = g.gen_graph();
    assert_eq!(graph.files[0].symbols.len(), 1);
    assert_eq!(graph.files[0].symbols[0].name, "run");
}

#[test]
fn interface_members_survive_default_filter() {
    let mut g = GraphGenerator::new(String::new(), "Go", true);
    let outline = vec![doc_symbol(
        "Shape",
        SymbolKind::Interface,
        range(1, 0, 5, 1),
        range(1, 5, 1, 10),
        vec![
            doc_symbol("Area", SymbolKind::Method, range(2, 0, 2, 20), range(2, 4, 2, 8), vec![]),
            doc_symbol("name", SymbolKind::Field, range(3, 0, 3, 20), range(3, 4, 3, 8), vec![]),
        ],
    )];
    assert!(g.add_file("shape.go".to_string(), outline));
    let graph = g.gen_graph();
    assert_eq!(graph.files[0].symbols[0].children.len(), 2);

    // the same field outside an interface is dropped
    let mut g2 = GraphGenerator::new(String::new(), "Go", true);
    let outline2 = vec![doc_symbol(
        "Circle",
        SymbolKind::Struct,
        range(1, 0, 5, 1),
        range(1, 5, 1, 11),
        vec![doc_symbol("r", SymbolKind::Field, range(2, 0, 2, 10), range(2, 4, 2, 5), vec![])],
    )];
    assert!(g2.add_file("c.go".to_string(), outline2));
    let graph2 = g2.gen_graph();
    assert_eq!(graph2.files[0].symbols[0].children.len(), 0);
}

#[test]
fn unknown_query_paths_are_dropped_wholesale() {
    let mut g = GraphGenerator::new(String::new(), "", false);
    let outline =
        vec![doc_symbol("f", SymbolKind::Function, range(1, 0, 4, 1), range(1, 3, 1, 4), vec![])];
    assert!(g.add_file("known".to_string(), outline));
    // the subject resolves to a path that was never registered with symbols
    g.add_incoming_calls(
        "unknown".to_string(),
        pos(1, 3),
        vec![CallHierarchyIncomingCall {
            from: item("f", SymbolKind::Function, "known", range(1, 0, 4, 1), range(1, 3, 1, 4)),
            from_ranges: vec![],
        }],
    );
    let graph = g.gen_graph();
    assert_eq!(graph.relations.len(), 0);
}

#[test]
fn edge_css_class_names() {
    assert_eq!(callgraph::graph::EdgeCssClass::Impl.to_str(), "impl");
}

#[test]
fn style_table_matches_kinds() {
    let p = callgraph::lang::language_handler("Go");
    let s = p.symbol_style(&SymbolKind::Interface);
    assert!(s.rounded);
    assert_eq!(s.border, Some(0));
    assert_eq!(s.icon, None);
    let s = p.symbol_style(&SymbolKind::Struct);
    assert_eq!(s.icon, Some('S'));
    let s = p.symbol_style(&SymbolKind::Function);
    assert!(s.rounded);
    assert_eq!(s.icon, None);
}

#[test]
fn no_file_is_excluded_by_current_policies() {
    for tag in ["Go", "Rust", "TypeScript", "anything"] {
        let g = GraphGenerator::new(String::new(), tag, true);
        assert!(!g.should_filter_out_file("a/b/c.go"));
    }
}

#[test]
fn escape_html_replaces_markup_characters() {
    assert_eq!(callgraph::graph::escape_html("a&b"), "a&amp;b");
    assert_eq!(callgraph::graph::escape_html("\"x\" <y>"), "&quot;x&quot; &lt;y&gt;");
    assert_eq!(callgraph::graph::escape_html("plain"), "plain");
    assert_eq!(callgraph::graph::escape_html(""), "");
}

#[test]
fn highlight_marks_registered_files_only() {
    let mut g = GraphGenerator::new(String::new(), "", false);
    let outline =
        vec![doc_symbol("f", SymbolKind::Function, range(1, 0, 4, 1), range(1, 3, 1, 4), vec![])];
    assert!(g.add_file("known".to_string(), outline));
    g.highlight("known".to_string(), pos(1, 3));
    g.highlight("known".to_string(), pos(1, 3));
    g.highlight("unknown".to_string(), pos(1, 3));
    assert_eq!(g.highlights.len(), 1);
    assert_eq!(g.highlights[0].0, 1);
    assert_eq!(g.highlights[0].1, vec![pos(1, 3)]);
}

#[test]
fn language_handler_picks_rule_sets() {
    assert_eq!(callgraph::lang::language_handler("Go"), callgraph::lang::LanguagePolicy::Go);
    assert_eq!(callgraph::lang::language_handler("Rust"), callgraph::lang::LanguagePolicy::Rust);
    assert_eq!(
        callgraph::lang::language_handler("TypeScript"),
        callgraph::lang::LanguagePolicy::JsTs
    );
    assert_eq!(
        callgraph::lang::language_handler("JavaScript JSX"),
        callgraph::lang::LanguagePolicy::JsTs
    );
    assert_eq!(
        callgraph::lang::language_handler("COBOL"),
        callgraph::lang::LanguagePolicy::Default
    );
}

#[test]
fn registry_lookup_and_addresses() {
    let mut g = GraphGenerator::new(String::new(), "", false);
    let outline = vec![doc_symbol(
        "outer",
        SymbolKind::Function,
        range(1, 0, 20, 1),
        range(1, 3, 1, 8),
        vec![],
    )];
    assert!(g.add_file("f1".to_string(), outline));
    assert_eq!(g.lookup(&"f1".to_string()), Some(1));
    assert_eq!(g.lookup(&"f2".to_string()), None);

    let a = g.lookup_address(&"f1".to_string(), pos(1, 3)).unwrap();
    assert_eq!((a.file_id, a.line, a.character), (1, 1, 3));
    assert!(g.lookup_address(&"f2".to_string(), pos(1, 3)).is_none());

    let addrs = g.all_addresses();
    assert_eq!(addrs.len(), 1);
    assert_eq!((addrs[0].file_id, addrs[0].line, addrs[0].character), (1, 1, 3));

    // recovery through the registry: the new address joins the set
    let inner = item(
        "inner",
        SymbolKind::Function,
        "f1",
        range(10, 0, 12, 1),
        range(10, 4, 10, 9),
    );
    assert!(g.insert_recovered(&"f1".to_string(), &inner));
    let addrs = g.all_addresses();
    assert_eq!(addrs.len(), 2);
    assert!(!g.insert_recovered(&"f2".to_string(), &inner));
}

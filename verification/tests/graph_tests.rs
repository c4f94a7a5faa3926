use yantra::graph::{
    community_label, compute_communities, compute_connectivity, compute_hubs, compute_stats,
    detect_communities, edge_for, export_focused, export_graph, focused_ids, is_test_symbol,
    palette_color, ConnectivityFacts, EdgeDetails, GraphCache, SeedSource, SymbolDetails,
};
use yantra::seeds::SeedExtractor;
use yantra::subgraph::{format_single_symbol, render_subgraph_text};
use yantra::extraction::{collect_candidates, matched_expected_count, SubgraphPruner, TaskSpec};
use yantra::grounding::{
    get_lifecycle_phase, RenderedSubgraph, SubgraphManifest, SymbolAllowlistVerifier,
};

fn symbol(id: &str, name: &str, file_path: &str, score: i32) -> SymbolDetails {
    SymbolDetails {
        symbol_id: id.to_owned(),
        name: name.to_owned(),
        kind: "function".to_owned(),
        start_line: 1,
        signature: None,
        docstring: None,
        connectivity_score: score,
        file_path: file_path.to_owned(),
        file_id: format!("file_{id}"),
    }
}

fn edge(from: &str, to: &str) -> EdgeDetails {
    EdgeDetails {
        from_id: from.to_owned(),
        to_id: to.to_owned(),
        edge_type: "CALLS".to_owned(),
        weight: 1,
    }
}

#[test]
fn community_label_uses_first_meaningful_segment() {
    assert_eq!(community_label("crates/forge-core/src/lib.rs"), "crates");
    assert_eq!(community_label("src/main.rs"), "main.rs");
    assert_eq!(community_label("./hidden/foo.rs"), "hidden");
}

#[test]
fn community_label_falls_back_to_root() {
    assert_eq!(community_label("src/.git/"), "root");
    assert_eq!(community_label(""), "root");
    assert_eq!(community_label("src\\win\\a.rs"), "win");
}

#[test]
fn palette_color_deterministic() {
    let a = palette_color("crates");
    let b = palette_color("crates");
    assert_eq!(a, b);
}

#[test]
fn palette_color_follows_the_string_hash() {
    assert_eq!(palette_color(""), "#f59e0b");
    assert_eq!(palette_color("a"), "#0ea5e9");
    assert_eq!(palette_color("b"), "#f59e0b");
    assert_eq!(palette_color("crates"), "#14b8a6");
}

#[test]
fn edge_for_copies_the_edge() {
    let e = EdgeDetails { from_id: "a".into(), to_id: "b".into(), edge_type: "IMPORTS".into(), weight: 4 };
    let json = edge_for(&e);
    assert_eq!((json.from.as_str(), json.to.as_str(), json.edge_type.as_str(), json.weight), ("a", "b", "IMPORTS", 4));
}

#[test]
fn seed_source_names() {
    assert_eq!(SeedSource::Semantic.as_str(), "semantic");
    assert_eq!(SeedSource::Forced.as_str(), "forced");
    assert_eq!(SeedSource::Name.as_str(), "name");
}

#[test]
fn graph_stats_count_distinct_communities_and_files() {
    let cache = GraphCache {
        symbols: vec![
            symbol("a", "a", "crates/x/src/a.rs", 1),
            symbol("b", "b", "crates/x/src/a.rs", 2),
            symbol("c", "c", "src/main.rs", 3),
        ],
        edges: vec![edge("a", "b"), edge("b", "c")],
    };
    let stats = compute_stats(&cache);
    assert_eq!(stats.total_symbols, 3);
    assert_eq!(stats.total_edges, 4);
    assert_eq!(stats.community_count, 2);
    assert_eq!(stats.file_count, 2);
}

#[test]
fn test_export_focused_zero_hops_returns_at_most_one_node() {
    let cache = GraphCache {
        symbols: vec![symbol("a", "a", "a.rs", 0), symbol("b", "b", "b.rs", 0)],
        edges: vec![edge("a", "b")],
    };
    assert_eq!(focused_ids(&cache, "a", 0), vec!["a".to_owned()]);
}

#[test]
fn test_export_focused_hops_monotonically_increases_nodes() {
    let cache = GraphCache {
        symbols: vec![
            symbol("a", "a", "a.rs", 0),
            symbol("b", "b", "b.rs", 0),
            symbol("c", "c", "c.rs", 0),
            symbol("d", "d", "d.rs", 0),
        ],
        edges: vec![edge("a", "b"), edge("c", "b"), edge("c", "d")],
    };
    let mut previous = 0;
    for hops in 0..4 {
        let ids = focused_ids(&cache, "a", hops);
        assert!(ids.len() >= previous);
        previous = ids.len();
    }
    let mut two = focused_ids(&cache, "a", 2);
    two.sort();
    assert_eq!(two, vec!["a", "b", "c"]);
    assert_eq!(focused_ids(&cache, "a", 3).len(), 4);
}

#[test]
fn test_community_count_not_greater_than_node_count() {
    let cache = GraphCache { symbols: vec![], edges: vec![] };
    let communities = detect_communities(&cache);
    assert!(communities.len() <= cache.symbols.len());
}

#[test]
fn test_isolated_nodes_become_singleton_communities() {
    let cache = GraphCache {
        symbols: vec![
            symbol("sym_a", "alpha", "crates/a/src/lib.rs", 0),
            symbol("sym_b", "beta", "crates/b/src/lib.rs", 0),
        ],
        edges: vec![],
    };
    let communities = detect_communities(&cache);
    assert_eq!(communities.len(), 2);
    assert!(communities.len() <= cache.symbols.len());
    assert_eq!(communities[0], ("sym_a".to_owned(), "sym_a".to_owned()));
    assert_eq!(communities[1], ("sym_b".to_owned(), "sym_b".to_owned()));
}

#[test]
fn neighbours_vote_for_communities() {
    let cache = GraphCache {
        symbols: vec![
            symbol("a", "a", "a.rs", 0),
            symbol("b", "b", "b.rs", 0),
            symbol("c", "c", "c.rs", 0),
        ],
        edges: vec![edge("a", "b"), edge("c", "b")],
    };
    let communities = detect_communities(&cache);
    assert_eq!(communities[0].1, "b");
    assert_eq!(communities[1].1, "b");
    assert_eq!(communities[2].1, "b");
}

#[test]
fn test_compute_connectivity() {
    let plain = ConnectivityFacts {
        name_and_path: None,
        file_id: Some("file_a_hash".to_owned()),
        calls_in: 1,
        calls_out: 1,
        direct_imports: 1,
        file_imports: 1,
    };
    assert_eq!(compute_connectivity(&plain), 7);
    let test_symbol = ConnectivityFacts {
        name_and_path: None,
        file_id: Some("file_test.rs".to_owned()),
        calls_in: 1,
        calls_out: 1,
        direct_imports: 1,
        file_imports: 0,
    };
    assert_eq!(compute_connectivity(&test_symbol), 2);
}

#[test]
fn test_symbols_are_recognised() {
    assert!(is_test_symbol("Test_Parse", "src/lib.rs"));
    assert!(is_test_symbol("parse_test", "src/lib.rs"));
    assert!(is_test_symbol("helper", "crates/x/tests/common.rs"));
    assert!(is_test_symbol("helper", "crates\\x\\Benches\\b.rs"));
    assert!(is_test_symbol("helper", "src/parser.test.ts"));
    assert!(!is_test_symbol("latest", "src/contest.rs"));
}

#[test]
fn lifecycle_phases_follow_path_words() {
    assert_eq!(get_lifecycle_phase("crates/forge-agents/src/lib.rs"), "Runtime");
    assert_eq!(get_lifecycle_phase("crates/forge-stvp/src/validation.rs"), "PreFlight");
    assert_eq!(get_lifecycle_phase("crates/forge-obs/src/lib.rs"), "Observability");
    assert_eq!(get_lifecycle_phase("crates/forge-core/src/db.rs"), "Persistence");
    assert_eq!(get_lifecycle_phase("CRATES/FORGE-CLI/x.rs"), "Runtime");
}

fn verifier_cache() -> GraphCache {
    GraphCache {
        symbols: vec![
            symbol("VerifierAgent", "VerifierAgent", "crates/forge-agents/src/verifier_agent.rs", 5),
            symbol(
                "CodebaseRealityValidator",
                "CodebaseRealityValidator",
                "crates/forge-stvp/src/validation.rs",
                10,
            ),
        ],
        edges: vec![],
    }
}

#[test]
fn test_verify_symbol_allowlist() {
    let graph_cache = verifier_cache();
    let rendered_subgraph = RenderedSubgraph {
        text: String::new(),
        included_nodes: vec!["VerifierAgent".to_owned()],
        token_cost: 0,
        manifest: SubgraphManifest { nodes: vec![] },
    };
    let unverified_symbol_references = SymbolAllowlistVerifier::verify(
        &rendered_subgraph,
        &graph_cache,
        "We should look at `VerifierAgent` and `SomeHallucinatedSymbol` in `crates/forge-cli/src/main.rs`.",
    );
    assert!(unverified_symbol_references.contains(&"SomeHallucinatedSymbol".to_string()));
    assert!(!unverified_symbol_references.contains(&"VerifierAgent".to_string()));
}

#[test]
fn verify_lists_unverified_references_sorted_once() {
    let graph_cache = verifier_cache();
    let rendered_subgraph = RenderedSubgraph {
        text: String::new(),
        included_nodes: vec!["VerifierAgent".to_owned()],
        token_cost: 0,
        manifest: SubgraphManifest { nodes: vec![] },
    };
    let unverified = SymbolAllowlistVerifier::verify(
        &rendered_subgraph,
        &graph_cache,
        "See `zed::Ghost`, `Vec`, `verifier_agent.rs`, `Ghost` and src/auth/jwt.rs and `yantra::VerifierAgent`.",
    );
    assert_eq!(unverified, vec!["Ghost", "src/auth/jwt.rs", "zed::Ghost"]);
}

#[test]
fn test_cross_crate_conflations() {
    let graph_cache = verifier_cache();
    let rendered_subgraph = RenderedSubgraph {
        text: String::new(),
        included_nodes: vec!["VerifierAgent".to_owned(), "CodebaseRealityValidator".to_owned()],
        token_cost: 0,
        manifest: SubgraphManifest { nodes: vec![] },
    };
    let cross_crate_conflation_warnings = SymbolAllowlistVerifier::check_cross_crate_conflations(
        &rendered_subgraph,
        &graph_cache,
        "The `VerifierAgent` validates the workspace. The `CodebaseRealityValidator` will run the scheduler.",
    );
    assert!(cross_crate_conflation_warnings
        .iter()
        .any(|warning_message| warning_message.contains("VerifierAgent")
            && warning_message.contains("validate")));
    assert!(cross_crate_conflation_warnings
        .iter()
        .any(|warning_message| warning_message.contains("CodebaseRealityValidator")
            && warning_message.contains("run")));
    assert_eq!(
        cross_crate_conflation_warnings[0],
        "Symbol `VerifierAgent` (Runtime) is cited near PreFlight concepts like \"validate\""
    );
}

fn two_hub_cache() -> GraphCache {
    GraphCache {
        symbols: vec![
            symbol("sym_low", "low", "crates/a/src/a.rs", 3),
            symbol("sym_high", "high", "crates/b/src/b.rs", 42),
        ],
        edges: vec![],
    }
}

#[test]
fn compute_hubs_sorts_by_connectivity_descending() {
    let graph_cache = two_hub_cache();
    let hubs = compute_hubs(&graph_cache, 50);
    assert_eq!(hubs.len(), 2);
    assert_eq!(hubs[0].name, "high");
    assert_eq!(hubs[0].connectivity_score, 42);
    assert_eq!(hubs[1].name, "low");
}

#[test]
fn compute_hubs_respects_limit() {
    let graph_cache = two_hub_cache();
    let hubs = compute_hubs(&graph_cache, 1);
    assert_eq!(hubs.len(), 1);
    assert_eq!(hubs[0].name, "high");
}

#[test]
fn compute_hubs_breaks_ties_by_name() {
    let cache = GraphCache {
        symbols: vec![symbol("1", "zeta", "z.rs", 5), symbol("2", "alpha", "a.rs", 5), symbol("3", "mid", "m.rs", 7)],
        edges: vec![],
    };
    let names: Vec<String> = compute_hubs(&cache, 10).into_iter().map(|h| h.name).collect();
    assert_eq!(names, vec!["mid", "alpha", "zeta"]);
}

#[test]
fn compute_communities_counts_and_ranks() {
    let cache = GraphCache {
        symbols: vec![
            symbol("1", "a", "crates/x/a.rs", 0),
            symbol("2", "b", "src/main.rs", 0),
            symbol("3", "c", "crates/y/c.rs", 0),
            symbol("4", "d", "docs/d.rs", 0),
        ],
        edges: vec![],
    };
    assert_eq!(
        compute_communities(&cache),
        vec![("crates".to_owned(), 2), ("docs".to_owned(), 1), ("main.rs".to_owned(), 1)]
    );
}

#[test]
fn export_graph_sorts_nodes_and_deduplicates_edges() {
    let cache = GraphCache {
        symbols: vec![symbol("b", "bee", "crates/x/b.rs", 2), symbol("a", "ay", "crates/x/a.rs", 1)],
        edges: vec![edge("b", "a"), edge("b", "a"), edge("a", "b"), edge("a", "zz")],
    };
    let graph = export_graph(&cache);
    let ids: Vec<&str> = graph.nodes.iter().map(|n| n.id.as_str()).collect();
    assert_eq!(ids, vec!["a", "b"]);
    assert_eq!(graph.nodes[0].label, "ay");
    assert_eq!(graph.nodes[0].color, palette_color(&graph.nodes[0].community));
    let pairs: Vec<(&str, &str)> = graph.edges.iter().map(|e| (e.from.as_str(), e.to.as_str())).collect();
    assert_eq!(pairs, vec![("a", "b"), ("b", "a")]);
}

#[test]
fn test_export_focused_nonexistent_id_returns_error() {
    let cache = two_hub_cache();
    assert_eq!(
        export_focused(&cache, "missing", 1).err(),
        Some("focus symbol missing not in cache".to_owned())
    );
    assert!(export_focused(&cache, "  ", 1).is_err());
    let focused = export_focused(&cache, "sym_low", 0).unwrap();
    assert_eq!(focused.nodes.len(), 1);
}

#[test]
fn seeds_prefer_forced_then_semantic_then_name() {
    let mut router = symbol("id_router", "Router", "src/b.rs", 0);
    router.file_id = "file_b".to_owned();
    let mut other = symbol("id_other", "other", "src/b.rs", 0);
    other.file_id = "file_b".to_owned();
    let cache = GraphCache {
        symbols: vec![symbol("id_parse", "parse_input", "src/a.rs", 0), router, other],
        edges: vec![],
    };
    let seeds = SeedExtractor::extract_seeds(
        &cache,
        "Fix parse_input before the Router runs",
        &vec!["id_parse".to_owned()],
        &vec!["id_router".to_owned()],
    );
    assert_eq!(
        seeds,
        vec![
            ("id_parse".to_owned(), SeedSource::Semantic),
            ("id_router".to_owned(), SeedSource::Forced),
            ("id_other".to_owned(), SeedSource::Forced),
        ]
    );
}

#[test]
fn format_single_symbol_strips_quotes_and_adds_docstring_summary() {
    let mut s = symbol("a", "run", "src/lib.rs", 1);
    s.kind = "\"function\"".to_owned();
    s.signature = Some("x: u32".to_owned());
    s.docstring = Some("  Runs it.  \r\nmore detail".to_owned());
    assert_eq!(format_single_symbol(&s, false), "src/lib.rs :: function run(x: u32)");
    assert_eq!(format_single_symbol(&s, true), "src/lib.rs :: function run(x: u32)  // Runs it.");
    s.signature = None;
    s.docstring = Some("   \nsecond line".to_owned());
    assert_eq!(format_single_symbol(&s, true), "src/lib.rs :: function run");
    s.kind = "\"\"".to_owned();
    assert_eq!(format_single_symbol(&s, false), "src/lib.rs ::  run");
}

#[test]
fn render_subgraph_text_orders_files_lines_and_calls() {
    let mut late = symbol("b", "late", "src/a.rs", 1);
    late.start_line = 30;
    let mut early = symbol("c", "early", "src/a.rs", 1);
    early.start_line = 5;
    let other = symbol("a", "main", "src/b.rs", 1);
    let symbols = vec![other, late, early];
    let mut imports = edge("a", "b");
    imports.edge_type = "IMPORTS".to_owned();
    let edges = vec![edge("c", "b"), edge("a", "c"), imports, edge("a", "missing")];
    assert_eq!(
        render_subgraph_text(&symbols, &edges, false),
        "src/a.rs :: function early\nsrc/a.rs :: function late\nsrc/b.rs :: function main\nearly -calls→ late\nmain -calls→ early\n"
    );
    assert_eq!(render_subgraph_text(&Vec::new(), &edges, true), "");
}

fn chain_cache() -> GraphCache {
    GraphCache {
        symbols: vec![
            symbol("a", "main", "src/a.rs", 5),
            symbol("b", "helper", "src/a.rs", 1),
            symbol("c", "util", "src/b.rs", 3),
            symbol("d", "deep", "src/c.rs", 2),
            symbol("e", "far", "src/d.rs", 9),
        ],
        edges: vec![edge("a", "b"), edge("b", "c"), edge("c", "d"), edge("d", "e")],
    }
}

fn line_costs(cache: &GraphCache) -> Vec<usize> {
    cache.symbols.iter().map(|s| format_single_symbol(s, true).len() / 4).collect()
}

#[test]
fn extraction_walks_at_most_three_hops() {
    let cache = chain_cache();
    let seeds = vec![("a".to_owned(), SeedSource::Forced)];
    let candidates = collect_candidates(&cache, &seeds, &line_costs(&cache), 1000);
    let nodes: Vec<(&str, usize, bool)> =
        candidates.nodes.iter().map(|n| (n.symbol_id.as_str(), n.hop_distance, n.retained)).collect();
    assert_eq!(nodes, vec![("a", 0, true), ("b", 1, true), ("c", 2, true), ("d", 3, true)]);
    assert_eq!(candidates.nodes[0].seed_source, Some(SeedSource::Forced));
    assert_eq!(candidates.nodes[1].seed_source, None);
    assert_eq!(candidates.symbols.len(), 4);
    assert_eq!(candidates.edges.len(), 3);
    assert!(candidates.edges.iter().all(|e| e.to_id != "e"));
}

#[test]
fn extraction_does_not_walk_through_symbols_over_budget() {
    let cache = chain_cache();
    let seeds = vec![("a".to_owned(), SeedSource::Forced), ("zz".to_owned(), SeedSource::Name)];
    let candidates = collect_candidates(&cache, &seeds, &line_costs(&cache), 5);
    let nodes: Vec<(&str, usize, bool)> =
        candidates.nodes.iter().map(|n| (n.symbol_id.as_str(), n.hop_distance, n.retained)).collect();
    assert_eq!(nodes, vec![("a", 0, true), ("b", 1, false)]);
    assert_eq!(candidates.symbols.len(), 1);
    assert_eq!(candidates.symbols[0].symbol_id, "a");
    assert_eq!(candidates.edges.len(), 1);
}

#[test]
fn forced_seed_survives_a_tiny_budget() {
    let cache = chain_cache();
    let seeds = vec![("a".to_owned(), SeedSource::Forced)];
    let candidates = collect_candidates(&cache, &seeds, &line_costs(&cache), 1000);
    let mut pruner = SubgraphPruner::new(&candidates, &seeds);
    let budget = 10;
    let (text, cost) = loop {
        let text = pruner.render(&candidates.edges);
        let cost = text.split_whitespace().count();
        if pruner.after_count(cost, budget) {
            break (text, cost);
        }
    };
    assert_eq!(text, "src/a.rs :: function main\nsrc/b.rs :: function util\n");
    assert_eq!(cost, 8);
    let rendered = pruner.finish(&candidates, text, cost);
    assert_eq!(rendered.included_nodes, vec!["a".to_owned(), "c".to_owned()]);
    assert_eq!(rendered.token_cost, 8);
    let retained: Vec<bool> = rendered.manifest.nodes.iter().map(|n| n.retained).collect();
    assert_eq!(retained, vec![true, false, true, false]);
}

#[test]
fn pruning_drops_docstrings_before_giving_up() {
    let mut cache = chain_cache();
    cache.symbols[0].docstring = Some("Entry point.".to_owned());
    let seeds = vec![("a".to_owned(), SeedSource::Forced)];
    let candidates = collect_candidates(&cache, &seeds, &line_costs(&cache), 0);
    assert_eq!(candidates.symbols.len(), 1);
    let mut pruner = SubgraphPruner::new(&candidates, &seeds);
    let first = pruner.render(&candidates.edges);
    assert_eq!(first, "src/a.rs :: function main  // Entry point.\n");
    assert!(!pruner.after_count(7, 1));
    let second = pruner.render(&candidates.edges);
    assert_eq!(second, "src/a.rs :: function main\n");
    assert!(pruner.after_count(4, 1));
}

#[test]
fn matched_expected_count_counts_included_names() {
    let cache = chain_cache();
    let included = vec!["a".to_owned(), "c".to_owned(), "zz".to_owned()];
    let task = TaskSpec {
        description: "greet".to_owned(),
        expected_symbols: vec!["main".to_owned(), "util".to_owned(), "helper".to_owned(), "main".to_owned()],
    };
    assert_eq!(matched_expected_count(&cache, &included, &task), 3);
    let none = TaskSpec { description: String::new(), expected_symbols: Vec::new() };
    assert_eq!(matched_expected_count(&cache, &included, &none), 0);
}

#[test]
fn graph_cache_build_keeps_last_row_per_identifier() {
    let rows = vec![
        symbol("a", "first", "src/a.rs", 1),
        symbol("  ", "blank", "src/a.rs", 1),
        symbol("b", "other", "src/b.rs", 2),
        symbol("a", "second", "src/a.rs", 3),
    ];
    let cache = GraphCache::build(rows, vec![edge("a", "b")]);
    let kept: Vec<(&str, &str)> = cache.symbols.iter().map(|s| (s.symbol_id.as_str(), s.name.as_str())).collect();
    assert_eq!(kept, vec![("b", "other"), ("a", "second")]);
    assert_eq!(cache.edges.len(), 1);
}

#[test]
fn focused_exports_keep_their_nodes_as_hops_grow() {
    let cache = GraphCache {
        symbols: vec![
            symbol("a", "a", "a.rs", 0),
            symbol("b", "b", "b.rs", 0),
            symbol("c", "c", "c.rs", 0),
            symbol("d", "d", "d.rs", 0),
        ],
        edges: vec![edge("a", "b"), edge("c", "b"), edge("c", "d")],
    };
    let zero = export_focused(&cache, "a", 0).unwrap();
    assert_eq!(zero.nodes.len(), 1);
    assert_eq!(zero.nodes[0].id, "a");
    let mut previous: Vec<String> = vec!["a".to_owned()];
    for hops in 1..4 {
        let ids: Vec<String> = export_focused(&cache, "a", hops).unwrap().nodes.iter().map(|n| n.id.clone()).collect();
        for id in &previous {
            assert!(ids.contains(id));
        }
        previous = ids;
    }
    assert_eq!(previous.len(), 4);
}

#[test]
fn unverified_references_judge_given_captures() {
    let graph_cache = verifier_cache();
    let rendered_subgraph = RenderedSubgraph {
        text: String::new(),
        included_nodes: vec!["VerifierAgent".to_owned()],
        token_cost: 0,
        manifest: SubgraphManifest { nodes: vec![] },
    };
    let backticks = Some(vec![
        Some("yantra::VerifierAgent".to_owned()),
        Some("Ghost".to_owned()),
        None,
        Some("Vec".to_owned()),
        Some("verifier_agent.rs".to_owned()),
        Some("Ghost".to_owned()),
    ]);
    let paths = Some(vec![Some("src/auth/jwt.rs".to_owned()), Some("crates/forge-agents/src/verifier_agent.rs".to_owned())]);
    let unverified = SymbolAllowlistVerifier::unverified_references(&rendered_subgraph, &graph_cache, backticks, paths);
    assert_eq!(unverified, vec!["Ghost", "src/auth/jwt.rs"]);
    let none = SymbolAllowlistVerifier::unverified_references(&rendered_subgraph, &graph_cache, None, None);
    assert!(none.is_empty());
}

#[test]
fn seeds_from_given_names_rank_reasons() {
    let mut router = symbol("id_router", "Router", "src/b.rs", 0);
    router.file_id = "file_b".to_owned();
    let cache = GraphCache {
        symbols: vec![symbol("id_parse", "parse_input", "src/a.rs", 0), router],
        edges: vec![],
    };
    let names = vec![Some("parse_input".to_owned()), None, Some("Router".to_owned()), Some("Missing".to_owned())];
    let seeds = SeedExtractor::seeds_from_names(&cache, &names, &vec!["id_router".to_owned()], &vec![]);
    assert_eq!(
        seeds,
        vec![("id_parse".to_owned(), SeedSource::Name), ("id_router".to_owned(), SeedSource::Semantic)]
    );
}

use yantra::edges::{derive_edges, like_match, EdgeRow, ImportRow, IndexedSymbol};
use yantra::indexing::{affected_symbols, innermost_caller, plan_file_update, update_score, SymbolRow};
use yantra::migrations::{pending_migrations, version_of};

fn row(id: &str, name: &str, start: usize, end: usize) -> SymbolRow {
    SymbolRow {
        id: id.to_owned(),
        name: name.to_owned(),
        kind: "\"Function\"".to_owned(),
        start_line: start,
        end_line: end,
        signature: None,
        docstring: None,
    }
}

fn sym(id: &str, name: &str, kind: &str, signature: Option<&str>, file_id: &str) -> IndexedSymbol {
    IndexedSymbol {
        id: id.to_owned(),
        name: name.to_owned(),
        kind: kind.to_owned(),
        signature: signature.map(|s| s.to_owned()),
        file_id: file_id.to_owned(),
    }
}

fn pair(a: &str, b: &str) -> (String, String) {
    (a.to_owned(), b.to_owned())
}

fn keys(edges: &[EdgeRow]) -> Vec<(String, String, String)> {
    let mut v: Vec<(String, String, String)> =
        edges.iter().map(|e| (e.from_id.clone(), e.to_id.clone(), e.edge_type.clone())).collect();
    v.sort();
    v
}

fn key(a: &str, b: &str, t: &str) -> (String, String, String) {
    (a.to_owned(), b.to_owned(), t.to_owned())
}

#[test]
fn file_update_deletes_vanished_symbols_once_and_writes_changed_ones() {
    let old_rows = vec![row("a", "alpha", 1, 5), row("b", "beta", 6, 9), row("b", "beta", 6, 9), row("c", "gamma", 10, 12)];
    let mut changed = row("c", "gamma", 10, 14);
    changed.docstring = Some("doc".to_owned());
    let new_symbols = vec![row("a", "alpha", 1, 5), changed, row("d", "delta", 15, 20)];
    let plan = plan_file_update(&old_rows, &new_symbols);
    assert_eq!(plan.delete_ids, vec!["b".to_owned()]);
    assert_eq!(plan.upsert, vec![1, 2]);
}

#[test]
fn file_update_of_an_unchanged_file_does_nothing() {
    let rows = vec![row("a", "alpha", 1, 5), row("b", "beta", 6, 9)];
    let plan = plan_file_update(&rows, &rows);
    assert!(plan.delete_ids.is_empty());
    assert!(plan.upsert.is_empty());
}

#[test]
fn file_update_compares_with_the_last_stored_row_of_an_identifier() {
    let old_rows = vec![row("a", "old", 1, 5), row("a", "alpha", 1, 5)];
    let plan = plan_file_update(&old_rows, &vec![row("a", "alpha", 1, 5)]);
    assert!(plan.upsert.is_empty());
    let plan = plan_file_update(&old_rows, &vec![row("a", "old", 1, 5)]);
    assert_eq!(plan.upsert, vec![0]);
}

#[test]
fn call_belongs_to_the_innermost_enclosing_symbol() {
    let symbols = vec![row("outer", "outer", 1, 50), row("inner", "inner", 10, 20), row("twin", "twin", 10, 20)];
    assert_eq!(innermost_caller(&symbols, 15), Some("inner".to_owned()));
    assert_eq!(innermost_caller(&symbols, 30), Some("outer".to_owned()));
    assert_eq!(innermost_caller(&symbols, 60), None);
    assert_eq!(innermost_caller(&symbols, 1), Some("outer".to_owned()));
}

#[test]
fn like_follows_sql_wildcards_and_ascii_case() {
    assert!(like_match("%src/lib.rs", "/repo/src/lib.rs"));
    assert!(like_match("%SRC/Lib.rs", "/repo/src/lib.rs"));
    assert!(like_match("%my_mod.py", "pkg/myXmod.py"));
    assert!(!like_match("%src/lib.rs", "/repo/src/lib.rsx"));
    assert!(like_match("%", ""));
    assert!(!like_match("_", ""));
    assert!(!like_match("%É.rs", "é.rs"));
}

#[test]
fn stored_import_names_decode_from_json() {
    let imp = ImportRow::from_stored("f1".to_owned(), "crate.util".to_owned(), "[\"helper\",\"Other\"]");
    assert_eq!(imp.imported_names, vec!["helper".to_owned(), "Other".to_owned()]);
    assert_eq!(imp.module, "crate.util");
    let broken = ImportRow::from_stored("f1".to_owned(), "crate.util".to_owned(), "not json");
    assert!(broken.imported_names.is_empty());
}

#[test]
fn rebuild_derives_call_import_implements_and_test_edges_once() {
    let calls = vec![pair("s_main", "s_helper"), pair("s_main", "s_helper")];
    let files = vec![pair("f_main", "/repo/src/main.rs"), pair("f_util", "/repo/crate/util.rs"), pair("f_tests", "/repo/tests/t.rs")];
    let symbols = vec![
        sym("s_main", "main", "\"Function\"", None, "f_main"),
        sym("s_helper", "helper", "\"Function\"", None, "f_util"),
        sym("s_trait", "Shape", "\"Trait\"", None, "f_util"),
        sym("s_struct", "Circle", "\"Struct\"", None, "f_util"),
        sym("s_impl", "impl", "\"Impl\"", Some("impl Shape for Circle<T>"), "f_util"),
        sym("s_test", "test_helper", "\"Function\"", None, "f_tests"),
        sym("s_orphan", "test_missing", "\"Function\"", None, "f_tests"),
    ];
    let imports = vec![
        ImportRow::from_stored("f_main".to_owned(), "crate.util".to_owned(), "[\"helper\",\"absent\"]"),
        ImportRow::from_stored("f_main".to_owned(), "nowhere".to_owned(), "[\"helper\"]"),
    ];
    let edges = derive_edges(&calls, &imports, &files, &symbols);
    let mut expected = vec![
        key("s_main", "s_helper", "CALLS"),
        key("f_main", "f_util", "IMPORTS"),
        key("f_main", "s_helper", "IMPORTS"),
        key("s_struct", "s_trait", "IMPLEMENTS"),
        key("s_impl", "s_struct", "IMPLEMENTS"),
        key("s_test", "s_helper", "TESTS"),
    ];
    expected.sort();
    assert_eq!(keys(&edges), expected);
    assert_eq!(edges.len(), 6);
}

#[test]
fn rebuild_needs_both_sides_of_an_impl_and_an_indexed_test_file() {
    let symbols = vec![
        sym("s_impl", "impl", "\"Impl\"", Some("impl Missing for Circle"), "f1"),
        sym("s_struct", "Circle", "\"Struct\"", None, "f1"),
        sym("s_test", "test_Circle", "\"Function\"", None, "f_gone"),
    ];
    let edges = derive_edges(&vec![], &vec![], &vec![pair("f1", "a.rs")], &symbols);
    assert!(edges.is_empty());
}

#[test]
fn rebuild_takes_the_first_matching_file_and_symbol() {
    let files = vec![pair("f_a", "x/Util.PY"), pair("f_b", "y/util.rs")];
    let symbols = vec![sym("s1", "run", "\"Function\"", None, "f_a"), sym("s2", "run", "\"Function\"", None, "f_a")];
    let imports = vec![ImportRow::from_stored("f_main".to_owned(), "util".to_owned(), "[\"run\"]")];
    let edges = derive_edges(&vec![], &imports, &files, &symbols);
    let mut expected = vec![key("f_main", "f_a", "IMPORTS"), key("f_main", "s1", "IMPORTS")];
    expected.sort();
    assert_eq!(keys(&edges), expected);
}

fn edge_row(from: &str, to: &str, edge_type: &str) -> EdgeRow {
    EdgeRow { from_id: from.to_owned(), to_id: to.to_owned(), edge_type: edge_type.to_owned() }
}

#[test]
fn affected_symbols_collect_neighbours_before_and_after_and_new_symbols() {
    let file_ids = vec!["a".to_owned(), "b".to_owned()];
    let before = vec![pair("a", "x"), pair("y", "b"), pair("p", "q"), pair("a", "x")];
    let after = vec![pair("b", "z"), pair("x", "a")];
    let new_ids = vec!["a".to_owned(), "n".to_owned()];
    let mut affected = affected_symbols(&file_ids, &before, &after, &new_ids);
    affected.sort();
    assert_eq!(affected, vec!["a", "n", "x", "y", "z"]);
}

#[test]
fn update_score_weighs_calls_and_imports() {
    let edges = vec![
        edge_row("c1", "s", "CALLS"),
        edge_row("s", "c2", "CALLS"),
        edge_row("s", "c3", "CALLS"),
        edge_row("f0", "s", "IMPORTS"),
        edge_row("f0", "f1", "IMPORTS"),
        edge_row("f2", "f1", "IMPORTS"),
        edge_row("s", "t", "TESTS"),
    ];
    assert_eq!(update_score(&edges, &"s".to_owned(), &"f1".to_owned()), 2 + 4 + 2 + 2);
    assert_eq!(update_score(&vec![], &"s".to_owned(), &"f1".to_owned()), 0);
}

#[test]
fn pending_migrations_skip_recorded_versions() {
    assert_eq!(pending_migrations(4, &vec![2, 9]), vec![0, 2, 3]);
    assert_eq!(pending_migrations(3, &vec![]), vec![0, 1, 2]);
    assert!(pending_migrations(2, &vec![1, 2]).is_empty());
    assert_eq!(version_of(0), 1);
    assert_eq!(version_of(41), 42);
}

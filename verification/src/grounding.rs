//! Grounding checks on answers about the codebase: which symbols and file
//! paths an answer cites that the extracted subgraph does not contain, and
//! which symbols it cites next to concepts of the other lifecycle phase.

use vstd::prelude::*;
use crate::diff::{insert_path_sorted, strictly_sorted, strings_view};
use crate::graph::{GraphCache, SeedSource, SymbolDetails, lemma_lookup_bounds, lookup, occurs, symbol_ids};
use crate::metrics::eq_ignore_ascii_case_spec;
use crate::sacred::{component_ranges, components};
use crate::text::{
    trim, trim_range, split_char, split_ranges,
    lemma_find_seq_bounds,
    chars_of, find_in_range, find_seq, lowercase_spec, range_equals, ranges_cover, string_of,
    string_of_all, to_ascii_lower, ascii_lower, to_lowercase,
};

verus! {

/// How a node of an extracted subgraph got there.
#[derive(Debug, Clone)]
pub struct NodeProvenance {
    pub symbol_id: String,
    pub seed_source: Option<SeedSource>,
    pub hop_distance: usize,
    pub retained: bool,
}

/// Provenance of every node an extraction visited.
#[derive(Debug, Clone)]
pub struct SubgraphManifest {
    pub nodes: Vec<NodeProvenance>,
}

/// A subgraph rendered for a prompt, with the symbols it includes.
#[derive(Debug, Clone)]
pub struct RenderedSubgraph {
    pub text: String,
    pub included_nodes: Vec<String>,
    pub token_cost: usize,
    pub manifest: SubgraphManifest,
}

/// What `regex::Regex::new(pattern)` followed by `captures_iter(text)`
/// yields: `None` when the pattern does not compile, else for each match in
/// order the text of capture group `group`, if that group took part.
pub uninterp spec fn regex_captures(pattern: Seq<char>, text: Seq<char>, group: nat) -> Option<Seq<Option<Seq<char>>>>;

/// Values of a sequence of optional strings.
pub open spec fn opt_texts(v: Seq<Option<String>>) -> Seq<Option<Seq<char>>> {
    v.map_values(
        |o: Option<String>|
            match o {
                Some(s) => Some(s@),
                None => None,
            },
    )
}

/// Compiles `pattern` with the `regex` crate and collects capture group
/// `group` of every match in `text` (`Regex::new`, `captures_iter`,
/// `Captures::get`). Claimed: the result is `regex_captures` of the
/// arguments, a function of them alone.
#[verifier::external_body]
pub(crate) fn capture_group(pattern: &str, text: &str, group: usize) -> (r: Option<Vec<Option<String>>>)
    ensures
        match r {
            Some(v) => regex_captures(pattern@, text@, group as nat) == Some(opt_texts(v@)),
            None => regex_captures(pattern@, text@, group as nat) is None,
        },
{
    match regex::Regex::new(pattern) {
        Ok(re) => Some(re.captures_iter(text).map(|caps| caps.get(group).map(|m| m.as_str().to_string())).collect()),
        Err(_) => None,
    }
}

/// Whether some word of `ws` occurs in `s`.
pub open spec fn any_occurs(s: Seq<char>, ws: Seq<Seq<char>>) -> bool {
    exists|i: int| 0 <= i < ws.len() && occurs(s, #[trigger] ws[i])
}

/// Path words of the runtime crates.
pub open spec fn runtime_path_words() -> Seq<Seq<char>> {
    seq![
        "forge-agents"@, "agents"@, "forge-orchestrator"@, "orchestrator"@, "forge-night"@, "night"@,
        "forge-sidecar"@, "sidecar"@, "forge-serve"@, "serve"@, "forge-cli"@, "cli"@, "forge-eval"@,
        "eval"@, "forge-router"@, "router"@, "forge-lsp"@, "lsp"@, "forge-tools"@, "tools"@,
        "forge-swarm"@, "swarm"@,
    ]
}

/// Path words of the preflight crates.
pub open spec fn preflight_path_words() -> Seq<Seq<char>> {
    seq!["forge-stvp"@, "stvp"@, "forge-verifier"@, "verifier"@]
}

/// Path words of the observability crates.
pub open spec fn observability_path_words() -> Seq<Seq<char>> {
    seq!["forge-obs"@, "obs"@, "tracing"@]
}

/// The lifecycle phase of a file, by words in its lowercased path.
pub open spec fn lifecycle_phase_spec(file_path: Seq<char>) -> Seq<char> {
    let l = lowercase_spec(file_path);
    if any_occurs(l, runtime_path_words()) {
        "Runtime"@
    } else if any_occurs(l, preflight_path_words()) {
        "PreFlight"@
    } else if any_occurs(l, observability_path_words()) {
        "Observability"@
    } else {
        "Persistence"@
    }
}

/// Whether some entry of `words` occurs in `v`.
fn any_word_occurs(v: &Vec<char>, words: &Vec<String>) -> (r: bool)
    ensures
        r == any_occurs(v@, strings_view(words@)),
{
    assert(v@.subrange(0, v@.len() as int) =~= v@);
    let mut i: usize = 0;
    while i < words.len()
        invariant
            i <= words@.len(),
            v@.subrange(0, v@.len() as int) == v@,
            forall|k: int| 0 <= k < i ==> !occurs(v@, #[trigger] strings_view(words@)[k]),
        decreases words@.len() - i,
    {
        let w = chars_of(words[i].as_str());
        assert(strings_view(words@)[i as int] == w@);
        if find_in_range(v, 0, v.len(), &w).is_some() {
            return true;
        }
        i = i + 1;
    }
    false
}

/// Strings of the given literals.
pub(crate) fn strings_from_literals(items: &[&str]) -> (r: Vec<String>)
    ensures
        r@.len() == items@.len(),
        forall|i: int| 0 <= i < items@.len() ==> (#[trigger] r@[i])@ == items@[i]@,
{
    strings_from(items)
}

/// Strings of the given literals.
fn strings_from(items: &[&str]) -> (r: Vec<String>)
    ensures
        r@.len() == items@.len(),
        forall|i: int| 0 <= i < items@.len() ==> (#[trigger] r@[i])@ == items@[i]@,
{
    let mut r: Vec<String> = Vec::new();
    let mut i: usize = 0;
    while i < items.len()
        invariant
            i <= items@.len(),
            r@.len() == i,
            forall|k: int| 0 <= k < i ==> (#[trigger] r@[k])@ == items@[k]@,
        decreases items@.len() - i,
    {
        r.push(String::from_str(items[i]));
        i = i + 1;
    }
    r
}

/// Classifies a file into the lifecycle phase its path names: `Runtime`,
/// `PreFlight`, `Observability` or `Persistence`.
pub fn get_lifecycle_phase(file_path: &str) -> (r: &'static str)
    ensures
        r@ == lifecycle_phase_spec(file_path@),
{
    let lowered = to_lowercase(file_path);
    let l = chars_of(lowered.as_str());
    let runtime = strings_from(
        &[
            "forge-agents", "agents", "forge-orchestrator", "orchestrator", "forge-night", "night",
            "forge-sidecar", "sidecar", "forge-serve", "serve", "forge-cli", "cli", "forge-eval",
            "eval", "forge-router", "router", "forge-lsp", "lsp", "forge-tools", "tools",
            "forge-swarm", "swarm",
        ],
    );
    assert(strings_view(runtime@) =~= runtime_path_words());
    let preflight = strings_from(&["forge-stvp", "stvp", "forge-verifier", "verifier"]);
    assert(strings_view(preflight@) =~= preflight_path_words());
    let observability = strings_from(&["forge-obs", "obs", "tracing"]);
    assert(strings_view(observability@) =~= observability_path_words());
    if any_word_occurs(&l, &runtime) {
        "Runtime"
    } else if any_word_occurs(&l, &preflight) {
        "PreFlight"
    } else if any_word_occurs(&l, &observability) {
        "Observability"
    } else {
        "Persistence"
    }
}

/// The part of `s` after the last `::` when `s` is split at `::` from the
/// left (`s.split("::").last()`).
pub open spec fn after_last_sep(s: Seq<char>) -> Seq<char>
    decreases s.len(),
{
    match find_seq(s, seq![':', ':']) {
        Some(k) => {
            proof {
                lemma_find_seq_bounds(s, seq![':', ':']);
            }
            after_last_sep(s.skip(k + 2))
        },
        None => s,
    }
}

/// The final component of a path (`Path::file_name`): none when the path
/// has no components or ends in `..`.
pub open spec fn file_name_spec(p: Seq<char>) -> Option<Seq<char>> {
    let cs = components(p);
    if cs.len() == 0 || cs.last() == seq!['.', '.'] {
        None
    } else {
        Some(cs.last())
    }
}

/// Position of the last `c` in `n`.
pub open spec fn last_index_of(n: Seq<char>, c: char) -> Option<int>
    decreases n.len(),
{
    if n.len() == 0 {
        None
    } else if n.last() == c {
        Some(n.len() - 1)
    } else {
        last_index_of(n.drop_last(), c)
    }
}

/// Whether the path's extension is `rs` in any ASCII case
/// (`Path::extension`: the part of the file name after its last dot, when
/// something precedes that dot).
pub open spec fn rs_extension(p: Seq<char>) -> bool {
    match file_name_spec(p) {
        Some(n) => match last_index_of(n, '.') {
            Some(k) => k > 0 && eq_ignore_ascii_case_spec(n.skip(k + 1), seq!['r', 's']),
            None => false,
        },
        None => false,
    }
}

/// Whether a cited reference reads as a file path.
pub open spec fn looks_like_path(c: Seq<char>) -> bool {
    occurs(c, seq!['/']) || occurs(c, seq!['\\']) || rs_extension(c)
}

/// Names of the language and the project that are never flagged.
pub open spec fn standard_exclusions() -> Seq<Seq<char>> {
    seq![
        "String"@, "Vec"@, "Result"@, "Option"@, "Some"@, "None"@, "Ok"@, "Err"@, "Self"@, "self"@,
        "u8"@, "u16"@, "u32"@, "u64"@, "u128"@, "usize"@, "i8"@, "i16"@, "i32"@, "i64"@, "i128"@,
        "isize"@, "f32"@, "f64"@, "bool"@, "char"@, "str"@, "Connection"@, "Mutex"@, "Arc"@,
        "Router"@, "commands"@, "main"@, "yantra"@, "run"@, "ask"@, "index"@, "status"@,
        "version"@, "task_id"@, "session_id"@, "span_id"@, "true"@, "false"@, "anyhow"@,
        "Result"@, "Error"@, "impl"@, "struct"@, "enum"@, "trait"@,
    ]
}

/// The names, file paths and file names of the included symbols found in
/// the graph, in the order of the inclusion list.
pub open spec fn allowed_lists(syms: Seq<SymbolDetails>, inc: Seq<Seq<char>>) -> (Seq<Seq<char>>, Seq<Seq<char>>, Seq<Seq<char>>)
    decreases inc.len(),
{
    if inc.len() == 0 {
        (seq![], seq![], seq![])
    } else {
        let prev = allowed_lists(syms, inc.drop_last());
        match lookup(symbol_ids(syms), inc.last()) {
            Some(j) => (
                prev.0.push(syms[j].name@),
                prev.1.push(syms[j].file_path@),
                match file_name_spec(syms[j].file_path@) {
                    Some(b) => prev.2.push(b),
                    None => prev.2,
                },
            ),
            None => prev,
        }
    }
}

/// A backticked reference is unverified when, after its last `::`, it is
/// not a standard name and is neither an included file (by path or file
/// name) nor an included symbol name, as it reads as a path or not.
pub open spec fn backtick_unverified(id: Seq<char>, al: (Seq<Seq<char>>, Seq<Seq<char>>, Seq<Seq<char>>)) -> bool {
    let c = after_last_sep(id);
    !standard_exclusions().contains(c) && if looks_like_path(c) {
        !al.1.contains(c) && !al.2.contains(c)
    } else {
        !al.0.contains(c)
    }
}

/// A bare path in the text is unverified when it is not an included file.
pub open spec fn path_unverified(c: Seq<char>, al: (Seq<Seq<char>>, Seq<Seq<char>>, Seq<Seq<char>>)) -> bool {
    looks_like_path(c) && !al.1.contains(c) && !al.2.contains(c)
}

/// The pattern of a backticked reference.
pub open spec fn backtick_pattern() -> Seq<char> {
    "`([^`\\s]+)`"@
}

/// The pattern of a bare path.
pub open spec fn bare_path_pattern() -> Seq<char> {
    "\\b[a-zA-Z0-9_\\-\\./]+\\.rs\\b|\\b[a-zA-Z0-9_\\-]+/[a-zA-Z0-9_\\-\\./]+\\b"@
}

/// Whether `q` is among the captured texts.
pub open spec fn captured(caps: Option<Seq<Option<Seq<char>>>>, q: Seq<char>) -> bool {
    match caps {
        Some(v) => v.contains(Some(q)),
        None => false,
    }
}

/// Values of the captures a pattern gave, `None` when it did not compile.
pub open spec fn opt_captures(o: Option<Vec<Option<String>>>) -> Option<Seq<Option<Seq<char>>>> {
    match o {
        Some(v) => Some(opt_texts(v@)),
        None => None,
    }
}

/// Among the captured backticked references `bt` and bare paths `pc`,
/// whether `q` is one that the subgraph does not ground.
pub open spec fn unverified_in(
    syms: Seq<SymbolDetails>,
    inc: Seq<Seq<char>>,
    bt: Option<Seq<Option<Seq<char>>>>,
    pc: Option<Seq<Option<Seq<char>>>>,
    q: Seq<char>,
) -> bool {
    let al = allowed_lists(syms, inc);
    (captured(bt, q) && backtick_unverified(q, al)) || (captured(pc, q) && path_unverified(q, al))
}

/// The references of an answer that the subgraph does not ground: each
/// backticked reference and each bare path that is unverified.
pub open spec fn unverified_spec(syms: Seq<SymbolDetails>, inc: Seq<Seq<char>>, answer: Seq<char>, q: Seq<char>) -> bool {
    unverified_in(syms, inc, regex_captures(backtick_pattern(), answer, 1), regex_captures(bare_path_pattern(), answer, 0), q)
}

proof fn lemma_push_opt_contains(s: Seq<Option<Seq<char>>>, x: Option<Seq<char>>, q: Option<Seq<char>>)
    ensures
        s.push(x).contains(q) <==> (s.contains(q) || x == q),
{
    if s.push(x).contains(q) {
        let k = choose|k: int| 0 <= k < s.push(x).len() && s.push(x)[k] == q;
        if k < s.len() {
            assert(s[k] == q);
        }
    }
    if s.contains(q) {
        let k = choose|k: int| 0 <= k < s.len() && s[k] == q;
        assert(s.push(x)[k] == q);
    }
    if x == q {
        assert(s.push(x)[s.len() as int] == q);
    }
}

/// Decides `after_last_sep`.
pub(crate) fn after_last_separator(v: &Vec<char>) -> (r: Vec<char>)
    ensures
        r@ == after_last_sep(v@),
{
    let sep = vec![':', ':'];
    assert(sep@ =~= seq![':', ':']);
    let mut start: usize = 0;
    assert(v@.subrange(0, v@.len() as int) =~= v@);
    loop
        invariant
            start <= v@.len(),
            sep@ == seq![':', ':'],
            after_last_sep(v@) == after_last_sep(v@.subrange(start as int, v@.len() as int)),
        decreases v@.len() - start,
    {
        match find_in_range(v, start, v.len(), &sep) {
            Some(k) => {
                let ghost t = v@.subrange(start as int, v@.len() as int);
                proof {
                    lemma_find_seq_bounds(t, sep@);
                }
                assert(t.skip(k - start + 2) =~= v@.subrange(k + 2, v@.len() as int));
                start = k + 2;
            },
            None => {
                let mut r: Vec<char> = Vec::new();
                let mut i = start;
                while i < v.len()
                    invariant
                        start <= i <= v@.len(),
                        r@ == v@.subrange(start as int, i as int),
                    decreases v@.len() - i,
                {
                    r.push(v[i]);
                    i = i + 1;
                    assert(r@ =~= v@.subrange(start as int, i as int));
                }
                return r;
            },
        }
    }
}

/// Decides `file_name_spec`.
fn file_name_of(v: &Vec<char>) -> (r: Option<Vec<char>>)
    ensures
        match file_name_spec(v@) {
            Some(n) => r matches Some(x) && x@ == n,
            None => r is None,
        },
{
    let comps = component_ranges(v);
    let n = comps.len();
    if n == 0 {
        return None;
    }
    let (a, b) = comps[n - 1];
    let dd = vec!['.', '.'];
    assert(dd@ =~= seq!['.', '.']);
    if range_equals(v, a, b, &dd) {
        return None;
    }
    let mut r: Vec<char> = Vec::new();
    let mut i = a;
    while i < b
        invariant
            a <= i <= b <= v@.len(),
            r@ == v@.subrange(a as int, i as int),
        decreases b - i,
    {
        r.push(v[i]);
        i = i + 1;
        assert(r@ =~= v@.subrange(a as int, i as int));
    }
    Some(r)
}

/// Decides `rs_extension`.
fn has_rs_extension(v: &Vec<char>) -> (r: bool)
    ensures
        r == rs_extension(v@),
{
    match file_name_of(v) {
        None => false,
        Some(n) => {
            let mut k = n.len();
            let ghost nv = n@;
            assert(nv.take(k as int) =~= nv);
            while k > 0 && n[k - 1] != '.'
                invariant
                    k <= n@.len(),
                    nv == n@,
                    last_index_of(nv, '.') == last_index_of(nv.take(k as int), '.'),
                decreases k,
            {
                assert(nv.take(k as int).drop_last() =~= nv.take(k - 1));
                k = k - 1;
            }
            if k == 0 {
                assert(nv.take(0) =~= Seq::<char>::empty());
                return false;
            }
            assert(nv.take(k as int).last() == '.');
            let dot = k - 1;
            if dot == 0 {
                return false;
            }
            let rest = n.len() - k;
            if rest != 2 {
                assert(nv.skip(k as int).len() != 2);
                return false;
            }
            let r = to_ascii_lower(n[k]) == to_ascii_lower('r') && to_ascii_lower(n[k + 1]) == to_ascii_lower('s');
            assert(r == eq_ignore_ascii_case_spec(nv.skip(k as int), seq!['r', 's'])) by {
                assert(nv.skip(k as int)[0] == nv[k as int]);
                assert(nv.skip(k as int)[1] == nv[k + 1]);
            }
            r
        },
    }
}

/// Decides `looks_like_path`.
fn is_path_like(v: &Vec<char>) -> (r: bool)
    ensures
        r == looks_like_path(v@),
{
    let slash = vec!['/'];
    let backslash = vec!['\\'];
    assert(slash@ =~= seq!['/']);
    assert(backslash@ =~= seq!['\\']);
    assert(v@.subrange(0, v@.len() as int) =~= v@);
    find_in_range(v, 0, v.len(), &slash).is_some() || find_in_range(v, 0, v.len(), &backslash).is_some()
        || has_rs_extension(v)
}

/// Whether some entry of `list` equals `v`.
fn list_contains(list: &Vec<String>, v: &Vec<char>) -> (r: bool)
    ensures
        r == strings_view(list@).contains(v@),
{
    let mut i: usize = 0;
    while i < list.len()
        invariant
            i <= list@.len(),
            forall|k: int| 0 <= k < i ==> strings_view(list@)[k] != v@,
        decreases list@.len() - i,
    {
        let w = chars_of(list[i].as_str());
        assert(strings_view(list@)[i as int] == w@);
        assert(w@.subrange(0, w@.len() as int) =~= w@);
        if w.len() == v.len() && range_equals(&w, 0, w.len(), v) {
            return true;
        }
        i = i + 1;
    }
    false
}

/// Position of the symbol with identifier `id`.
fn symbol_index(syms: &Vec<SymbolDetails>, id: &String) -> (r: Option<usize>)
    ensures
        match r {
            Some(j) => lookup(symbol_ids(syms@), id@) == Some(j as int),
            None => lookup(symbol_ids(syms@), id@) is None,
        },
{
    let ghost ids = symbol_ids(syms@);
    let mut i: usize = 0;
    while i < syms.len()
        invariant
            i <= syms@.len(),
            ids == symbol_ids(syms@),
            lookup(ids.take(i as int), id@) is None,
        decreases syms@.len() - i,
    {
        assert(ids.take(i + 1).drop_last() =~= ids.take(i as int));
        assert(ids[i as int] == syms@[i as int].symbol_id@);
        if syms[i].symbol_id == *id {
            proof {
                lemma_lookup_take(ids, i + 1, id@);
            }
            return Some(i);
        }
        i = i + 1;
    }
    assert(ids.take(syms@.len() as int) =~= ids);
    None
}

proof fn lemma_lookup_take(ids: Seq<Seq<char>>, k: int, x: Seq<char>)
    requires
        0 <= k <= ids.len(),
        lookup(ids.take(k), x) is Some,
    ensures
        lookup(ids, x) == lookup(ids.take(k), x),
    decreases ids.len() - k,
{
    if k < ids.len() {
        assert(ids.take(k + 1).drop_last() =~= ids.take(k));
        lemma_lookup_take(ids, k + 1, x);
    } else {
        assert(ids.take(k) =~= ids);
    }
}

/// Values of the three allowed lists.
pub open spec fn lists_view(n: Vec<String>, f: Vec<String>, b: Vec<String>) -> (Seq<Seq<char>>, Seq<Seq<char>>, Seq<Seq<char>>) {
    (strings_view(n@), strings_view(f@), strings_view(b@))
}

/// Verifies whether symbols and paths cited in an answer are grounded in
/// the subgraph.
pub struct SymbolAllowlistVerifier;

impl SymbolAllowlistVerifier {
    /// Lists, sorted and without repeats, the references of `answer` that
    /// the subgraph does not ground: backticked references (after their
    /// last `::`) that are neither standard names, included symbols nor
    /// included files, and bare paths that are not included files.
    pub fn verify(subgraph: &RenderedSubgraph, graph_cache: &GraphCache, answer: &str) -> (r: Vec<String>)
        ensures
            strictly_sorted(strings_view(r@)),
            forall|q: Seq<char>| strings_view(r@).contains(q) <==> unverified_spec(
                graph_cache.symbols@,
                strings_view(subgraph.included_nodes@),
                answer@,
                q,
            ),
    {
        let backticks = capture_group("`([^`\\s]+)`", answer, 1);
        let paths = capture_group(
            "\\b[a-zA-Z0-9_\\-\\./]+\\.rs\\b|\\b[a-zA-Z0-9_\\-]+/[a-zA-Z0-9_\\-\\./]+\\b",
            answer,
            0,
        );
        Self::unverified_references(subgraph, graph_cache, backticks, paths)
    }

    /// Given the backticked references (`backticks`, capture group 1 of
    /// each match of the backtick pattern) and the bare paths (`paths`,
    /// each match of the bare-path pattern) of an answer, `None` where a
    /// pattern did not compile, lists, sorted and without repeats, those
    /// the subgraph does not ground.
    pub fn unverified_references(
        subgraph: &RenderedSubgraph,
        graph_cache: &GraphCache,
        backticks: Option<Vec<Option<String>>>,
        paths: Option<Vec<Option<String>>>,
    ) -> (r: Vec<String>)
        ensures
            strictly_sorted(strings_view(r@)),
            forall|q: Seq<char>| strings_view(r@).contains(q) <==> unverified_in(
                graph_cache.symbols@,
                strings_view(subgraph.included_nodes@),
                opt_captures(backticks),
                opt_captures(paths),
                q,
            ),
    {
        let ghost syms = graph_cache.symbols@;
        let ghost inc = strings_view(subgraph.included_nodes@);
        let mut names: Vec<String> = Vec::new();
        let mut files: Vec<String> = Vec::new();
        let mut bases: Vec<String> = Vec::new();
        let mut i: usize = 0;
        while i < subgraph.included_nodes.len()
            invariant
                i <= subgraph.included_nodes@.len(),
                syms == graph_cache.symbols@,
                inc == strings_view(subgraph.included_nodes@),
                lists_view(names, files, bases) == allowed_lists(syms, inc.take(i as int)),
            decreases subgraph.included_nodes@.len() - i,
        {
            assert(inc.take(i + 1).drop_last() =~= inc.take(i as int));
            assert(inc.take(i + 1).last() == subgraph.included_nodes@[i as int]@);
            match symbol_index(&graph_cache.symbols, &subgraph.included_nodes[i]) {
                Some(j) => {
                    proof {
                        lemma_lookup_bounds(symbol_ids(syms), subgraph.included_nodes@[i as int]@);
                    }
                    let d = &graph_cache.symbols[j];
                    let ghost (n0, f0, b0) = lists_view(names, files, bases);
                    names.push(d.name.clone());
                    files.push(d.file_path.clone());
                    assert(strings_view(names@) =~= n0.push(d.name@));
                    assert(strings_view(files@) =~= f0.push(d.file_path@));
                    let fp = chars_of(d.file_path.as_str());
                    match file_name_of(&fp) {
                        Some(bn) => {
                            bases.push(string_of_all(&bn));
                            assert(strings_view(bases@) =~= b0.push(bn@));
                        },
                        None => {},
                    }
                },
                None => {},
            }
            i = i + 1;
        }
        assert(inc.take(inc.len() as int) =~= inc);
        let ghost al = lists_view(names, files, bases);
        let exclusions = strings_from(
            &[
                "String", "Vec", "Result", "Option", "Some", "None", "Ok", "Err", "Self", "self",
                "u8", "u16", "u32", "u64", "u128", "usize", "i8", "i16", "i32", "i64", "i128",
                "isize", "f32", "f64", "bool", "char", "str", "Connection", "Mutex", "Arc",
                "Router", "commands", "main", "yantra", "run", "ask", "index", "status",
                "version", "task_id", "session_id", "span_id", "true", "false", "anyhow",
                "Result", "Error", "impl", "struct", "enum", "trait",
            ],
        );
        assert(strings_view(exclusions@) =~= standard_exclusions());
        let mut out: Vec<String> = Vec::new();
        let ghost bt = opt_captures(backticks);
        match backticks {
            Some(caps) => {
                let ghost cv = opt_texts(caps@);
                let mut k: usize = 0;
                while k < caps.len()
                    invariant
                        k <= caps@.len(),
                        cv == opt_texts(caps@),
                        al == lists_view(names, files, bases),
                        strings_view(exclusions@) == standard_exclusions(),
                        strictly_sorted(strings_view(out@)),
                        forall|q: Seq<char>| #[trigger] strings_view(out@).contains(q) <==> (cv.take(k as int).contains(Some(q))
                            && backtick_unverified(q, al)),
                    decreases caps@.len() - k,
                {
                    let ghost before = strings_view(out@);
                    assert(cv.take(k + 1) =~= cv.take(k as int).push(cv[k as int]));
                    match &caps[k] {
                        Some(ident) => {
                            assert(cv[k as int] == Some(ident@));
                            let iv = chars_of(ident.as_str());
                            let clean = after_last_separator(&iv);
                            let flagged = if list_contains(&exclusions, &clean) {
                                false
                            } else if is_path_like(&clean) {
                                !list_contains(&files, &clean) && !list_contains(&bases, &clean)
                            } else {
                                !list_contains(&names, &clean)
                            };
                            assert(flagged == backtick_unverified(ident@, al));
                            if flagged {
                                insert_path_sorted(&mut out, ident.clone());
                            }
                            assert forall|q: Seq<char>| #[trigger] strings_view(out@).contains(q) <==> (cv.take(k + 1).contains(Some(q))
                                && backtick_unverified(q, al)) by {
                                lemma_push_opt_contains(cv.take(k as int), cv[k as int], Some(q));
                                assert(before.contains(q) <==> (cv.take(k as int).contains(Some(q)) && backtick_unverified(q, al)));
                            }
                        },
                        None => {
                            assert(cv[k as int] is None);
                            assert forall|q: Seq<char>| #[trigger] strings_view(out@).contains(q) <==> (cv.take(k + 1).contains(Some(q))
                                && backtick_unverified(q, al)) by {
                                lemma_push_opt_contains(cv.take(k as int), cv[k as int], Some(q));
                                assert(before.contains(q) <==> (cv.take(k as int).contains(Some(q)) && backtick_unverified(q, al)));
                            }
                        },
                    }
                    k = k + 1;
                }
                assert(cv.take(caps@.len() as int) =~= cv);
            },
            None => {},
        }
        assert forall|q: Seq<char>| #[trigger] strings_view(out@).contains(q) <==> (captured(bt, q) && backtick_unverified(q, al)) by {}
        let ghost after_backticks = strings_view(out@);
        match paths {
            Some(caps) => {
                let ghost cv = opt_texts(caps@);
                let mut k: usize = 0;
                while k < caps.len()
                    invariant
                        k <= caps@.len(),
                        cv == opt_texts(caps@),
                        al == lists_view(names, files, bases),
                        strictly_sorted(strings_view(out@)),
                        forall|q: Seq<char>| #[trigger] strings_view(out@).contains(q) <==> (after_backticks.contains(q) || (cv.take(k as int).contains(Some(q))
                            && path_unverified(q, al))),
                    decreases caps@.len() - k,
                {
                    let ghost before = strings_view(out@);
                    assert(cv.take(k + 1) =~= cv.take(k as int).push(cv[k as int]));
                    match &caps[k] {
                        Some(cand) => {
                            assert(cv[k as int] == Some(cand@));
                            let candv = chars_of(cand.as_str());
                            let flagged = is_path_like(&candv) && !list_contains(&files, &candv) && !list_contains(&bases, &candv);
                            if flagged {
                                insert_path_sorted(&mut out, cand.clone());
                            }
                            assert forall|q: Seq<char>| #[trigger] strings_view(out@).contains(q) <==> (after_backticks.contains(q) || (cv.take(k + 1).contains(Some(q))
                                && path_unverified(q, al))) by {
                                lemma_push_opt_contains(cv.take(k as int), cv[k as int], Some(q));
                                assert(before.contains(q) <==> (after_backticks.contains(q) || (cv.take(k as int).contains(Some(q)) && path_unverified(q, al))));
                            }
                        },
                        None => {
                            assert(cv[k as int] is None);
                            assert forall|q: Seq<char>| #[trigger] strings_view(out@).contains(q) <==> (after_backticks.contains(q) || (cv.take(k + 1).contains(Some(q))
                                && path_unverified(q, al))) by {
                                lemma_push_opt_contains(cv.take(k as int), cv[k as int], Some(q));
                                assert(before.contains(q) <==> (after_backticks.contains(q) || (cv.take(k as int).contains(Some(q)) && path_unverified(q, al))));
                            }
                        },
                    }
                    k = k + 1;
                }
                assert(cv.take(caps@.len() as int) =~= cv);
            },
            None => {},
        }
        assert(al == allowed_lists(syms, inc));
        out
    }
}

/// Words that mark preflight concepts.
pub open spec fn preflight_keywords() -> Seq<Seq<char>> {
    seq!["validate"@, "validation"@, "consistency"@, "truth token"@, "interrogator"@, "questionnaire"@, "drift"@]
}

/// Words that mark runtime concepts.
pub open spec fn runtime_keywords() -> Seq<Seq<char>> {
    seq!["agent"@, "run"@, "schedule"@, "dispatch"@, "execute"@, "commit"@, "mcp"@]
}

/// A symbol as the conflation check sees it: its lowercased name, its
/// name, and its lifecycle phase.
pub struct PhaseEntry {
    pub key: Seq<char>,
    pub name: Seq<char>,
    pub phase: Seq<char>,
}

/// Position of the entry with `key`.
pub open spec fn entry_index(es: Seq<PhaseEntry>, key: Seq<char>) -> Option<int>
    decreases es.len(),
{
    if es.len() == 0 {
        None
    } else {
        match entry_index(es.drop_last(), key) {
            Some(i) => Some(i),
            None => if es.last().key == key { Some(es.len() - 1) } else { None },
        }
    }
}

/// The included symbols by lowercased name, each name once: a later symbol
/// with the same lowercased name replaces the earlier one in its place.
pub open spec fn phase_entries(syms: Seq<SymbolDetails>, inc: Seq<Seq<char>>) -> Seq<PhaseEntry>
    decreases inc.len(),
{
    if inc.len() == 0 {
        seq![]
    } else {
        let prev = phase_entries(syms, inc.drop_last());
        match lookup(symbol_ids(syms), inc.last()) {
            Some(j) => {
                let e = PhaseEntry {
                    key: lowercase_spec(syms[j].name@),
                    name: syms[j].name@,
                    phase: lifecycle_phase_spec(syms[j].file_path@),
                };
                match entry_index(prev, e.key) {
                    Some(p) => prev.update(p, e),
                    None => prev.push(e),
                }
            },
            None => prev,
        }
    }
}

/// `ws` with `w` appended unless it is there already.
pub open spec fn add_unique(ws: Seq<Seq<char>>, w: Seq<char>) -> Seq<Seq<char>> {
    if ws.contains(w) {
        ws
    } else {
        ws.push(w)
    }
}

/// The warning that `name`, of phase `phase`, is cited near `word`, a
/// concept of phase `other`.
pub open spec fn conflation_message(name: Seq<char>, phase: Seq<char>, other: Seq<char>, word: Seq<char>) -> Seq<char> {
    "Symbol `"@ + name + "` ("@ + phase + ") is cited near "@ + other + " concepts like \""@ + word + "\""@
}

/// Warnings after checking the words of `words` in segment `t`.
pub open spec fn warn_words(ws: Seq<Seq<char>>, t: Seq<char>, e: PhaseEntry, other: Seq<char>, words: Seq<Seq<char>>) -> Seq<Seq<char>>
    decreases words.len(),
{
    if words.len() == 0 {
        ws
    } else {
        let w0 = warn_words(ws, t, e, other, words.drop_last());
        if occurs(t, words.last()) {
            add_unique(w0, conflation_message(e.name, e.phase, other, words.last()))
        } else {
            w0
        }
    }
}

/// Warnings after checking the entries of `es` in segment `t`: a runtime
/// symbol near preflight words, or a preflight symbol near runtime words.
pub open spec fn warn_entries(ws: Seq<Seq<char>>, t: Seq<char>, es: Seq<PhaseEntry>) -> Seq<Seq<char>>
    decreases es.len(),
{
    if es.len() == 0 {
        ws
    } else {
        let w0 = warn_entries(ws, t, es.drop_last());
        let e = es.last();
        if occurs(t, e.key) {
            if e.phase == "Runtime"@ {
                warn_words(w0, t, e, "PreFlight"@, preflight_keywords())
            } else if e.phase == "PreFlight"@ {
                warn_words(w0, t, e, "Runtime"@, runtime_keywords())
            } else {
                w0
            }
        } else {
            w0
        }
    }
}

/// Warnings over the sentence segments `segs`, blank segments skipped.
pub open spec fn warn_segments(segs: Seq<Seq<char>>, es: Seq<PhaseEntry>) -> Seq<Seq<char>>
    decreases segs.len(),
{
    if segs.len() == 0 {
        seq![]
    } else {
        let w0 = warn_segments(segs.drop_last(), es);
        let t = trim(segs.last());
        if t.len() == 0 {
            w0
        } else {
            warn_entries(w0, t, es)
        }
    }
}

/// A sentence break: `.`, `?`, `!` or a newline.
pub open spec fn is_break(c: char) -> bool {
    c == '.' || c == '?' || c == '!' || c == '\n'
}

/// The sentence segments of the lowercased answer.
pub open spec fn answer_segments(answer: Seq<char>) -> Seq<Seq<char>> {
    split_char(lowercase_spec(answer).map_values(|c: char| if is_break(c) { '.' } else { c }), '.')
}

/// Whether two texts are equal.
pub(crate) fn same_text(a: &str, b: &str) -> (r: bool)
    ensures
        r == (a@ == b@),
{
    let av = chars_of(a);
    let bv = chars_of(b);
    assert(av@.subrange(0, av@.len() as int) =~= av@);
    av.len() == bv.len() && range_equals(&av, 0, av.len(), &bv)
}

/// Exec form of a phase entry.
struct Entry {
    key: String,
    name: String,
    phase: &'static str,
}

spec fn entry_view(e: Entry) -> PhaseEntry {
    PhaseEntry { key: e.key@, name: e.name@, phase: e.phase@ }
}

spec fn entries_view(es: Seq<Entry>) -> Seq<PhaseEntry> {
    es.map_values(|e: Entry| entry_view(e))
}

/// Appends `w` to `ws` unless it is there already.
fn push_unique(ws: &mut Vec<String>, w: String)
    ensures
        strings_view(final(ws)@) == add_unique(strings_view(old(ws)@), w@),
{
    let v = chars_of(w.as_str());
    if !list_contains(ws, &v) {
        let ghost before = strings_view(ws@);
        ws.push(w);
        assert(strings_view(ws@) =~= before.push(v@));
    }
}

/// Checks the words of `words` in segment `t` for entry `e`.
fn check_words(ws: &mut Vec<String>, t: &Vec<char>, e: &Entry, other: &str, words: &Vec<String>)
    ensures
        strings_view(final(ws)@) == warn_words(strings_view(old(ws)@), t@, entry_view(*e), other@, strings_view(words@)),
{
    let ghost start = strings_view(ws@);
    let ghost wv = strings_view(words@);
    let mut i: usize = 0;
    assert(t@.subrange(0, t@.len() as int) =~= t@);
    while i < words.len()
        invariant
            i <= words@.len(),
            wv == strings_view(words@),
            t@.subrange(0, t@.len() as int) == t@,
            strings_view(ws@) == warn_words(start, t@, entry_view(*e), other@, wv.take(i as int)),
        decreases words@.len() - i,
    {
        assert(wv.take(i + 1).drop_last() =~= wv.take(i as int));
        assert(wv.take(i + 1).last() == words@[i as int]@);
        let w = chars_of(words[i].as_str());
        if find_in_range(t, 0, t.len(), &w).is_some() {
            let mut msg = String::from_str("Symbol `");
            msg.append(e.name.as_str());
            msg.append("` (");
            msg.append(e.phase);
            msg.append(") is cited near ");
            msg.append(other);
            msg.append(" concepts like \"");
            msg.append(words[i].as_str());
            msg.append("\"");
            push_unique(ws, msg);
        }
        i = i + 1;
    }
    assert(wv.take(words@.len() as int) =~= wv);
}

impl SymbolAllowlistVerifier {
    /// Warns, once per distinct message, about each included symbol that a
    /// sentence of the answer cites next to concepts of the other lifecycle
    /// phase: a runtime symbol near preflight words, or a preflight symbol
    /// near runtime words. Matching ignores case.
    pub fn check_cross_crate_conflations(subgraph: &RenderedSubgraph, graph_cache: &GraphCache, answer: &str) -> (r: Vec<String>)
        ensures
            strings_view(r@) == warn_segments(
                answer_segments(answer@),
                phase_entries(graph_cache.symbols@, strings_view(subgraph.included_nodes@)),
            ),
    {
        let ghost syms = graph_cache.symbols@;
        let ghost inc = strings_view(subgraph.included_nodes@);
        let mut entries: Vec<Entry> = Vec::new();
        let mut i: usize = 0;
        while i < subgraph.included_nodes.len()
            invariant
                i <= subgraph.included_nodes@.len(),
                syms == graph_cache.symbols@,
                inc == strings_view(subgraph.included_nodes@),
                entries_view(entries@) == phase_entries(syms, inc.take(i as int)),
            decreases subgraph.included_nodes@.len() - i,
        {
            assert(inc.take(i + 1).drop_last() =~= inc.take(i as int));
            assert(inc.take(i + 1).last() == subgraph.included_nodes@[i as int]@);
            match symbol_index(&graph_cache.symbols, &subgraph.included_nodes[i]) {
                Some(j) => {
                    proof {
                        lemma_lookup_bounds(symbol_ids(syms), subgraph.included_nodes@[i as int]@);
                    }
                    let d = &graph_cache.symbols[j];
                    let key = to_lowercase(d.name.as_str());
                    let e = Entry { key, name: d.name.clone(), phase: get_lifecycle_phase(d.file_path.as_str()) };
                    let ghost ev = entries_view(entries@);
                    let mut p: usize = 0;
                    let mut found = false;
                    while p < entries.len() && !found
                        invariant
                            p <= entries@.len(),
                            ev == entries_view(entries@),
                            !found ==> entry_index(ev.take(p as int), e.key@) is None,
                            found ==> p > 0 && entry_index(ev, e.key@) == Some(p - 1),
                        decreases entries@.len() - p + if found { 0int } else { 1int },
                    {
                        assert(ev.take(p + 1).drop_last() =~= ev.take(p as int));
                        if entries[p].key == e.key {
                            proof {
                                lemma_entry_index_take(ev, p + 1, e.key@);
                            }
                            found = true;
                        }
                        p = p + 1;
                    }
                    if found {
                        entries.set(p - 1, e);
                        assert(entries_view(entries@) =~= ev.update(p - 1, entry_view(e)));
                    } else {
                        assert(ev.take(ev.len() as int) =~= ev);
                        entries.push(e);
                        assert(entries_view(entries@) =~= ev.push(entry_view(e)));
                    }
                },
                None => {},
            }
            i = i + 1;
        }
        assert(inc.take(inc.len() as int) =~= inc);
        let ghost es = entries_view(entries@);
        let lowered = to_lowercase(answer);
        let raw = chars_of(lowered.as_str());
        let mut v: Vec<char> = Vec::new();
        let mut k: usize = 0;
        while k < raw.len()
            invariant
                k <= raw@.len(),
                raw@ == lowercase_spec(answer@),
                v@ == raw@.take(k as int).map_values(|c: char| if is_break(c) { '.' } else { c }),
            decreases raw@.len() - k,
        {
            let c = raw[k];
            v.push(if c == '.' || c == '?' || c == '!' || c == '\n' { '.' } else { c });
            k = k + 1;
            assert(v@ =~= raw@.take(k as int).map_values(|c: char| if is_break(c) { '.' } else { c }));
        }
        assert(raw@.take(raw@.len() as int) =~= raw@);
        assert(v@.subrange(0, v@.len() as int) =~= v@);
        let ranges = split_ranges(&v, 0, v.len(), '.');
        let ghost segs = answer_segments(answer@);
        let preflight = strings_from(&["validate", "validation", "consistency", "truth token", "interrogator", "questionnaire", "drift"]);
        assert(strings_view(preflight@) =~= preflight_keywords());
        let runtime = strings_from(&["agent", "run", "schedule", "dispatch", "execute", "commit", "mcp"]);
        assert(strings_view(runtime@) =~= runtime_keywords());
        let mut warnings: Vec<String> = Vec::new();
        let mut si: usize = 0;
        assert(strings_view(warnings@) =~= warn_segments(segs.take(0), es));
        while si < ranges.len()
            invariant
                si <= ranges@.len(),
                ranges_cover(v@, ranges@, segs),
                segs == answer_segments(answer@),
                es == entries_view(entries@),
                strings_view(preflight@) == preflight_keywords(),
                strings_view(runtime@) == runtime_keywords(),
                strings_view(warnings@) == warn_segments(segs.take(si as int), es),
            decreases ranges@.len() - si,
        {
            let (a, b) = ranges[si];
            assert(segs.take(si + 1).drop_last() =~= segs.take(si as int));
            assert(segs.take(si + 1).last() == v@.subrange(a as int, b as int));
            let (c, d) = trim_range(&v, a, b);
            if c < d {
                let mut t: Vec<char> = Vec::new();
                let mut x = c;
                while x < d
                    invariant
                        c <= x <= d <= v@.len(),
                        t@ == v@.subrange(c as int, x as int),
                    decreases d - x,
                {
                    t.push(v[x]);
                    x = x + 1;
                    assert(t@ =~= v@.subrange(c as int, x as int));
                }
                let ghost w_start = strings_view(warnings@);
                let mut q: usize = 0;
                assert(t@.subrange(0, t@.len() as int) =~= t@);
                while q < entries.len()
                    invariant
                        q <= entries@.len(),
                        es == entries_view(entries@),
                        t@.subrange(0, t@.len() as int) == t@,
                        strings_view(preflight@) == preflight_keywords(),
                        strings_view(runtime@) == runtime_keywords(),
                        strings_view(warnings@) == warn_entries(w_start, t@, es.take(q as int)),
                    decreases entries@.len() - q,
                {
                    assert(es.take(q + 1).drop_last() =~= es.take(q as int));
                    assert(es.take(q + 1).last() == entry_view(entries@[q as int]));
                    let e = &entries[q];
                    let key = chars_of(e.key.as_str());
                    if find_in_range(&t, 0, t.len(), &key).is_some() {
                        if same_text(e.phase, "Runtime") {
                            check_words(&mut warnings, &t, e, "PreFlight", &preflight);
                        } else if same_text(e.phase, "PreFlight") {
                            check_words(&mut warnings, &t, e, "Runtime", &runtime);
                        }
                    }
                    q = q + 1;
                }
                assert(es.take(entries@.len() as int) =~= es);
            }
            si = si + 1;
        }
        assert(segs.take(ranges@.len() as int) =~= segs);
        warnings
    }
}

proof fn lemma_entry_index_take(es: Seq<PhaseEntry>, k: int, key: Seq<char>)
    requires
        0 <= k <= es.len(),
        entry_index(es.take(k), key) is Some,
    ensures
        entry_index(es, key) == entry_index(es.take(k), key),
    decreases es.len() - k,
{
    if k < es.len() {
        assert(es.take(k + 1).drop_last() =~= es.take(k));
        lemma_entry_index_take(es, k + 1, key);
    } else {
        assert(es.take(k) =~= es);
    }
}


proof fn lemma_included_symbol_allowed(syms: Seq<SymbolDetails>, inc: Seq<Seq<char>>, i: int, j: int)
    requires
        symbol_ids(syms).no_duplicates(),
        0 <= i < inc.len(),
        0 <= j < syms.len(),
        inc[i] == syms[j].symbol_id@,
    ensures
        allowed_lists(syms, inc).0.contains(syms[j].name@),
        allowed_lists(syms, inc).1.contains(syms[j].file_path@),
        file_name_spec(syms[j].file_path@) matches Some(b) ==> allowed_lists(syms, inc).2.contains(b),
    decreases inc.len(),
{
    let ids = symbol_ids(syms);
    let al = allowed_lists(syms, inc);
    let prev = allowed_lists(syms, inc.drop_last());
    if i < inc.len() - 1 {
        assert(inc.drop_last()[i] == inc[i]);
        lemma_included_symbol_allowed(syms, inc.drop_last(), i, j);
        match lookup(ids, inc.last()) {
            Some(k) => {
                let a0 = prev.0.push(syms[k].name@);
                let a1 = prev.1.push(syms[k].file_path@);
                let q0 = choose|q: int| 0 <= q < prev.0.len() && prev.0[q] == syms[j].name@;
                assert(a0[q0] == syms[j].name@);
                let q1 = choose|q: int| 0 <= q < prev.1.len() && prev.1[q] == syms[j].file_path@;
                assert(a1[q1] == syms[j].file_path@);
                if let Some(b) = file_name_spec(syms[j].file_path@) {
                    let q2 = choose|q: int| 0 <= q < prev.2.len() && prev.2[q] == b;
                    match file_name_spec(syms[k].file_path@) {
                        Some(c) => {
                            assert(prev.2.push(c)[q2] == b);
                        },
                        None => {},
                    }
                }
            },
            None => {},
        }
    } else {
        lemma_lookup_bounds(ids, inc.last());
        assert(ids[j] == syms[j].symbol_id@);
        let k = lookup(ids, inc.last())->0;
        assert(ids[k] == ids[j]);
        assert(k == j);
        assert(al.0[prev.0.len() as int] == syms[j].name@);
        assert(al.1[prev.1.len() as int] == syms[j].file_path@);
        if let Some(b) = file_name_spec(syms[j].file_path@) {
            assert(al.2[prev.2.len() as int] == b);
        }
    }
}

/// What the subgraph includes is never reported: in a graph whose symbol
/// identifiers are distinct, a reference that (after its last `::`) reads
/// as a path and is the file path or the file name of an included symbol,
/// or does not read as a path and is the name of an included symbol, is not
/// unverified; nor is that file path found bare in the answer.
pub proof fn included_references_are_grounded(
    syms: Seq<SymbolDetails>,
    inc: Seq<Seq<char>>,
    bt: Option<Seq<Option<Seq<char>>>>,
    pc: Option<Seq<Option<Seq<char>>>>,
    q: Seq<char>,
    i: int,
    j: int,
)
    requires
        symbol_ids(syms).no_duplicates(),
        0 <= i < inc.len(),
        0 <= j < syms.len(),
        inc[i] == syms[j].symbol_id@,
    ensures
        after_last_sep(q) == syms[j].file_path@ && looks_like_path(after_last_sep(q)) ==> !backtick_unverified(
            q,
            allowed_lists(syms, inc),
        ),
        file_name_spec(syms[j].file_path@) == Some(after_last_sep(q)) && looks_like_path(after_last_sep(q))
            ==> !backtick_unverified(q, allowed_lists(syms, inc)),
        after_last_sep(q) == syms[j].name@ && !looks_like_path(after_last_sep(q)) ==> !backtick_unverified(
            q,
            allowed_lists(syms, inc),
        ),
        !path_unverified(syms[j].file_path@, allowed_lists(syms, inc)),
        after_last_sep(syms[j].file_path@) == syms[j].file_path@ && looks_like_path(syms[j].file_path@) ==> !unverified_in(syms, inc, bt, pc, syms[j].file_path@),
{
    lemma_included_symbol_allowed(syms, inc, i, j);
}

} // verus!

//! The code-review graph in memory: symbols with their files and scores,
//! the edges between them, and what is derived from them — community labels
//! and colours, top-line statistics, hub rankings, neighbourhoods around a
//! focus symbol, community detection by neighbour vote, and connectivity
//! scores.

use vstd::prelude::*;
use crate::diff::strings_view;
use crate::metrics::{GraphStats, HubEntry};
use crate::text::{lemma_lex_irreflexive, lemma_lex_total, lemma_lex_transitive, lex_less, lex_lt};
use crate::sacred::slashes;
use crate::text::{trim, chars_of, find_in_range, find_seq, has_suffix, lowercase_spec, range_has_suffix, to_lowercase, has_prefix, push_char, range_equals, range_has_prefix, ranges_cover, split_char, split_ranges, string_of};

verus! {

/// One symbol row joined with its containing file path.
#[derive(Debug, Clone)]
pub struct SymbolDetails {
    pub symbol_id: String,
    pub name: String,
    pub kind: String,
    pub start_line: i32,
    pub signature: Option<String>,
    pub docstring: Option<String>,
    pub connectivity_score: i32,
    pub file_path: String,
    pub file_id: String,
}

/// One directed edge between two graph nodes.
#[derive(Debug, Clone)]
pub struct EdgeDetails {
    pub from_id: String,
    pub to_id: String,
    pub edge_type: String,
    pub weight: i32,
}

/// In-memory snapshot of the symbol graph: the symbols, each identifier
/// once, and the edges. An edge is adjacent to both of its endpoints.
pub struct GraphCache {
    pub symbols: Vec<SymbolDetails>,
    pub edges: Vec<EdgeDetails>,
}

/// Identifiers of a sequence of symbols.
pub open spec fn symbol_ids(ss: Seq<SymbolDetails>) -> Seq<Seq<char>> {
    ss.map_values(|s: SymbolDetails| s.symbol_id@)
}

impl GraphCache {
    /// No identifier names two symbols.
    pub open spec fn wf(&self) -> bool {
        symbol_ids(self.symbols@).no_duplicates()
    }
}

/// A copy of a symbol row.
pub(crate) fn copy_symbol(s: &SymbolDetails) -> (r: SymbolDetails)
    ensures
        r == *s,
{
    SymbolDetails {
        symbol_id: s.symbol_id.clone(),
        name: s.name.clone(),
        kind: s.kind.clone(),
        start_line: s.start_line,
        signature: match &s.signature {
            Some(x) => Some(x.clone()),
            None => None,
        },
        docstring: match &s.docstring {
            Some(x) => Some(x.clone()),
            None => None,
        },
        connectivity_score: s.connectivity_score,
        file_path: s.file_path.clone(),
        file_id: s.file_id.clone(),
    }
}

/// The symbol rows a graph keeps: those with a non-blank identifier, each
/// identifier once with the last row that has it, in row order.
pub open spec fn kept_rows(rows: Seq<SymbolDetails>) -> Seq<SymbolDetails>
    decreases rows.len(),
{
    if rows.len() == 0 {
        seq![]
    } else {
        let rest = kept_rows(rows.drop_first());
        if trim(rows[0].symbol_id@).len() > 0 && !symbol_ids(rows.drop_first()).contains(rows[0].symbol_id@) {
            seq![rows[0]] + rest
        } else {
            rest
        }
    }
}

proof fn lemma_kept_rows(rows: Seq<SymbolDetails>)
    ensures
        symbol_ids(kept_rows(rows)).no_duplicates(),
        forall|x: Seq<char>| #[trigger] symbol_ids(kept_rows(rows)).contains(x) ==> symbol_ids(rows).contains(x),
    decreases rows.len(),
{
    if rows.len() > 0 {
        let tail = rows.drop_first();
        lemma_kept_rows(tail);
        let rest = kept_rows(tail);
        assert forall|x: Seq<char>| #[trigger] symbol_ids(kept_rows(rows)).contains(x) implies symbol_ids(rows).contains(x) by {
            let k = choose|k: int| 0 <= k < symbol_ids(kept_rows(rows)).len() && #[trigger] symbol_ids(kept_rows(rows))[k] == x;
            if trim(rows[0].symbol_id@).len() > 0 && !symbol_ids(tail).contains(rows[0].symbol_id@) {
                if k == 0 {
                    assert(symbol_ids(rows)[0] == x);
                } else {
                    assert(symbol_ids(rest)[k - 1] == x);
                    assert(symbol_ids(rest).contains(x));
                    let t = choose|t: int| 0 <= t < symbol_ids(tail).len() && #[trigger] symbol_ids(tail)[t] == x;
                    assert(tail[t] == rows[t + 1]);
                    assert(symbol_ids(rows)[t + 1] == x);
                }
            } else {
                assert(symbol_ids(rest)[k] == x);
                assert(symbol_ids(rest).contains(x));
                let t = choose|t: int| 0 <= t < symbol_ids(tail).len() && #[trigger] symbol_ids(tail)[t] == x;
                assert(tail[t] == rows[t + 1]);
                assert(symbol_ids(rows)[t + 1] == x);
            }
        }
        if trim(rows[0].symbol_id@).len() > 0 && !symbol_ids(tail).contains(rows[0].symbol_id@) {
            let s = symbol_ids(kept_rows(rows));
            assert(s =~= seq![rows[0].symbol_id@] + symbol_ids(rest));
            assert forall|i: int, j: int| 0 <= i < j < s.len() implies s[i] != s[j] by {
                if i == 0 {
                    assert(symbol_ids(rest)[j - 1] == s[j]);
                    if s[i] == s[j] {
                        assert(symbol_ids(rest).contains(s[j]));
                    }
                } else {
                    assert(symbol_ids(rest)[i - 1] == s[i] && symbol_ids(rest)[j - 1] == s[j]);
                }
            }
        }
    }
}

impl GraphCache {
    /// Builds the graph from the rows of the index: the symbol rows joined
    /// with their file paths, and the edge rows. A symbol row whose
    /// identifier is blank is left out, and of several rows with one
    /// identifier the last one stands.
    pub fn build(symbol_rows: Vec<SymbolDetails>, edge_rows: Vec<EdgeDetails>) -> (r: Self)
        ensures
            r.symbols@ == kept_rows(symbol_rows@),
            r.edges@ == edge_rows@,
            r.wf(),
    {
        let ghost rows = symbol_rows@;
        let mut kept: Vec<SymbolDetails> = Vec::new();
        let mut i: usize = symbol_rows.len();
        assert(rows.skip(i as int) =~= Seq::<SymbolDetails>::empty());
        while i > 0
            invariant
                i <= rows.len(),
                rows == symbol_rows@,
                kept@ == kept_rows(rows.skip(i as int)),
            decreases i,
        {
            let row = &symbol_rows[i - 1];
            let mut later = false;
            let mut j: usize = i;
            while j < symbol_rows.len() && !later
                invariant
                    0 < i <= j <= rows.len(),
                    rows == symbol_rows@,
                    *row == rows[i - 1],
                    later == symbol_ids(rows.skip(i as int).take(j - i)).contains(rows[i - 1].symbol_id@),
                decreases rows.len() - j,
            {
                let ghost before = symbol_ids(rows.skip(i as int).take(j - i));
                assert(rows.skip(i as int).take(j - i + 1) =~= rows.skip(i as int).take(j - i).push(rows[j as int]));
                assert(symbol_ids(rows.skip(i as int).take(j - i + 1)) =~= before.push(rows[j as int].symbol_id@));
                assert(rows.skip(i as int).take(j - i + 1)[j - i] == rows[j as int]);
                if symbol_rows[j].symbol_id == row.symbol_id {
                    assert(symbol_ids(rows.skip(i as int).take(j - i + 1))[j - i] == rows[i - 1].symbol_id@);
                    later = true;
                } else {
                    assert forall|x: Seq<char>|
                        symbol_ids(rows.skip(i as int).take(j - i + 1)).contains(x) == (before.contains(x) || x == rows[j as int].symbol_id@) by {
                        if symbol_ids(rows.skip(i as int).take(j - i + 1)).contains(x) {
                            let k = choose|k: int| 0 <= k < symbol_ids(rows.skip(i as int).take(j - i + 1)).len() && #[trigger] symbol_ids(rows.skip(i as int).take(j - i + 1))[k] == x;
                            if k < before.len() {
                                assert(before[k] == x);
                            }
                        }
                        if before.contains(x) {
                            let k = choose|k: int| 0 <= k < before.len() && #[trigger] before[k] == x;
                            assert(symbol_ids(rows.skip(i as int).take(j - i + 1))[k] == x);
                        }
                        if x == rows[j as int].symbol_id@ {
                            assert(symbol_ids(rows.skip(i as int).take(j - i + 1))[j - i] == x);
                        }
                    }
                }
                j = j + 1;
            }
            let ghost tail = rows.skip(i as int);
            proof {
                if !later {
                    assert(tail.take(j - i) =~= tail);
                }
                if later {
                    let t = choose|t: int| 0 <= t < symbol_ids(tail.take(j - i)).len() && #[trigger] symbol_ids(tail.take(j - i))[t] == rows[i - 1].symbol_id@;
                    assert(symbol_ids(tail)[t] == rows[i - 1].symbol_id@);
                }
                assert(rows.skip(i - 1).drop_first() =~= tail);
                assert(rows.skip(i - 1)[0] == rows[i - 1]);
            }
            if !later && !crate::ident::is_blank(row.symbol_id.as_str()) {
                let ghost before = kept@;
                kept.insert(0, copy_symbol(row));
                assert(kept@ =~= seq![rows[i - 1]] + before);
            }
            i = i - 1;
        }
        assert(rows.skip(0) =~= rows);
        proof {
            lemma_kept_rows(rows);
        }
        GraphCache { symbols: kept, edges: edge_rows }
    }
}

/// Serializable graph payload for graph viewers.
#[derive(Debug, Clone)]
pub struct GraphJson {
    pub nodes: Vec<GraphNodeJson>,
    pub edges: Vec<GraphEdgeJson>,
}

/// One node in the exported graph.
#[derive(Debug, Clone)]
pub struct GraphNodeJson {
    pub id: String,
    pub label: String,
    pub kind: String,
    pub file: String,
    pub community: String,
    pub hub_score: i32,
    pub color: String,
}

/// One directed edge in the exported graph.
#[derive(Debug, Clone)]
pub struct GraphEdgeJson {
    pub from: String,
    pub to: String,
    pub edge_type: String,
    pub weight: i32,
}

/// The exported form of an edge.
pub fn edge_for(edge: &EdgeDetails) -> (r: GraphEdgeJson)
    ensures
        r.from@ == edge.from_id@,
        r.to@ == edge.to_id@,
        r.edge_type@ == edge.edge_type@,
        r.weight == edge.weight,
{
    GraphEdgeJson {
        from: edge.from_id.clone(),
        to: edge.to_id.clone(),
        edge_type: edge.edge_type.clone(),
        weight: edge.weight,
    }
}

/// A path segment that names a community: not empty, not `src`, and not
/// starting with a dot.
pub open spec fn meaningful_segment(p: Seq<char>) -> bool {
    p.len() > 0 && p != seq!['s', 'r', 'c'] && !has_prefix(p, seq!['.'])
}

/// The first meaningful segment of `ps`.
pub open spec fn first_meaningful(ps: Seq<Seq<char>>) -> Option<Seq<char>>
    decreases ps.len(),
{
    if ps.len() == 0 {
        None
    } else if meaningful_segment(ps[0]) {
        Some(ps[0])
    } else {
        first_meaningful(ps.drop_first())
    }
}

/// The community of a file path: its first meaningful `/`-separated
/// segment (backslashes count as slashes), else `root`.
pub open spec fn community_label_spec(file_path: Seq<char>) -> Seq<char> {
    match first_meaningful(split_char(slashes(file_path), '/')) {
        Some(p) => p,
        None => seq!['r', 'o', 'o', 't'],
    }
}

proof fn lemma_first_meaningful_step(ps: Seq<Seq<char>>, i: int)
    requires
        0 <= i < ps.len(),
        !meaningful_segment(ps[i]),
    ensures
        first_meaningful(ps.skip(i)) == first_meaningful(ps.skip(i + 1)),
{
    assert(ps.skip(i).drop_first() =~= ps.skip(i + 1));
    assert(ps.skip(i)[0] == ps[i]);
}

/// Derives a short community name from a file path by returning the first
/// path segment that is neither empty, `"src"`, nor a dotfile prefix.
/// Falls back to `"root"` when no meaningful segment exists.
pub fn community_label(file_path: &str) -> (r: String)
    ensures
        r@ == community_label_spec(file_path@),
{
    let raw = chars_of(file_path);
    let mut v: Vec<char> = Vec::new();
    let mut i: usize = 0;
    while i < raw.len()
        invariant
            i <= raw@.len(),
            raw@ == file_path@,
            v@ == slashes(raw@.take(i as int)),
        decreases raw@.len() - i,
    {
        v.push(if raw[i] == '\\' { '/' } else { raw[i] });
        i = i + 1;
        assert(v@ =~= slashes(raw@.take(i as int)));
    }
    assert(raw@.take(raw@.len() as int) =~= raw@);
    assert(v@ == slashes(file_path@));
    let ranges = split_ranges(&v, 0, v.len(), '/');
    let ghost ps = split_char(v@.subrange(0, v@.len() as int), '/');
    assert(v@.subrange(0, v@.len() as int) =~= v@);
    let src = vec!['s', 'r', 'c'];
    let dot = vec!['.'];
    assert(src@ =~= seq!['s', 'r', 'c']);
    assert(dot@ =~= seq!['.']);
    let mut k: usize = 0;
    assert(ps.skip(0) =~= ps);
    while k < ranges.len()
        invariant
            k <= ranges@.len(),
            ranges_cover(v@, ranges@, ps),
            src@ == seq!['s', 'r', 'c'],
            dot@ == seq!['.'],
            first_meaningful(ps) == first_meaningful(ps.skip(k as int)),
            ps == split_char(slashes(file_path@), '/'),
        decreases ranges@.len() - k,
    {
        let (a, b) = ranges[k];
        let ghost p = v@.subrange(a as int, b as int);
        assert(ps[k as int] == p);
        if a < b && !range_equals(&v, a, b, &src) && !range_has_prefix(&v, a, b, &dot) {
            assert(ps.skip(k as int)[0] == p);
            assert(meaningful_segment(p));
            assert(first_meaningful(ps.skip(k as int)) == Some(p));
            let r = string_of(&v, a, b);
            assert(r@ == p);
            return r;
        }
        proof {
            lemma_first_meaningful_step(ps, k as int);
        }
        k = k + 1;
    }
    assert(ps.skip(ranges@.len() as int) =~= Seq::<Seq<char>>::empty());
    proof {
        reveal_strlit("root");
    }
    String::from_str("root")
}

/// The colours communities are drawn in.
pub open spec fn palette() -> Seq<Seq<char>> {
    seq![
        "#f59e0b"@, "#3b82f6"@, "#10b981"@, "#ec4899"@, "#8b5cf6"@, "#ef4444"@, "#14b8a6"@,
        "#f97316"@, "#84cc16"@, "#06b6d4"@, "#a855f7"@, "#eab308"@, "#22c55e"@, "#0ea5e9"@,
    ]
}

/// The multiplicative string hash over bytes: `h * 31 + byte`, wrapping
/// at 32 bits.
pub open spec fn palette_hash(bytes: Seq<u8>) -> u32
    decreases bytes.len(),
{
    if bytes.len() == 0 {
        0
    } else {
        palette_hash(bytes.drop_last()).wrapping_mul(31).wrapping_add(bytes.last() as u32)
    }
}

/// The colour of a community: the palette entry chosen by the hash of the
/// label's UTF-8 bytes.
pub open spec fn palette_color_spec(label: Seq<char>) -> Seq<char> {
    palette()[(palette_hash(vstd::utf8::encode_utf8(label)) % 14) as int]
}

/// Picks the display colour of a community.
pub fn palette_color(community_label: &str) -> (r: String)
    ensures
        r@ == palette_color_spec(community_label@),
{
    let bytes = community_label.as_bytes();
    let mut hash: u32 = 0;
    let mut i: usize = 0;
    while i < bytes.len()
        invariant
            i <= bytes@.len(),
            bytes@ == vstd::utf8::encode_utf8(community_label@),
            hash == palette_hash(bytes@.take(i as int)),
        decreases bytes@.len() - i,
    {
        assert(bytes@.take(i + 1).drop_last() =~= bytes@.take(i as int));
        hash = hash.wrapping_mul(31).wrapping_add(bytes[i] as u32);
        i = i + 1;
    }
    assert(bytes@.take(bytes@.len() as int) =~= bytes@);
    let index = hash % 14;
    let colors = [
        "#f59e0b", "#3b82f6", "#10b981", "#ec4899", "#8b5cf6", "#ef4444", "#14b8a6",
        "#f97316", "#84cc16", "#06b6d4", "#a855f7", "#eab308", "#22c55e", "#0ea5e9",
    ];
    let chosen = colors[index as usize];
    assert(chosen@ == palette()[index as int]);
    String::from_str(chosen)
}

/// Whether some entry of `v` equals `s`.
fn contains_string(v: &Vec<String>, s: &String) -> (r: bool)
    ensures
        r == strings_view(v@).contains(s@),
{
    let mut i: usize = 0;
    while i < v.len()
        invariant
            i <= v@.len(),
            forall|k: int| 0 <= k < i ==> v@[k]@ != s@,
        decreases v@.len() - i,
    {
        if v[i] == *s {
            assert(strings_view(v@)[i as int] == s@);
            return true;
        }
        i = i + 1;
    }
    assert forall|k: int| 0 <= k < strings_view(v@).len() implies strings_view(v@)[k] != s@ by {
        assert(strings_view(v@)[k] == v@[k]@);
    }
    false
}

/// Number of distinct texts among `items`.
fn count_distinct(items: Vec<String>) -> (r: usize)
    ensures
        r == strings_view(items@).to_set().len(),
{
    let ghost all = strings_view(items@);
    let mut distinct: Vec<String> = Vec::new();
    let mut i: usize = 0;
    assert(strings_view(distinct@).to_set() =~= all.take(0).to_set());
    while i < items.len()
        invariant
            i <= items@.len(),
            all == strings_view(items@),
            strings_view(distinct@).no_duplicates(),
            strings_view(distinct@).to_set() == all.take(i as int).to_set(),
            distinct@.len() <= i,
        decreases items@.len() - i,
    {
        let item = &items[i];
        assert(all.take(i + 1) =~= all.take(i as int).push(item@));
        if !contains_string(&distinct, item) {
            let ghost before = strings_view(distinct@);
            distinct.push(item.clone());
            assert(strings_view(distinct@) =~= before.push(item@));
            proof {
                before.lemma_push_to_set_commute(item@);
                all.take(i as int).lemma_push_to_set_commute(item@);
            }
            assert(strings_view(distinct@).to_set() =~= all.take(i + 1).to_set());
        } else {
            proof {
                all.take(i as int).lemma_push_to_set_commute(item@);
            }
            assert(all.take(i + 1).to_set() =~= all.take(i as int).to_set());
        }
        i = i + 1;
    }
    assert(all.take(items@.len() as int) =~= all);
    proof {
        strings_view(distinct@).unique_seq_to_set();
    }
    distinct.len()
}

/// File paths of a sequence of symbols.
pub open spec fn file_paths_of(ss: Seq<SymbolDetails>) -> Seq<Seq<char>> {
    ss.map_values(|s: SymbolDetails| s.file_path@)
}

/// Community labels of a sequence of symbols.
pub open spec fn communities_of(ss: Seq<SymbolDetails>) -> Seq<Seq<char>> {
    ss.map_values(|s: SymbolDetails| community_label_spec(s.file_path@))
}

/// Computes top-line statistics of the graph: symbols, edges counted once
/// per endpoint in the adjacency index, distinct communities and distinct
/// files.
pub fn compute_stats(graph_cache: &GraphCache) -> (r: GraphStats)
    requires
        graph_cache.wf(),
        graph_cache.edges@.len() * 2 <= usize::MAX,
    ensures
        r.total_symbols == graph_cache.symbols@.len(),
        r.total_edges == 2 * graph_cache.edges@.len(),
        r.community_count == communities_of(graph_cache.symbols@).to_set().len(),
        r.file_count == file_paths_of(graph_cache.symbols@).to_set().len(),
{
    let mut communities: Vec<String> = Vec::new();
    let mut files: Vec<String> = Vec::new();
    let mut i: usize = 0;
    while i < graph_cache.symbols.len()
        invariant
            i <= graph_cache.symbols@.len(),
            strings_view(communities@) == communities_of(graph_cache.symbols@.take(i as int)),
            strings_view(files@) == file_paths_of(graph_cache.symbols@.take(i as int)),
        decreases graph_cache.symbols@.len() - i,
    {
        let sym = &graph_cache.symbols[i];
        assert(graph_cache.symbols@.take(i + 1) =~= graph_cache.symbols@.take(i as int).push(*sym));
        let ghost bc = strings_view(communities@);
        let ghost bf = strings_view(files@);
        let label = community_label(sym.file_path.as_str());
        let path = sym.file_path.clone();
        communities.push(label);
        files.push(path);
        assert(strings_view(communities@) =~= bc.push(community_label_spec(sym.file_path@)));
        assert(strings_view(files@) =~= bf.push(sym.file_path@));
        assert(strings_view(communities@) =~= communities_of(graph_cache.symbols@.take(i + 1)));
        assert(strings_view(files@) =~= file_paths_of(graph_cache.symbols@.take(i + 1)));
        i = i + 1;
    }
    assert(graph_cache.symbols@.take(graph_cache.symbols@.len() as int) =~= graph_cache.symbols@);
    GraphStats {
        total_symbols: graph_cache.symbols.len(),
        total_edges: graph_cache.edges.len() * 2,
        community_count: count_distinct(communities),
        file_count: count_distinct(files),
    }
}

/// How a seed symbol was found.
#[derive(Debug, Clone, Copy, PartialEq, Eq, Hash, Structural)]
pub enum SeedSource {
    Semantic,
    Forced,
    Name,
}

impl SeedSource {
    /// The stable lowercase name of the seed source.
    pub fn as_str(&self) -> (r: &'static str)
        ensures
            r@ == match self {
                SeedSource::Semantic => "semantic"@,
                SeedSource::Forced => "forced"@,
                SeedSource::Name => "name"@,
            },
    {
        match self {
            SeedSource::Semantic => "semantic",
            SeedSource::Forced => "forced",
            SeedSource::Name => "name",
        }
    }
}

/// Endpoints of a sequence of edges.
pub open spec fn edge_ends(es: Seq<EdgeDetails>) -> Seq<(Seq<char>, Seq<char>)> {
    es.map_values(|e: EdgeDetails| (e.from_id@, e.to_id@))
}

/// `y` is one edge away from a node of `s` through edge `e`, in either
/// direction.
pub open spec fn steps_into(e: (Seq<char>, Seq<char>), s: Set<Seq<char>>, y: Seq<char>) -> bool {
    (s.contains(e.0) && e.1 == y) || (s.contains(e.1) && e.0 == y)
}

/// The nodes of `s` and their neighbours along `es`.
pub open spec fn expand(es: Seq<(Seq<char>, Seq<char>)>, s: Set<Seq<char>>) -> Set<Seq<char>> {
    s.union(Set::new(|y: Seq<char>| exists|i: int| 0 <= i < es.len() && steps_into(#[trigger] es[i], s, y)))
}

/// The nodes at most `k` edges away from `focus`, edges taken in either
/// direction.
pub open spec fn within_hops(es: Seq<(Seq<char>, Seq<char>)>, focus: Seq<char>, k: nat) -> Set<Seq<char>>
    decreases k,
{
    if k == 0 {
        set![focus]
    } else {
        expand(es, within_hops(es, focus, (k - 1) as nat))
    }
}

/// Adds `s` to `v` unless it is there already.
fn insert_distinct(v: &mut Vec<String>, s: &String)
    requires
        strings_view(old(v)@).no_duplicates(),
    ensures
        strings_view(final(v)@).no_duplicates(),
        strings_view(final(v)@).to_set() == strings_view(old(v)@).to_set().insert(s@),
{
    let ghost before = strings_view(v@);
    if !contains_string(v, s) {
        v.push(s.clone());
        assert(strings_view(v@) =~= before.push(s@));
        proof {
            before.lemma_push_to_set_commute(s@);
        }
    } else {
        assert(before.to_set().insert(s@) =~= before.to_set());
    }
}

/// The identifiers within `hops` edges of `focus_id`, each once.
pub fn focused_ids(graph_cache: &GraphCache, focus_id: &str, hops: usize) -> (r: Vec<String>)
    ensures
        strings_view(r@).no_duplicates(),
        strings_view(r@).to_set() == within_hops(edge_ends(graph_cache.edges@), focus_id@, hops as nat),
{
    let ghost es = edge_ends(graph_cache.edges@);
    let mut included: Vec<String> = Vec::new();
    included.push(String::from_str(focus_id));
    assert(strings_view(included@) =~= seq![focus_id@]);
    assert(strings_view(included@)[0] == focus_id@);
    assert(strings_view(included@).to_set() =~= set![focus_id@]);
    let mut level: usize = 0;
    while level < hops
        invariant
            level <= hops,
            es == edge_ends(graph_cache.edges@),
            strings_view(included@).no_duplicates(),
            strings_view(included@).to_set() == within_hops(es, focus_id@, level as nat),
        decreases hops - level,
    {
        let prev = included.clone();
        let ghost ps = strings_view(prev@).to_set();
        assert(strings_view(prev@) == strings_view(included@));
        let mut j: usize = 0;
        while j < graph_cache.edges.len()
            invariant
                j <= graph_cache.edges@.len(),
                es == edge_ends(graph_cache.edges@),
                ps == strings_view(prev@).to_set(),
                strings_view(included@).no_duplicates(),
                strings_view(included@).to_set() == ps.union(
                    Set::new(|y: Seq<char>| exists|i: int| 0 <= i < j && steps_into(#[trigger] es[i], ps, y)),
                ),
            decreases graph_cache.edges@.len() - j,
        {
            let e = &graph_cache.edges[j];
            assert(es[j as int] == (e.from_id@, e.to_id@));
            let ghost old_set = strings_view(included@).to_set();
            if contains_string(&prev, &e.from_id) {
                insert_distinct(&mut included, &e.to_id);
            }
            if contains_string(&prev, &e.to_id) {
                insert_distinct(&mut included, &e.from_id);
            }
            assert(strings_view(included@).to_set() =~= ps.union(
                Set::new(|y: Seq<char>| exists|i: int| 0 <= i < j + 1 && steps_into(#[trigger] es[i], ps, y)),
            )) by {
                assert forall|y: Seq<char>| (exists|i: int| 0 <= i < j + 1 && steps_into(#[trigger] es[i], ps, y))
                    <==> ((exists|i: int| 0 <= i < j && steps_into(#[trigger] es[i], ps, y)) || steps_into(es[j as int], ps, y)) by {
                    if exists|i: int| 0 <= i < j + 1 && steps_into(#[trigger] es[i], ps, y) {
                        let i = choose|i: int| 0 <= i < j + 1 && steps_into(#[trigger] es[i], ps, y);
                        if i < j {
                        }
                    }
                }
            }
            j = j + 1;
        }
        assert(strings_view(included@).to_set() =~= expand(es, ps));
        level = level + 1;
    }
    included
}

/// A focus exported with no hops shows at most the focus itself, and every
/// further hop only adds nodes.
pub proof fn focus_neighbourhoods_grow(es: Seq<(Seq<char>, Seq<char>)>, focus: Seq<char>, k: nat)
    ensures
        within_hops(es, focus, 0) == set![focus],
        within_hops(es, focus, k).contains(focus),
        within_hops(es, focus, k).subset_of(within_hops(es, focus, k + 1)),
    decreases k,
{
    if k > 0 {
        focus_neighbourhoods_grow(es, focus, (k - 1) as nat);
    }
}

/// Position of the first occurrence of `x` in `ids`.
pub open spec fn lookup(ids: Seq<Seq<char>>, x: Seq<char>) -> Option<int>
    decreases ids.len(),
{
    if ids.len() == 0 {
        None
    } else {
        match lookup(ids.drop_last(), x) {
            Some(i) => Some(i),
            None => if ids.last() == x { Some(ids.len() - 1) } else { None },
        }
    }
}

pub proof fn lemma_lookup_bounds(ids: Seq<Seq<char>>, x: Seq<char>)
    ensures
        lookup(ids, x) matches Some(i) ==> 0 <= i < ids.len() && ids[i] == x,
        lookup(ids, x) is None ==> !ids.contains(x),
    decreases ids.len(),
{
    if ids.len() > 0 {
        lemma_lookup_bounds(ids.drop_last(), x);
        if lookup(ids.drop_last(), x) is None && ids.last() != x {
            assert forall|k: int| 0 <= k < ids.len() implies ids[k] != x by {
                if k < ids.len() - 1 {
                    assert(ids.drop_last()[k] == ids[k]);
                }
            }
        }
    }
}

/// The community a node is in: its assigned community when it is a
/// symbol, else its own identifier.
pub open spec fn comm_at(ids: Seq<Seq<char>>, comms: Seq<Seq<char>>, x: Seq<char>) -> Seq<char> {
    match lookup(ids, x) {
        Some(i) => comms[i],
        None => x,
    }
}

/// The communities of `n`'s neighbours, one vote per adjacency entry, in
/// edge order.
pub open spec fn votes(ids: Seq<Seq<char>>, comms: Seq<Seq<char>>, es: Seq<(Seq<char>, Seq<char>)>, n: Seq<char>) -> Seq<Seq<char>>
    decreases es.len(),
{
    if es.len() == 0 {
        seq![]
    } else {
        let e = es.last();
        let prev = votes(ids, comms, es.drop_last(), n);
        let a = if e.0 == n { prev.push(comm_at(ids, comms, e.1)) } else { prev };
        if e.1 == n { a.push(comm_at(ids, comms, e.0)) } else { a }
    }
}

/// Occurrences of `c` in `vs`.
pub open spec fn count_of(vs: Seq<Seq<char>>, c: Seq<char>) -> nat
    decreases vs.len(),
{
    if vs.len() == 0 {
        0
    } else {
        count_of(vs.drop_last(), c) + if vs.last() == c { 1nat } else { 0nat }
    }
}

/// Among the entries of `vs`, the first with the most occurrences in `all`.
pub open spec fn pick(vs: Seq<Seq<char>>, all: Seq<Seq<char>>) -> Option<Seq<char>>
    decreases vs.len(),
{
    if vs.len() == 0 {
        None
    } else {
        match pick(vs.drop_last(), all) {
            None => Some(vs.last()),
            Some(b) => if count_of(all, vs.last()) > count_of(all, b) { Some(vs.last()) } else { Some(b) },
        }
    }
}

/// Community assignment after deciding the first `k` symbols in order:
/// each takes the community most of its neighbours are in, as assigned at
/// that moment; a symbol without neighbours keeps its own identifier.
pub open spec fn louvain_after(ids: Seq<Seq<char>>, es: Seq<(Seq<char>, Seq<char>)>, k: nat) -> Seq<Seq<char>>
    decreases k,
{
    if k == 0 {
        ids
    } else {
        let prev = louvain_after(ids, es, (k - 1) as nat);
        let vs = votes(ids, prev, es, ids[k - 1]);
        match pick(vs, vs) {
            Some(w) => prev.update(k - 1, w),
            None => prev,
        }
    }
}

proof fn lemma_louvain_len(ids: Seq<Seq<char>>, es: Seq<(Seq<char>, Seq<char>)>, k: nat)
    requires
        k <= ids.len(),
    ensures
        louvain_after(ids, es, k).len() == ids.len(),
        forall|j: int| k <= j < ids.len() ==> #[trigger] louvain_after(ids, es, k)[j] == ids[j],
    decreases k,
{
    if k > 0 {
        lemma_louvain_len(ids, es, (k - 1) as nat);
    }
}

/// Position of the symbol named `x`.
fn find_symbol(ids: &Vec<String>, x: &String) -> (r: Option<usize>)
    ensures
        match r {
            Some(i) => lookup(strings_view(ids@), x@) == Some(i as int),
            None => lookup(strings_view(ids@), x@) is None,
        },
{
    let ghost sv = strings_view(ids@);
    let mut i: usize = 0;
    while i < ids.len()
        invariant
            i <= ids@.len(),
            sv == strings_view(ids@),
            lookup(sv.take(i as int), x@) is None,
        decreases ids@.len() - i,
    {
        assert(sv.take(i + 1).drop_last() =~= sv.take(i as int));
        if ids[i] == *x {
            proof {
                lemma_lookup_prefix(sv, i + 1, x@);
            }
            return Some(i);
        }
        i = i + 1;
    }
    assert(sv.take(ids@.len() as int) =~= sv);
    None
}

proof fn lemma_lookup_prefix(ids: Seq<Seq<char>>, k: int, x: Seq<char>)
    requires
        0 <= k <= ids.len(),
        lookup(ids.take(k), x) is Some,
    ensures
        lookup(ids, x) == lookup(ids.take(k), x),
    decreases ids.len() - k,
{
    if k < ids.len() {
        assert(ids.take(k + 1).drop_last() =~= ids.take(k));
        lemma_lookup_prefix(ids, k + 1, x);
    } else {
        assert(ids.take(k) =~= ids);
    }
}

/// Occurrences of `c` in `vs`.
fn count_votes(vs: &Vec<String>, c: &String) -> (r: usize)
    ensures
        r == count_of(strings_view(vs@), c@),
{
    let ghost sv = strings_view(vs@);
    let mut n: usize = 0;
    let mut i: usize = 0;
    while i < vs.len()
        invariant
            i <= vs@.len(),
            sv == strings_view(vs@),
            n == count_of(sv.take(i as int), c@),
            n <= i,
        decreases vs@.len() - i,
    {
        assert(sv.take(i + 1).drop_last() =~= sv.take(i as int));
        if vs[i] == *c {
            n = n + 1;
        }
        i = i + 1;
    }
    assert(sv.take(vs@.len() as int) =~= sv);
    n
}

/// Runs one pass of neighbour-vote community detection over the symbols in
/// order and returns each symbol's identifier with its community. Ties
/// between equally popular communities go to the one voted first.
pub fn detect_communities(graph_cache: &GraphCache) -> (r: Vec<(String, String)>)
    requires
        graph_cache.wf(),
    ensures
        r@.len() == graph_cache.symbols@.len(),
        forall|i: int| 0 <= i < r@.len() ==> (#[trigger] r@[i]).0@ == graph_cache.symbols@[i].symbol_id@,
        forall|i: int| 0 <= i < r@.len() ==> (#[trigger] r@[i]).1@ == louvain_after(
            symbol_ids(graph_cache.symbols@),
            edge_ends(graph_cache.edges@),
            graph_cache.symbols@.len() as nat,
        )[i],
{
    let ghost ids = symbol_ids(graph_cache.symbols@);
    let ghost es = edge_ends(graph_cache.edges@);
    let mut id_list: Vec<String> = Vec::new();
    let mut k: usize = 0;
    while k < graph_cache.symbols.len()
        invariant
            k <= graph_cache.symbols@.len(),
            ids == symbol_ids(graph_cache.symbols@),
            strings_view(id_list@) == ids.take(k as int),
        decreases graph_cache.symbols@.len() - k,
    {
        let ghost before = strings_view(id_list@);
        let sid = graph_cache.symbols[k].symbol_id.clone();
        assert(ids[k as int] == graph_cache.symbols@[k as int].symbol_id@);
        assert(sid@ == ids[k as int]);
        id_list.push(sid);
        assert(ids.take(k + 1) =~= ids.take(k as int).push(ids[k as int]));
        assert(strings_view(id_list@) =~= ids.take(k + 1));
        k = k + 1;
    }
    assert(ids.take(ids.len() as int) =~= ids);
    let mut from_idx: Vec<Option<usize>> = Vec::new();
    let mut to_idx: Vec<Option<usize>> = Vec::new();
    let mut j: usize = 0;
    while j < graph_cache.edges.len()
        invariant
            j <= graph_cache.edges@.len(),
            strings_view(id_list@) == ids,
            es == edge_ends(graph_cache.edges@),
            from_idx@.len() == j,
            to_idx@.len() == j,
            forall|t: int| 0 <= t < j ==> match #[trigger] from_idx@[t] { Some(i) => lookup(ids, es[t].0) == Some(i as int), None => lookup(ids, es[t].0) is None },
            forall|t: int| 0 <= t < j ==> match #[trigger] to_idx@[t] { Some(i) => lookup(ids, es[t].1) == Some(i as int), None => lookup(ids, es[t].1) is None },
        decreases graph_cache.edges@.len() - j,
    {
        let e = &graph_cache.edges[j];
        assert(es[j as int] == (e.from_id@, e.to_id@));
        from_idx.push(find_symbol(&id_list, &e.from_id));
        to_idx.push(find_symbol(&id_list, &e.to_id));
        j = j + 1;
    }
    let mut comms: Vec<String> = id_list.clone();
    assert(strings_view(comms@) =~= ids);
    let mut k: usize = 0;
    while k < id_list.len()
        invariant
            k <= id_list@.len() == ids.len(),
            strings_view(id_list@) == ids,
            es == edge_ends(graph_cache.edges@),
            from_idx@.len() == es.len(),
            to_idx@.len() == es.len(),
            forall|t: int| 0 <= t < es.len() ==> match #[trigger] from_idx@[t] { Some(i) => lookup(ids, es[t].0) == Some(i as int), None => lookup(ids, es[t].0) is None },
            forall|t: int| 0 <= t < es.len() ==> match #[trigger] to_idx@[t] { Some(i) => lookup(ids, es[t].1) == Some(i as int), None => lookup(ids, es[t].1) is None },
            strings_view(comms@) == louvain_after(ids, es, k as nat),
        decreases id_list@.len() - k,
    {
        proof {
            lemma_louvain_len(ids, es, k as nat);
        }
        let ghost prev = strings_view(comms@);
        let node = &id_list[k];
        let mut vs: Vec<String> = Vec::new();
        let mut t: usize = 0;
        while t < graph_cache.edges.len()
            invariant
                t <= graph_cache.edges@.len() == es.len(),
                k < ids.len(),
                node@ == ids[k as int],
                es == edge_ends(graph_cache.edges@),
                prev == strings_view(comms@),
                prev.len() == ids.len(),
                from_idx@.len() == es.len(),
                to_idx@.len() == es.len(),
                forall|u: int| 0 <= u < es.len() ==> match #[trigger] from_idx@[u] { Some(i) => lookup(ids, es[u].0) == Some(i as int), None => lookup(ids, es[u].0) is None },
                forall|u: int| 0 <= u < es.len() ==> match #[trigger] to_idx@[u] { Some(i) => lookup(ids, es[u].1) == Some(i as int), None => lookup(ids, es[u].1) is None },
                strings_view(vs@) == votes(ids, prev, es.take(t as int), ids[k as int]),
            decreases graph_cache.edges@.len() - t,
        {
            let e = &graph_cache.edges[t];
            assert(es[t as int] == (e.from_id@, e.to_id@));
            assert(es.take(t + 1).drop_last() =~= es.take(t as int));
            assert(es.take(t + 1).last() == es[t as int]);
            proof {
                lemma_lookup_bounds(ids, e.to_id@);
                lemma_lookup_bounds(ids, e.from_id@);
            }
            let ghost v0 = strings_view(vs@);
            if e.from_id == *node {
                let vote = match to_idx[t] {
                    Some(i) => {
                        assert(prev[i as int] == comms@[i as int]@);
                        comms[i].clone()
                    },
                    None => e.to_id.clone(),
                };
                assert(vote@ == comm_at(ids, prev, e.to_id@));
                vs.push(vote);
                assert(strings_view(vs@) =~= v0.push(comm_at(ids, prev, e.to_id@)));
            }
            let ghost v1 = strings_view(vs@);
            if e.to_id == *node {
                let vote = match from_idx[t] {
                    Some(i) => {
                        assert(prev[i as int] == comms@[i as int]@);
                        comms[i].clone()
                    },
                    None => e.from_id.clone(),
                };
                assert(vote@ == comm_at(ids, prev, e.from_id@));
                vs.push(vote);
                assert(strings_view(vs@) =~= v1.push(comm_at(ids, prev, e.from_id@)));
            }
            t = t + 1;
        }
        assert(es.take(es.len() as int) =~= es);
        let ghost all = strings_view(vs@);
        let mut best: Option<usize> = None;
        let mut best_count: usize = 0;
        let mut q: usize = 0;
        while q < vs.len()
            invariant
                q <= vs@.len(),
                all == strings_view(vs@),
                match pick(all.take(q as int), all) {
                    None => best is None,
                    Some(b) => best matches Some(bi) && bi < vs@.len() && all[bi as int] == b && best_count == count_of(all, b),
                },
            decreases vs@.len() - q,
        {
            assert(all.take(q + 1).drop_last() =~= all.take(q as int));
            assert(all.take(q + 1).last() == all[q as int]);
            let c = count_votes(&vs, &vs[q]);
            match best {
                None => {
                    best = Some(q);
                    best_count = c;
                },
                Some(_) => {
                    if c > best_count {
                        best = Some(q);
                        best_count = c;
                    }
                },
            }
            q = q + 1;
        }
        assert(all.take(vs@.len() as int) =~= all);
        match best {
            Some(bi) => {
                let w = vs[bi].clone();
                comms.set(k, w);
                assert(strings_view(comms@) =~= prev.update(k as int, all[bi as int]));
            },
            None => {},
        }
        k = k + 1;
    }
    proof {
        lemma_louvain_len(ids, es, ids.len() as nat);
    }
    assert(comms@.len() == strings_view(comms@).len());
    let mut r: Vec<(String, String)> = Vec::new();
    let mut i: usize = 0;
    while i < id_list.len()
        invariant
            i <= id_list@.len() == ids.len() == comms@.len(),
            strings_view(id_list@) == ids,
            ids == symbol_ids(graph_cache.symbols@),
            strings_view(comms@) == louvain_after(ids, es, ids.len() as nat),
            r@.len() == i,
            forall|t: int| 0 <= t < i ==> (#[trigger] r@[t]).0@ == ids[t] && r@[t].1@ == strings_view(comms@)[t],
        decreases id_list@.len() - i,
    {
        r.push((id_list[i].clone(), comms[i].clone()));
        i = i + 1;
    }
    r
}

proof fn lemma_votes_empty(ids: Seq<Seq<char>>, comms: Seq<Seq<char>>, es: Seq<(Seq<char>, Seq<char>)>, n: Seq<char>)
    requires
        forall|i: int| 0 <= i < es.len() ==> (#[trigger] es[i]).0 != n && es[i].1 != n,
    ensures
        votes(ids, comms, es, n) == Seq::<Seq<char>>::empty(),
    decreases es.len(),
{
    if es.len() > 0 {
        assert forall|i: int| 0 <= i < es.drop_last().len() implies (#[trigger] es.drop_last()[i]).0 != n
            && es.drop_last()[i].1 != n by {
            assert(es.drop_last()[i] == es[i]);
        }
        lemma_votes_empty(ids, comms, es.drop_last(), n);
        assert(es.last() == es[es.len() - 1]);
    }
}

/// A symbol that no edge touches stays in the singleton community named by
/// its own identifier.
pub proof fn isolated_symbols_stay_alone(ids: Seq<Seq<char>>, es: Seq<(Seq<char>, Seq<char>)>, k: nat, i: int)
    requires
        k <= ids.len(),
        0 <= i < ids.len(),
        forall|t: int| 0 <= t < es.len() ==> (#[trigger] es[t]).0 != ids[i] && es[t].1 != ids[i],
    ensures
        louvain_after(ids, es, k)[i] == ids[i],
    decreases k,
{
    lemma_louvain_len(ids, es, k);
    if k > 0 {
        isolated_symbols_stay_alone(ids, es, (k - 1) as nat, i);
        let prev = louvain_after(ids, es, (k - 1) as nat);
        lemma_louvain_len(ids, es, (k - 1) as nat);
        if k - 1 == i {
            lemma_votes_empty(ids, prev, es, ids[i]);
        }
    }
}

proof fn lemma_pick_max(vs: Seq<Seq<char>>, all: Seq<Seq<char>>)
    ensures
        vs.len() == 0 <==> pick(vs, all) is None,
        pick(vs, all) matches Some(b) ==> vs.contains(b) && forall|j: int| 0 <= j < vs.len() ==> count_of(all, #[trigger] vs[j]) <= count_of(all, b),
    decreases vs.len(),
{
    if vs.len() > 0 {
        lemma_pick_max(vs.drop_last(), all);
        let p = pick(vs, all).unwrap();
        assert forall|j: int| 0 <= j < vs.len() implies count_of(all, #[trigger] vs[j]) <= count_of(all, p) by {
            if j < vs.len() - 1 {
                assert(vs.drop_last()[j] == vs[j]);
            }
        }
        match pick(vs.drop_last(), all) {
            Some(b) => {
                if count_of(all, vs.last()) > count_of(all, b) {
                    assert(vs[vs.len() - 1] == p);
                } else {
                    let w = choose|w: int| 0 <= w < vs.drop_last().len() && vs.drop_last()[w] == b;
                    assert(vs[w] == b);
                }
            },
            None => {
                assert(vs[vs.len() - 1] == p);
            },
        }
    }
}

/// Number of edges of `es` that start (`from_n`) or end at `n` and whose
/// other end lies, by `comms`, in community `c`.
pub open spec fn neighbour_edges(ids: Seq<Seq<char>>, comms: Seq<Seq<char>>, es: Seq<(Seq<char>, Seq<char>)>, n: Seq<char>, c: Seq<char>, from_n: bool) -> nat
    decreases es.len(),
{
    if es.len() == 0 {
        0
    } else {
        let e = es.last();
        let hit = if from_n {
            e.0 == n && comm_at(ids, comms, e.1) == c
        } else {
            e.1 == n && comm_at(ids, comms, e.0) == c
        };
        neighbour_edges(ids, comms, es.drop_last(), n, c, from_n) + if hit { 1nat } else { 0nat }
    }
}

/// A node's neighbours vote in both directions: the votes for community
/// `c` are one per edge out of the node to a symbol of `c` plus one per
/// edge into the node from a symbol of `c`.
pub proof fn votes_count_both_edge_directions(
    ids: Seq<Seq<char>>,
    comms: Seq<Seq<char>>,
    es: Seq<(Seq<char>, Seq<char>)>,
    n: Seq<char>,
    c: Seq<char>,
)
    ensures
        count_of(votes(ids, comms, es, n), c) == neighbour_edges(ids, comms, es, n, c, true) + neighbour_edges(
            ids,
            comms,
            es,
            n,
            c,
            false,
        ),
    decreases es.len(),
{
    if es.len() > 0 {
        votes_count_both_edge_directions(ids, comms, es.drop_last(), n, c);
        let e = es.last();
        let prev = votes(ids, comms, es.drop_last(), n);
        let a = if e.0 == n { prev.push(comm_at(ids, comms, e.1)) } else { prev };
        if e.0 == n {
            assert(prev.push(comm_at(ids, comms, e.1)).drop_last() =~= prev);
        }
        assert(count_of(a, c) == count_of(prev, c) + if e.0 == n && comm_at(ids, comms, e.1) == c { 1nat } else { 0nat });
        let b = if e.1 == n { a.push(comm_at(ids, comms, e.0)) } else { a };
        if e.1 == n {
            assert(a.push(comm_at(ids, comms, e.0)).drop_last() =~= a);
        }
        assert(count_of(b, c) == count_of(a, c) + if e.1 == n && comm_at(ids, comms, e.0) == c { 1nat } else { 0nat });
        assert(votes(ids, comms, es, n) == b);
    } else {
        assert(votes(ids, comms, es, n) =~= Seq::<Seq<char>>::empty());
    }
}

/// A symbol that some edge starts or ends at has a vote for the community
/// of the other end, so the pass puts it in a community some neighbour
/// votes for, one with the most votes.
pub proof fn linked_symbols_join_a_neighbour_community(ids: Seq<Seq<char>>, es: Seq<(Seq<char>, Seq<char>)>, k: nat, t: int)
    requires
        0 < k <= ids.len(),
        0 <= t < es.len(),
        es[t].0 == ids[k - 1] || es[t].1 == ids[k - 1],
    ensures
        ({
            let prev = louvain_after(ids, es, (k - 1) as nat);
            let vs = votes(ids, prev, es, ids[k - 1]);
            &&& count_of(vs, louvain_after(ids, es, k)[k - 1]) > 0
            &&& forall|c: Seq<char>| #[trigger] count_of(vs, c) <= count_of(vs, louvain_after(ids, es, k)[k - 1])
        }),
{
    let prev = louvain_after(ids, es, (k - 1) as nat);
    let n = ids[k - 1];
    let vs = votes(ids, prev, es, n);
    let other = if es[t].0 == n { es[t].1 } else { es[t].0 };
    let c0 = comm_at(ids, prev, other);
    lemma_neighbour_edge_counted(ids, prev, es, n, t);
    votes_count_both_edge_directions(ids, prev, es, n, c0);
    lemma_count_positive_contains(vs, c0);
    communities_follow_the_majority(ids, es, k);
    let w = louvain_after(ids, es, k)[k - 1];
    lemma_count_positive_contains(vs, w);
    assert forall|c: Seq<char>| #[trigger] count_of(vs, c) <= count_of(vs, w) by {
        if count_of(vs, c) > 0 {
            lemma_count_positive_contains(vs, c);
            let q = choose|q: int| 0 <= q < vs.len() && vs[q] == c;
            assert(count_of(vs, vs[q]) <= count_of(vs, w));
        }
    }
}

proof fn lemma_neighbour_edge_counted(ids: Seq<Seq<char>>, comms: Seq<Seq<char>>, es: Seq<(Seq<char>, Seq<char>)>, n: Seq<char>, t: int)
    requires
        0 <= t < es.len(),
        es[t].0 == n || es[t].1 == n,
    ensures
        es[t].0 == n ==> neighbour_edges(ids, comms, es, n, comm_at(ids, comms, es[t].1), true) > 0,
        es[t].1 == n ==> neighbour_edges(ids, comms, es, n, comm_at(ids, comms, es[t].0), false) > 0,
    decreases es.len(),
{
    if t < es.len() - 1 {
        assert(es.drop_last()[t] == es[t]);
        lemma_neighbour_edge_counted(ids, comms, es.drop_last(), n, t);
    }
}

proof fn lemma_count_positive_contains(vs: Seq<Seq<char>>, c: Seq<char>)
    ensures
        count_of(vs, c) > 0 <==> vs.contains(c),
    decreases vs.len(),
{
    if vs.len() > 0 {
        lemma_count_positive_contains(vs.drop_last(), c);
        if vs.drop_last().contains(c) {
            let q = choose|q: int| 0 <= q < vs.drop_last().len() && vs.drop_last()[q] == c;
            assert(vs[q] == c);
        }
        if vs.contains(c) && vs.last() != c {
            let q = choose|q: int| 0 <= q < vs.len() && vs[q] == c;
            assert(vs.drop_last()[q] == c);
        }
        if vs.last() == c {
            assert(vs[vs.len() - 1] == c);
        }
    }
}


/// Each symbol that has neighbours joins a community that received at
/// least as many of its neighbours' votes as any other, and one that some
/// neighbour voted for.
pub proof fn communities_follow_the_majority(ids: Seq<Seq<char>>, es: Seq<(Seq<char>, Seq<char>)>, k: nat)
    requires
        0 < k <= ids.len(),
    ensures
        ({
            let prev = louvain_after(ids, es, (k - 1) as nat);
            let vs = votes(ids, prev, es, ids[k - 1]);
            vs.len() > 0 ==> vs.contains(louvain_after(ids, es, k)[k - 1]) && forall|j: int|
                0 <= j < vs.len() ==> count_of(vs, #[trigger] vs[j]) <= count_of(vs, louvain_after(ids, es, k)[k - 1])
        }),
{
    let prev = louvain_after(ids, es, (k - 1) as nat);
    let vs = votes(ids, prev, es, ids[k - 1]);
    lemma_pick_max(vs, vs);
    lemma_louvain_len(ids, es, (k - 1) as nat);
}

/// Community detection never yields more communities than there are
/// symbols.
pub proof fn communities_at_most_symbols(ids: Seq<Seq<char>>, es: Seq<(Seq<char>, Seq<char>)>)
    ensures
        louvain_after(ids, es, ids.len() as nat).to_set().len() <= ids.len(),
{
    lemma_louvain_len(ids, es, ids.len() as nat);
    louvain_after(ids, es, ids.len() as nat).lemma_cardinality_of_set();
}

/// Whether `p` occurs in `s`.
pub open spec fn occurs(s: Seq<char>, p: Seq<char>) -> bool {
    find_seq(s, p) is Some
}

/// A lowercased symbol name that marks a test: `test`, or starting with
/// `test_`, containing `_test_` or ending with `_test`.
pub open spec fn is_test_name(nl: Seq<char>) -> bool {
    has_prefix(nl, seq!['t', 'e', 's', 't', '_']) || occurs(nl, seq!['_', 't', 'e', 's', 't', '_'])
        || nl == seq!['t', 'e', 's', 't'] || has_suffix(nl, seq!['_', 't', 'e', 's', 't'])
}

/// A lowercased file name that marks a test file: starting with `test_`,
/// or containing `_test.` or `.test.`.
pub open spec fn is_test_file_name(fl: Seq<char>) -> bool {
    has_prefix(fl, seq!['t', 'e', 's', 't', '_']) || occurs(fl, seq!['_', 't', 'e', 's', 't', '.'])
        || occurs(fl, seq!['.', 't', 'e', 's', 't', '.'])
}

/// A lowercased directory name that holds tests, benches, fixtures or examples.
pub open spec fn is_test_dir(sl: Seq<char>) -> bool {
    sl == seq!['t', 'e', 's', 't', 's'] || sl == seq!['b', 'e', 'n', 'c', 'h', 'e', 's'] || sl == seq![
        'f',
        'i',
        'x',
        't',
        'u',
        'r',
        'e',
        's',
    ] || sl == seq!['e', 'x', 'a', 'm', 'p', 'l', 'e', 's']
}

/// The segments of a path split at `/` and `\`.
pub open spec fn path_pieces(path: Seq<char>) -> Seq<Seq<char>> {
    split_char(slashes(path), '/')
}

/// Whether some segment of the path, lowercased, names a test directory.
pub open spec fn has_test_segment(path: Seq<char>) -> bool {
    exists|i: int| 0 <= i < path_pieces(path).len() && is_test_dir(lowercase_spec(#[trigger] path_pieces(path)[i]))
}

/// Whether a file path or file identifier marks test code: by its file
/// name or by a test directory on the way.
pub open spec fn is_test_path(path: Seq<char>) -> bool {
    is_test_file_name(lowercase_spec(path_pieces(path).last())) || has_test_segment(path)
}

/// Whether a symbol is test code, by its name or its file's path.
pub open spec fn is_test_symbol_spec(name: Seq<char>, path: Seq<char>) -> bool {
    is_test_name(lowercase_spec(name)) || is_test_path(path)
}

/// The characters of `v[lo..hi]`, lowercased.
fn lower_range(v: &Vec<char>, lo: usize, hi: usize) -> (r: Vec<char>)
    requires
        lo <= hi <= v@.len(),
    ensures
        r@ == lowercase_spec(v@.subrange(lo as int, hi as int)),
{
    let piece = string_of(v, lo, hi);
    let lowered = to_lowercase(piece.as_str());
    chars_of(lowered.as_str())
}

/// Whether `p` occurs in `v`.
fn occurs_in(v: &Vec<char>, p: &Vec<char>) -> (r: bool)
    ensures
        r == occurs(v@, p@),
{
    assert(v@.subrange(0, v@.len() as int) =~= v@);
    find_in_range(v, 0, v.len(), p).is_some()
}

/// Decides `is_test_name` on a lowercased name.
fn test_name(nl: &Vec<char>) -> (r: bool)
    ensures
        r == is_test_name(nl@),
{
    let test_ = vec!['t', 'e', 's', 't', '_'];
    let _test_ = vec!['_', 't', 'e', 's', 't', '_'];
    let test = vec!['t', 'e', 's', 't'];
    let _test = vec!['_', 't', 'e', 's', 't'];
    assert(test_@ =~= seq!['t', 'e', 's', 't', '_']);
    assert(_test_@ =~= seq!['_', 't', 'e', 's', 't', '_']);
    assert(test@ =~= seq!['t', 'e', 's', 't']);
    assert(_test@ =~= seq!['_', 't', 'e', 's', 't']);
    assert(nl@.subrange(0, nl@.len() as int) =~= nl@);
    range_has_prefix(nl, 0, nl.len(), &test_) || occurs_in(nl, &_test_) || range_equals(nl, 0, nl.len(), &test)
        || range_has_suffix(nl, 0, nl.len(), &_test)
}

/// Decides `is_test_file_name` on a lowercased file name.
fn test_file_name(fl: &Vec<char>) -> (r: bool)
    ensures
        r == is_test_file_name(fl@),
{
    let test_ = vec!['t', 'e', 's', 't', '_'];
    let _test_dot = vec!['_', 't', 'e', 's', 't', '.'];
    let dot_test_dot = vec!['.', 't', 'e', 's', 't', '.'];
    assert(test_@ =~= seq!['t', 'e', 's', 't', '_']);
    assert(_test_dot@ =~= seq!['_', 't', 'e', 's', 't', '.']);
    assert(dot_test_dot@ =~= seq!['.', 't', 'e', 's', 't', '.']);
    assert(fl@.subrange(0, fl@.len() as int) =~= fl@);
    range_has_prefix(fl, 0, fl.len(), &test_) || occurs_in(fl, &_test_dot) || occurs_in(fl, &dot_test_dot)
}

/// Decides `is_test_dir` on a lowercased directory name.
fn test_dir(sl: &Vec<char>) -> (r: bool)
    ensures
        r == is_test_dir(sl@),
{
    let tests = vec!['t', 'e', 's', 't', 's'];
    let benches = vec!['b', 'e', 'n', 'c', 'h', 'e', 's'];
    let fixtures = vec!['f', 'i', 'x', 't', 'u', 'r', 'e', 's'];
    let examples = vec!['e', 'x', 'a', 'm', 'p', 'l', 'e', 's'];
    assert(tests@ =~= seq!['t', 'e', 's', 't', 's']);
    assert(benches@ =~= seq!['b', 'e', 'n', 'c', 'h', 'e', 's']);
    assert(fixtures@ =~= seq!['f', 'i', 'x', 't', 'u', 'r', 'e', 's']);
    assert(examples@ =~= seq!['e', 'x', 'a', 'm', 'p', 'l', 'e', 's']);
    assert(sl@.subrange(0, sl@.len() as int) =~= sl@);
    range_equals(sl, 0, sl.len(), &tests) || range_equals(sl, 0, sl.len(), &benches) || range_equals(
        sl,
        0,
        sl.len(),
        &fixtures,
    ) || range_equals(sl, 0, sl.len(), &examples)
}

/// Decides `is_test_path`.
fn test_path(path: &str) -> (r: bool)
    ensures
        r == is_test_path(path@),
{
    let raw = chars_of(path);
    let mut v: Vec<char> = Vec::new();
    let mut i: usize = 0;
    while i < raw.len()
        invariant
            i <= raw@.len(),
            raw@ == path@,
            v@ == slashes(raw@.take(i as int)),
        decreases raw@.len() - i,
    {
        v.push(if raw[i] == '\\' { '/' } else { raw[i] });
        i = i + 1;
        assert(v@ =~= slashes(raw@.take(i as int)));
    }
    assert(raw@.take(raw@.len() as int) =~= raw@);
    assert(v@.subrange(0, v@.len() as int) =~= v@);
    let ranges = split_ranges(&v, 0, v.len(), '/');
    let ghost ps = path_pieces(path@);
    let n = ranges.len();
    let (la, lb) = ranges[n - 1];
    let file_lower = lower_range(&v, la, lb);
    let by_name = test_file_name(&file_lower);
    let mut k: usize = 0;
    let mut found = false;
    while k < n
        invariant
            k <= n == ranges@.len(),
            ranges_cover(v@, ranges@, ps),
            ps == path_pieces(path@),
            found == exists|t: int| 0 <= t < k && is_test_dir(lowercase_spec(#[trigger] ps[t])),
        decreases n - k,
    {
        let (a, b) = ranges[k];
        let lowered = lower_range(&v, a, b);
        if test_dir(&lowered) {
            found = true;
        }
        k = k + 1;
    }
    by_name || found
}

/// Whether a symbol is test code, from its name and its file's path.
pub fn is_test_symbol(name: &str, path: &str) -> (r: bool)
    ensures
        r == is_test_symbol_spec(name@, path@),
{
    let lowered = to_lowercase(name);
    let nl = chars_of(lowered.as_str());
    test_name(&nl) || test_path(path)
}

/// The connectivity score of a symbol from its edge counts: calls in count
/// three, direct imports two, imports of its file and calls out one each;
/// a test symbol scores only its calls in and direct imports.
pub open spec fn connectivity_spec(is_test: bool, calls_in: int, calls_out: int, direct_imports: int, file_imports: int) -> int {
    if is_test {
        calls_in + direct_imports
    } else {
        calls_in * 3 + direct_imports * 2 + file_imports + calls_out
    }
}

/// What the index knows about a symbol when scoring it: its name and file
/// path, or failing that its file identifier, and its edge counts.
pub struct ConnectivityFacts {
    /// The symbol's name and its file's path, when the symbol is indexed with its file.
    pub name_and_path: Option<(String, String)>,
    /// The symbol's file identifier, when only that is known.
    pub file_id: Option<String>,
    pub calls_in: i32,
    pub calls_out: i32,
    pub direct_imports: i32,
    pub file_imports: i32,
}

/// Whether the symbol the facts describe is test code: by name and path
/// when they are known, else by the file identifier, else not.
pub open spec fn facts_is_test(f: ConnectivityFacts) -> bool {
    match f.name_and_path {
        Some((n, p)) => is_test_symbol_spec(n@, p@),
        None => match f.file_id {
            Some(id) => is_test_path(id@),
            None => false,
        },
    }
}

/// Computes the connectivity score of a symbol from what the index knows
/// about it.
pub fn compute_connectivity(facts: &ConnectivityFacts) -> (r: i32)
    requires
        0 <= facts.calls_in,
        0 <= facts.calls_out,
        0 <= facts.direct_imports,
        0 <= facts.file_imports,
        facts.calls_in * 3 + facts.direct_imports * 2 + facts.file_imports + facts.calls_out <= i32::MAX,
    ensures
        r == connectivity_spec(
            facts_is_test(*facts),
            facts.calls_in as int,
            facts.calls_out as int,
            facts.direct_imports as int,
            facts.file_imports as int,
        ),
{
    let is_test = match &facts.name_and_path {
        Some((name, path)) => is_test_symbol(name.as_str(), path.as_str()),
        None => match &facts.file_id {
            Some(id) => test_path(id.as_str()),
            None => false,
        },
    };
    if is_test {
        facts.calls_in + facts.direct_imports
    } else {
        facts.calls_in * 3 + facts.direct_imports * 2 + facts.file_imports + facts.calls_out
    }
}

/// Mathematical value of a hub entry.
pub struct HubV {
    pub name: Seq<char>,
    pub symbol_id: Seq<char>,
    pub score: i32,
    pub file_path: Seq<char>,
}

/// Value of a hub entry.
pub open spec fn hub_view(h: HubEntry) -> HubV {
    HubV { name: h.name@, symbol_id: h.symbol_id@, score: h.connectivity_score, file_path: h.file_path@ }
}

/// Values of a sequence of hub entries.
pub open spec fn hubs_view(hs: Seq<HubEntry>) -> Seq<HubV> {
    hs.map_values(|h: HubEntry| hub_view(h))
}

/// The hub entry of each symbol, in order.
pub open spec fn hub_entries(ss: Seq<SymbolDetails>) -> Seq<HubV> {
    ss.map_values(
        |s: SymbolDetails|
            HubV { name: s.name@, symbol_id: s.symbol_id@, score: s.connectivity_score, file_path: s.file_path@ },
    )
}

/// Hub order: higher connectivity first, then names alphabetically.
pub open spec fn hub_before(x: HubV, y: HubV) -> bool {
    x.score > y.score || (x.score == y.score && lex_lt(x.name, y.name))
}

/// Where a stable insertion puts `x` into `t`: after every entry that `x`
/// does not precede.
pub open spec fn hub_insert_pos(t: Seq<HubV>, x: HubV) -> int
    decreases t.len(),
{
    if t.len() == 0 {
        0
    } else if hub_before(x, t[0]) {
        0
    } else {
        1 + hub_insert_pos(t.drop_first(), x)
    }
}

/// Stable sort of hub entries in hub order (entries equal in score and
/// name keep their input order).
pub open spec fn sort_hubs(s: Seq<HubV>) -> Seq<HubV>
    decreases s.len(),
{
    if s.len() == 0 {
        seq![]
    } else {
        let t = sort_hubs(s.drop_last());
        t.insert(hub_insert_pos(t, s.last()), s.last())
    }
}

/// No entry precedes an earlier one in hub order.
pub open spec fn hubs_ranked(s: Seq<HubV>) -> bool {
    forall|i: int, j: int| 0 <= i < j < s.len() ==> !hub_before(#[trigger] s[j], #[trigger] s[i])
}

proof fn lemma_hub_before_order(x: HubV, y: HubV, z: HubV)
    ensures
        !hub_before(x, x),
        hub_before(x, y) && hub_before(y, z) ==> hub_before(x, z),
{
    lemma_lex_irreflexive(x.name);
    if hub_before(x, y) && hub_before(y, z) && x.score == z.score {
        lemma_lex_transitive(x.name, y.name, z.name);
    }
}

proof fn lemma_hub_insert_pos(t: Seq<HubV>, x: HubV)
    ensures
        0 <= hub_insert_pos(t, x) <= t.len(),
        forall|k: int| 0 <= k < hub_insert_pos(t, x) ==> !hub_before(x, #[trigger] t[k]),
        hub_insert_pos(t, x) < t.len() ==> hub_before(x, t[hub_insert_pos(t, x)]),
    decreases t.len(),
{
    if t.len() > 0 && !hub_before(x, t[0]) {
        lemma_hub_insert_pos(t.drop_first(), x);
        assert forall|k: int| 0 <= k < hub_insert_pos(t, x) implies !hub_before(x, #[trigger] t[k]) by {
            if k > 0 {
                assert(t[k] == t.drop_first()[k - 1]);
            }
        }
    }
}

/// Hub ranking orders entries by connectivity, then name, and keeps every
/// entry exactly once.
pub proof fn hubs_are_ranked(s: Seq<HubV>)
    ensures
        hubs_ranked(sort_hubs(s)),
        sort_hubs(s).to_multiset() == s.to_multiset(),
    decreases s.len(),
{
    if s.len() > 0 {
        let t = sort_hubs(s.drop_last());
        let x = s.last();
        hubs_are_ranked(s.drop_last());
        lemma_hub_insert_pos(t, x);
        let pos = hub_insert_pos(t, x);
        let u = t.insert(pos, x);
        assert forall|i: int, j: int| 0 <= i < j < u.len() implies !hub_before(#[trigger] u[j], #[trigger] u[i]) by {
            if j < pos {
                assert(u[i] == t[i] && u[j] == t[j]);
            } else if j == pos {
                assert(u[i] == t[i]);
                assert(u[j] == x);
            } else if i < pos {
                assert(u[i] == t[i] && u[j] == t[j - 1]);
            } else if i == pos {
                assert(u[i] == x);
                assert(u[j] == t[j - 1]);
                if hub_before(t[j - 1], x) {
                    lemma_hub_before_order(t[j - 1], x, t[pos]);
                    lemma_hub_before_order(t[pos], t[pos], t[pos]);
                }
            } else {
                assert(u[i] == t[i - 1] && u[j] == t[j - 1]);
            }
        }
        vstd::seq_lib::to_multiset_insert(t, pos, x);
        vstd::seq_lib::to_multiset_build(s.drop_last(), x);
        assert(s.drop_last().push(x) =~= s);
    } else {
        assert(s =~= sort_hubs(s));
    }
}

/// Decides hub order between two entries.
fn hub_precedes(a: &HubEntry, b: &HubEntry) -> (r: bool)
    ensures
        r == hub_before(hub_view(*a), hub_view(*b)),
{
    if a.connectivity_score > b.connectivity_score {
        true
    } else if a.connectivity_score == b.connectivity_score {
        let an = chars_of(a.name.as_str());
        let bn = chars_of(b.name.as_str());
        lex_less(&an, &bn)
    } else {
        false
    }
}

/// Returns the top hub symbols: by connectivity score descending, then by
/// name, at most `limit` of them.
pub fn compute_hubs(graph_cache: &GraphCache, limit: usize) -> (r: Vec<HubEntry>)
    requires
        graph_cache.wf(),
    ensures
        hubs_view(r@) == sort_hubs(hub_entries(graph_cache.symbols@)).take(
            if limit < graph_cache.symbols@.len() { limit as int } else { graph_cache.symbols@.len() as int },
        ),
{
    let ghost orig = hub_entries(graph_cache.symbols@);
    let mut out: Vec<HubEntry> = Vec::new();
    let mut i: usize = 0;
    assert(hubs_view(out@) =~= sort_hubs(orig.take(0)));
    while i < graph_cache.symbols.len()
        invariant
            i <= graph_cache.symbols@.len(),
            orig == hub_entries(graph_cache.symbols@),
            hubs_view(out@) == sort_hubs(orig.take(i as int)),
            out@.len() == i,
        decreases graph_cache.symbols@.len() - i,
    {
        let s = &graph_cache.symbols[i];
        let x = HubEntry {
            name: s.name.clone(),
            symbol_id: s.symbol_id.clone(),
            connectivity_score: s.connectivity_score,
            file_path: s.file_path.clone(),
        };
        let ghost xv = hub_view(x);
        assert(xv == orig[i as int]);
        let ghost t = hubs_view(out@);
        let mut j: usize = 0;
        let mut done = false;
        assert(t.skip(0) =~= t);
        while !done && j < out.len()
            invariant
                j <= out@.len(),
                t == hubs_view(out@),
                xv == hub_view(x),
                hub_insert_pos(t, xv) == j + hub_insert_pos(t.skip(j as int), xv),
                done ==> hub_insert_pos(t.skip(j as int), xv) == 0,
            decreases out@.len() - j + (if done { 0int } else { 1int }),
        {
            assert(t.skip(j as int)[0] == t[j as int]);
            if hub_precedes(&x, &out[j]) {
                done = true;
            } else {
                assert(t.skip(j as int).drop_first() =~= t.skip(j + 1));
                j = j + 1;
            }
        }
        proof {
            if !done {
                assert(t.skip(j as int) =~= Seq::<HubV>::empty());
            }
        }
        out.insert(j, x);
        assert(hubs_view(out@) =~= t.insert(j as int, xv));
        assert(orig.take(i + 1).drop_last() =~= orig.take(i as int));
        assert(orig.take(i + 1).last() == xv);
        i = i + 1;
    }
    assert(orig.take(graph_cache.symbols@.len() as int) =~= orig);
    out.truncate(limit);
    assert(hubs_view(out@) =~= sort_hubs(orig).take(
        if limit < graph_cache.symbols@.len() { limit as int } else { graph_cache.symbols@.len() as int },
    ));
    out
}

/// Community order: larger communities first, then labels alphabetically.
pub open spec fn community_before(a: (Seq<char>, nat), b: (Seq<char>, nat)) -> bool {
    a.1 > b.1 || (a.1 == b.1 && lex_lt(a.0, b.0))
}

/// Values of community counts.
pub open spec fn community_counts_view(v: Seq<(String, usize)>) -> Seq<(Seq<char>, nat)> {
    v.map_values(|p: (String, usize)| (p.0@, p.1 as nat))
}

/// Strictly ordered by community order.
pub open spec fn communities_ranked(v: Seq<(Seq<char>, nat)>) -> bool {
    forall|i: int, j: int| 0 <= i < j < v.len() ==> community_before(#[trigger] v[i], #[trigger] v[j])
}

/// Groups symbols into communities by the community label of their file,
/// returning each community once with its number of symbols, larger
/// communities first and equal sizes by label.
pub fn compute_communities(graph_cache: &GraphCache) -> (r: Vec<(String, usize)>)
    requires
        graph_cache.wf(),
    ensures
        communities_ranked(community_counts_view(r@)),
        forall|k: int| 0 <= k < r@.len() ==> (#[trigger] r@[k]).1 == count_of(communities_of(graph_cache.symbols@), r@[k].0@),
        forall|l: Seq<char>| communities_of(graph_cache.symbols@).contains(l) <==> exists|k: int|
            0 <= k < r@.len() && (#[trigger] r@[k]).0@ == l,
{
    let mut labels: Vec<String> = Vec::new();
    let mut i: usize = 0;
    while i < graph_cache.symbols.len()
        invariant
            i <= graph_cache.symbols@.len(),
            strings_view(labels@) == communities_of(graph_cache.symbols@.take(i as int)),
        decreases graph_cache.symbols@.len() - i,
    {
        let sym = &graph_cache.symbols[i];
        assert(graph_cache.symbols@.take(i + 1) =~= graph_cache.symbols@.take(i as int).push(*sym));
        let ghost before = strings_view(labels@);
        labels.push(community_label(sym.file_path.as_str()));
        assert(strings_view(labels@) =~= before.push(community_label_spec(sym.file_path@)));
        i = i + 1;
    }
    assert(graph_cache.symbols@.take(graph_cache.symbols@.len() as int) =~= graph_cache.symbols@);
    let ghost all = strings_view(labels@);
    let mut out: Vec<(String, usize)> = Vec::new();
    let mut q: usize = 0;
    while q < labels.len()
        invariant
            q <= labels@.len(),
            all == strings_view(labels@),
            all == communities_of(graph_cache.symbols@),
            communities_ranked(community_counts_view(out@)),
            forall|k: int| 0 <= k < out@.len() ==> (#[trigger] out@[k]).1 == count_of(all, out@[k].0@),
            forall|l: Seq<char>| #[trigger] all.take(q as int).contains(l) <==> exists|k: int|
                0 <= k < out@.len() && (#[trigger] out@[k]).0@ == l,
        decreases labels@.len() - q,
    {
        let label = &labels[q];
        assert(all.take(q + 1) =~= all.take(q as int).push(label@));
        let mut present = false;
        let mut p: usize = 0;
        while p < out.len() && !present
            invariant
                p <= out@.len(),
                present ==> exists|k: int| 0 <= k < out@.len() && (#[trigger] out@[k]).0@ == label@,
                !present ==> forall|k: int| 0 <= k < p ==> (#[trigger] out@[k]).0@ != label@,
            decreases out@.len() - p + if present { 0int } else { 1int },
        {
            if out[p].0 == *label {
                present = true;
            }
            p = p + 1;
        }
        let ghost ov = community_counts_view(out@);
        let ghost oo = out@;
        if !present {
            assert(forall|k: int| 0 <= k < out@.len() ==> (#[trigger] out@[k]).0@ != label@);
            let n = count_votes(&labels, label);
            let x = (label.clone(), n);
            let ghost xv = (label@, n as nat);
            let mut j: usize = 0;
            let mut done = false;
            while !done && j < out.len()
                invariant
                    j <= out@.len(),
                    ov == community_counts_view(out@),
                    oo == out@,
                    xv == (label@, n as nat),
                    forall|k: int| 0 <= k < out@.len() ==> (#[trigger] out@[k]).0@ != label@,
                    forall|k: int| 0 <= k < j ==> community_before(#[trigger] ov[k], xv),
                    done ==> j < out@.len() && community_before(xv, ov[j as int]),
                decreases out@.len() - j + (if done { 0int } else { 1int }),
            {
                let (ref ol, oc) = out[j];
                let before_it = if n > oc {
                    true
                } else if n == oc {
                    let lv = chars_of(label.as_str());
                    let olv = chars_of(ol.as_str());
                    lex_less(&lv, &olv)
                } else {
                    false
                };
                assert(ov[j as int] == (ol@, oc as nat));
                assert(before_it == community_before(xv, ov[j as int]));
                if before_it {
                    done = true;
                } else {
                    proof {
                        assert(ol@ != label@);
                        lemma_lex_total(ol@, label@);
                    }
                    j = j + 1;
                }
            }
            out.insert(j, x);
            let ghost nv = community_counts_view(out@);
            assert(nv =~= ov.insert(j as int, xv));
            assert forall|a: int, b: int| 0 <= a < b < nv.len() implies community_before(#[trigger] nv[a], #[trigger] nv[b]) by {
                if b < j {
                    assert(nv[a] == ov[a] && nv[b] == ov[b]);
                } else if b == j {
                    assert(nv[a] == ov[a]);
                } else if a < j {
                    assert(nv[a] == ov[a] && nv[b] == ov[b - 1]);
                    assert(community_before(ov[a], xv));
                    assert(community_before(xv, ov[j as int]));
                    if j < b - 1 {
                        assert(community_before(ov[j as int], ov[b - 1]));
                        lemma_community_transitive(ov[a], xv, ov[j as int]);
                        lemma_community_transitive(ov[a], ov[j as int], ov[b - 1]);
                    } else {
                        lemma_community_transitive(ov[a], xv, ov[b - 1]);
                    }
                } else if a == j {
                    assert(nv[a] == xv && nv[b] == ov[b - 1]);
                    if j < b - 1 {
                        assert(community_before(ov[j as int], ov[b - 1]));
                        lemma_community_transitive(xv, ov[j as int], ov[b - 1]);
                    }
                } else {
                    assert(nv[a] == ov[a - 1] && nv[b] == ov[b - 1]);
                }
            }
            assert forall|l: Seq<char>| #[trigger] all.take(q + 1).contains(l) implies exists|k: int|
                0 <= k < out@.len() && (#[trigger] out@[k]).0@ == l by {
                if l == label@ {
                    assert(out@[j as int].0@ == l);
                } else {
                    lemma_seq_push_contains(all.take(q as int), label@, l);
                    let k = choose|k: int| 0 <= k < oo.len() && (#[trigger] oo[k]).0@ == l;
                    if k < j {
                        assert(out@[k].0@ == l);
                    } else {
                        assert(out@[k + 1].0@ == l);
                    }
                }
            }
            assert forall|l: Seq<char>| (exists|k: int| 0 <= k < out@.len() && (#[trigger] out@[k]).0@ == l) implies #[trigger] all.take(q + 1).contains(l) by {
                let k = choose|k: int| 0 <= k < out@.len() && (#[trigger] out@[k]).0@ == l;
                lemma_seq_push_contains(all.take(q as int), label@, l);
                if k < j {
                    assert(ov[k].0 == l);
                } else if k > j {
                    assert(ov[k - 1].0 == l);
                }
            }
        } else {
            assert forall|l: Seq<char>| #[trigger] all.take(q + 1).contains(l) <==> exists|k: int|
                0 <= k < out@.len() && (#[trigger] out@[k]).0@ == l by {
                lemma_seq_push_contains(all.take(q as int), label@, l);
            }
        }
        q = q + 1;
    }
    assert(all.take(labels@.len() as int) =~= all);
    out
}

proof fn lemma_community_transitive(a: (Seq<char>, nat), b: (Seq<char>, nat), c: (Seq<char>, nat))
    requires
        community_before(a, b),
        community_before(b, c),
    ensures
        community_before(a, c),
{
    if a.1 == c.1 {
        lemma_lex_transitive(a.0, b.0, c.0);
    }
}

proof fn lemma_seq_push_contains(s: Seq<Seq<char>>, x: Seq<char>, q: Seq<char>)
    ensures
        s.push(x).contains(q) <==> (s.contains(q) || q == x),
{
    if s.push(x).contains(q) {
        let k = choose|k: int| 0 <= k < s.push(x).len() && s.push(x)[k] == q;
        if k < s.len() {
            assert(s[k] == q);
        }
    }
    if s.contains(q) {
        let k = choose|k: int| 0 <= k < s.len() && s[k] == q;
        assert(s.push(x)[k] == q);
    }
    if q == x {
        assert(s.push(x)[s.len() as int] == q);
    }
}

/// Mathematical value of an exported node.
pub struct NodeV {
    pub id: Seq<char>,
    pub label: Seq<char>,
    pub kind: Seq<char>,
    pub file: Seq<char>,
    pub community: Seq<char>,
    pub hub_score: i32,
    pub color: Seq<char>,
}

/// Value of an exported node.
pub open spec fn node_view(n: GraphNodeJson) -> NodeV {
    NodeV {
        id: n.id@,
        label: n.label@,
        kind: n.kind@,
        file: n.file@,
        community: n.community@,
        hub_score: n.hub_score,
        color: n.color@,
    }
}

/// Mathematical value of an exported edge.
pub struct EdgeV {
    pub from: Seq<char>,
    pub to: Seq<char>,
    pub edge_type: Seq<char>,
    pub weight: i32,
}

/// Value of an exported edge.
pub open spec fn edge_view(e: GraphEdgeJson) -> EdgeV {
    EdgeV { from: e.from@, to: e.to@, edge_type: e.edge_type@, weight: e.weight }
}

/// Value of an edge of the graph, in exported form.
pub open spec fn edge_details_view(e: EdgeDetails) -> EdgeV {
    EdgeV { from: e.from_id@, to: e.to_id@, edge_type: e.edge_type@, weight: e.weight }
}

/// The exported node of symbol `s` in community `c`, coloured by it.
pub open spec fn node_spec(s: SymbolDetails, c: Seq<char>) -> NodeV {
    NodeV {
        id: s.symbol_id@,
        label: s.name@,
        kind: s.kind@,
        file: s.file_path@,
        community: c,
        hub_score: s.connectivity_score,
        color: palette_color_spec(c),
    }
}

/// The nodes of the included symbols, in symbol order, each in the
/// community detection assigned it.
pub open spec fn included_nodes(ss: Seq<SymbolDetails>, comms: Seq<Seq<char>>, inc: Set<Seq<char>>, k: nat) -> Seq<NodeV>
    decreases k,
{
    if k == 0 {
        seq![]
    } else {
        let prev = included_nodes(ss, comms, inc, (k - 1) as nat);
        if inc.contains(ss[k - 1].symbol_id@) {
            prev.push(node_spec(ss[k - 1], comms[k - 1]))
        } else {
            prev
        }
    }
}

/// Where `x` goes among nodes sorted by identifier.
pub open spec fn node_insert_pos(t: Seq<NodeV>, x: NodeV) -> int
    decreases t.len(),
{
    if t.len() == 0 || lex_lt(x.id, t[0].id) {
        0
    } else {
        1 + node_insert_pos(t.drop_first(), x)
    }
}

/// Nodes sorted by identifier (insertion sort, stable).
pub open spec fn sort_nodes(s: Seq<NodeV>) -> Seq<NodeV>
    decreases s.len(),
{
    if s.len() == 0 {
        seq![]
    } else {
        let t = sort_nodes(s.drop_last());
        t.insert(node_insert_pos(t, s.last()), s.last())
    }
}

/// Whether an edge between included nodes with the same endpoints and
/// type is among `es`.
pub open spec fn has_edge_key(es: Seq<EdgeV>, e: EdgeV) -> bool {
    exists|i: int| 0 <= i < es.len() && (#[trigger] es[i]).from == e.from && es[i].to == e.to && es[i].edge_type == e.edge_type
}

/// The edges between included nodes, each endpoint pair and type once
/// (first occurrence kept), in edge order.
pub open spec fn included_edges(es: Seq<EdgeV>, inc: Set<Seq<char>>) -> Seq<EdgeV>
    decreases es.len(),
{
    if es.len() == 0 {
        seq![]
    } else {
        let prev = included_edges(es.drop_last(), inc);
        let e = es.last();
        if inc.contains(e.from) && inc.contains(e.to) && !has_edge_key(prev, e) {
            prev.push(e)
        } else {
            prev
        }
    }
}

/// Edge order: by source identifier, then target identifier.
pub open spec fn edge_before(x: EdgeV, y: EdgeV) -> bool {
    lex_lt(x.from, y.from) || (x.from == y.from && lex_lt(x.to, y.to))
}

/// Where a stable insertion puts `x` among sorted edges.
pub open spec fn edge_insert_pos(t: Seq<EdgeV>, x: EdgeV) -> int
    decreases t.len(),
{
    if t.len() == 0 || edge_before(x, t[0]) {
        0
    } else {
        1 + edge_insert_pos(t.drop_first(), x)
    }
}

/// Edges stably sorted by source, then target.
pub open spec fn sort_edges(s: Seq<EdgeV>) -> Seq<EdgeV>
    decreases s.len(),
{
    if s.len() == 0 {
        seq![]
    } else {
        let t = sort_edges(s.drop_last());
        t.insert(edge_insert_pos(t, s.last()), s.last())
    }
}

proof fn lemma_node_insert_pos(t: Seq<NodeV>, x: NodeV)
    ensures
        0 <= node_insert_pos(t, x) <= t.len(),
        forall|k: int| 0 <= k < node_insert_pos(t, x) ==> !lex_lt(x.id, #[trigger] t[k].id),
        node_insert_pos(t, x) < t.len() ==> lex_lt(x.id, t[node_insert_pos(t, x)].id),
    decreases t.len(),
{
    if t.len() > 0 && !lex_lt(x.id, t[0].id) {
        lemma_node_insert_pos(t.drop_first(), x);
        assert forall|k: int| 0 <= k < node_insert_pos(t, x) implies !lex_lt(x.id, #[trigger] t[k].id) by {
            if k > 0 {
                assert(t[k] == t.drop_first()[k - 1]);
            }
        }
        let p = node_insert_pos(t.drop_first(), x);
        if p < t.drop_first().len() {
            assert(t[p + 1] == t.drop_first()[p]);
        }
    }
}

/// Exported nodes come out in identifier order, each node exactly once.
pub proof fn exported_nodes_are_sorted(s: Seq<NodeV>)
    ensures
        forall|i: int, j: int| 0 <= i < j < sort_nodes(s).len() ==> !lex_lt(#[trigger] sort_nodes(s)[j].id, #[trigger] sort_nodes(s)[i].id),
        sort_nodes(s).to_multiset() == s.to_multiset(),
    decreases s.len(),
{
    if s.len() > 0 {
        let t = sort_nodes(s.drop_last());
        let x = s.last();
        exported_nodes_are_sorted(s.drop_last());
        lemma_node_insert_pos(t, x);
        let pos = node_insert_pos(t, x);
        let u = t.insert(pos, x);
        assert(u == sort_nodes(s));
        assert forall|i: int, j: int| 0 <= i < j < u.len() implies !lex_lt(#[trigger] u[j].id, #[trigger] u[i].id) by {
            if j < pos {
                assert(u[i] == t[i] && u[j] == t[j]);
            } else if j == pos {
                assert(u[i] == t[i]);
                assert(u[j] == x);
            } else if i < pos {
                assert(u[i] == t[i] && u[j] == t[j - 1]);
            } else if i == pos {
                assert(u[i] == x);
                assert(u[j] == t[j - 1]);
                if lex_lt(t[j - 1].id, x.id) {
                    lemma_lex_transitive(t[j - 1].id, x.id, t[pos].id);
                    if pos == j - 1 {
                        lemma_lex_irreflexive(t[pos].id);
                    }
                }
            } else {
                assert(u[i] == t[i - 1] && u[j] == t[j - 1]);
            }
        }
        vstd::seq_lib::to_multiset_insert(t, pos, x);
        vstd::seq_lib::to_multiset_build(s.drop_last(), x);
        assert(s.drop_last().push(x) =~= s);
    } else {
        assert(s =~= sort_nodes(s));
    }
}

proof fn lemma_edge_before_order(x: EdgeV, y: EdgeV, z: EdgeV)
    ensures
        !edge_before(x, x),
        edge_before(x, y) && edge_before(y, z) ==> edge_before(x, z),
{
    lemma_lex_irreflexive(x.from);
    lemma_lex_irreflexive(x.to);
    if edge_before(x, y) && edge_before(y, z) {
        if lex_lt(x.from, y.from) && lex_lt(y.from, z.from) {
            lemma_lex_transitive(x.from, y.from, z.from);
        }
        if x.from == y.from && y.from == z.from {
            lemma_lex_transitive(x.to, y.to, z.to);
        }
    }
}

proof fn lemma_edge_insert_pos(t: Seq<EdgeV>, x: EdgeV)
    ensures
        0 <= edge_insert_pos(t, x) <= t.len(),
        forall|k: int| 0 <= k < edge_insert_pos(t, x) ==> !edge_before(x, #[trigger] t[k]),
        edge_insert_pos(t, x) < t.len() ==> edge_before(x, t[edge_insert_pos(t, x)]),
    decreases t.len(),
{
    if t.len() > 0 && !edge_before(x, t[0]) {
        lemma_edge_insert_pos(t.drop_first(), x);
        assert forall|k: int| 0 <= k < edge_insert_pos(t, x) implies !edge_before(x, #[trigger] t[k]) by {
            if k > 0 {
                assert(t[k] == t.drop_first()[k - 1]);
            }
        }
        let p = edge_insert_pos(t.drop_first(), x);
        if p < t.drop_first().len() {
            assert(t[p + 1] == t.drop_first()[p]);
        }
    }
}

/// Exported edges come out ordered by source, then target, each edge
/// exactly once.
pub proof fn exported_edges_are_sorted(s: Seq<EdgeV>)
    ensures
        forall|i: int, j: int| 0 <= i < j < sort_edges(s).len() ==> !edge_before(#[trigger] sort_edges(s)[j], #[trigger] sort_edges(s)[i]),
        sort_edges(s).to_multiset() == s.to_multiset(),
    decreases s.len(),
{
    if s.len() > 0 {
        let t = sort_edges(s.drop_last());
        let x = s.last();
        exported_edges_are_sorted(s.drop_last());
        lemma_edge_insert_pos(t, x);
        let pos = edge_insert_pos(t, x);
        let u = t.insert(pos, x);
        assert(u == sort_edges(s));
        assert forall|i: int, j: int| 0 <= i < j < u.len() implies !edge_before(#[trigger] u[j], #[trigger] u[i]) by {
            if j < pos {
                assert(u[i] == t[i] && u[j] == t[j]);
            } else if j == pos {
                assert(u[i] == t[i]);
                assert(u[j] == x);
            } else if i < pos {
                assert(u[i] == t[i] && u[j] == t[j - 1]);
            } else if i == pos {
                assert(u[i] == x);
                assert(u[j] == t[j - 1]);
                if edge_before(t[j - 1], x) {
                    lemma_edge_before_order(t[j - 1], x, t[pos]);
                    lemma_edge_before_order(t[pos], t[pos], t[pos]);
                }
            } else {
                assert(u[i] == t[i - 1] && u[j] == t[j - 1]);
            }
        }
        vstd::seq_lib::to_multiset_insert(t, pos, x);
        vstd::seq_lib::to_multiset_build(s.drop_last(), x);
        assert(s.drop_last().push(x) =~= s);
    } else {
        assert(s =~= sort_edges(s));
    }
}

/// The exported graph restricted to the identifiers `inc`: the included
/// symbols' nodes sorted by identifier, and the included edges sorted by
/// endpoints.
pub open spec fn payload_spec(cache_syms: Seq<SymbolDetails>, cache_edges: Seq<EdgeDetails>, inc: Set<Seq<char>>) -> (Seq<NodeV>, Seq<EdgeV>) {
    let comms = louvain_after(symbol_ids(cache_syms), edge_ends(cache_edges), cache_syms.len() as nat);
    (
        sort_nodes(included_nodes(cache_syms, comms, inc, cache_syms.len() as nat)),
        sort_edges(included_edges(cache_edges.map_values(|e: EdgeDetails| edge_details_view(e)), inc)),
    )
}

/// Values of exported nodes.
pub open spec fn nodes_view(ns: Seq<GraphNodeJson>) -> Seq<NodeV> {
    ns.map_values(|n: GraphNodeJson| node_view(n))
}

/// Values of exported edges.
pub open spec fn edges_view(es: Seq<GraphEdgeJson>) -> Seq<EdgeV> {
    es.map_values(|e: GraphEdgeJson| edge_view(e))
}

/// Whether some node of `ns` has the identifier `x`.
pub open spec fn has_node(ns: Seq<NodeV>, x: Seq<char>) -> bool {
    exists|i: int| 0 <= i < ns.len() && #[trigger] ns[i].id == x
}

/// The nodes exported around `focus` within `hops` edges.
pub open spec fn focused_nodes(ss: Seq<SymbolDetails>, es: Seq<EdgeDetails>, focus: Seq<char>, hops: nat) -> Seq<NodeV> {
    payload_spec(ss, es, within_hops(edge_ends(es), focus, hops)).0
}

proof fn lemma_sorted_nodes_keep_ids(s: Seq<NodeV>, x: Seq<char>)
    ensures
        has_node(sort_nodes(s), x) == has_node(s, x),
        sort_nodes(s).len() == s.len(),
    decreases s.len(),
{
    if s.len() > 0 {
        let t = sort_nodes(s.drop_last());
        let y = s.last();
        lemma_sorted_nodes_keep_ids(s.drop_last(), x);
        lemma_node_insert_pos(t, y);
        let pos = node_insert_pos(t, y);
        let u = t.insert(pos, y);
        assert(sort_nodes(s) == u);
        if has_node(u, x) {
            let i = choose|i: int| 0 <= i < u.len() && #[trigger] u[i].id == x;
            if i < pos {
                assert(t[i].id == x);
            } else if i == pos {
                assert(s[s.len() - 1].id == x);
            } else {
                assert(t[i - 1].id == x);
            }
            if !has_node(s.drop_last(), x) {
                assert(s[s.len() - 1].id == x);
            } else {
                let j = choose|j: int| 0 <= j < s.drop_last().len() && #[trigger] s.drop_last()[j].id == x;
                assert(s[j].id == x);
            }
        }
        if has_node(s, x) {
            let j = choose|j: int| 0 <= j < s.len() && #[trigger] s[j].id == x;
            if j == s.len() - 1 {
                assert(u[pos].id == x);
            } else {
                assert(s.drop_last()[j].id == x);
                let i = choose|i: int| 0 <= i < t.len() && #[trigger] t[i].id == x;
                if i < pos {
                    assert(u[i].id == x);
                } else {
                    assert(u[i + 1].id == x);
                }
            }
        }
    }
}

proof fn lemma_included_node_ids(ss: Seq<SymbolDetails>, comms: Seq<Seq<char>>, inc: Set<Seq<char>>, k: nat, x: Seq<char>)
    requires
        k <= ss.len(),
    ensures
        has_node(included_nodes(ss, comms, inc, k), x) == (inc.contains(x) && symbol_ids(ss.take(k as int)).contains(x)),
    decreases k,
{
    if k > 0 {
        let prev = included_nodes(ss, comms, inc, (k - 1) as nat);
        lemma_included_node_ids(ss, comms, inc, (k - 1) as nat, x);
        let last = ss[k - 1].symbol_id@;
        assert(symbol_ids(ss.take(k as int)) =~= symbol_ids(ss.take(k - 1)).push(last));
        let cur = included_nodes(ss, comms, inc, k);
        if has_node(cur, x) {
            let i = choose|i: int| 0 <= i < cur.len() && #[trigger] cur[i].id == x;
            if i < prev.len() {
                assert(prev[i].id == x);
                assert(symbol_ids(ss.take(k - 1)).contains(x));
                let q = choose|q: int| 0 <= q < symbol_ids(ss.take(k - 1)).len() && #[trigger] symbol_ids(ss.take(k - 1))[q] == x;
                assert(symbol_ids(ss.take(k as int))[q] == x);
            } else {
                assert(symbol_ids(ss.take(k as int))[k - 1] == x);
            }
        }
        if inc.contains(x) && symbol_ids(ss.take(k as int)).contains(x) {
            let q = choose|q: int| 0 <= q < symbol_ids(ss.take(k as int)).len() && #[trigger] symbol_ids(ss.take(k as int))[q] == x;
            if q < k - 1 {
                assert(symbol_ids(ss.take(k - 1))[q] == x);
                let i = choose|i: int| 0 <= i < prev.len() && #[trigger] prev[i].id == x;
                assert(cur[i].id == x);
            } else {
                assert(last == x);
                assert(cur[prev.len() as int].id == x);
            }
        }
    }
}

proof fn lemma_included_nodes_single(ss: Seq<SymbolDetails>, comms: Seq<Seq<char>>, focus: Seq<char>, k: nat)
    requires
        k <= ss.len(),
        symbol_ids(ss).no_duplicates(),
    ensures
        included_nodes(ss, comms, set![focus], k).len() == (if symbol_ids(ss.take(k as int)).contains(focus) { 1int } else { 0int }),
    decreases k,
{
    if k > 0 {
        lemma_included_nodes_single(ss, comms, focus, (k - 1) as nat);
        let last = ss[k - 1].symbol_id@;
        assert(symbol_ids(ss.take(k as int)) =~= symbol_ids(ss.take(k - 1)).push(last));
        assert(symbol_ids(ss)[k - 1] == last);
        if last == focus && symbol_ids(ss.take(k - 1)).contains(focus) {
            let q = choose|q: int| 0 <= q < symbol_ids(ss.take(k - 1)).len() && #[trigger] symbol_ids(ss.take(k - 1))[q] == focus;
            assert(symbol_ids(ss)[q] == focus);
        }
        if symbol_ids(ss.take(k as int)).contains(focus) && last != focus {
            let q = choose|q: int| 0 <= q < symbol_ids(ss.take(k as int)).len() && #[trigger] symbol_ids(ss.take(k as int))[q] == focus;
            assert(symbol_ids(ss.take(k - 1))[q] == focus);
        }
        if last == focus {
            assert(symbol_ids(ss.take(k as int))[k - 1] == focus);
        }
        if symbol_ids(ss.take(k - 1)).contains(focus) {
            let q = choose|q: int| 0 <= q < symbol_ids(ss.take(k - 1)).len() && #[trigger] symbol_ids(ss.take(k - 1))[q] == focus;
            assert(symbol_ids(ss.take(k as int))[q] == focus);
        }
        assert(set![focus].contains(last) == (last == focus));
    } else {
        assert(symbol_ids(ss.take(0)) =~= Seq::<Seq<char>>::empty());
    }
}

proof fn lemma_hops_nest(es: Seq<(Seq<char>, Seq<char>)>, focus: Seq<char>, h1: nat, h2: nat)
    requires
        h1 <= h2,
    ensures
        within_hops(es, focus, h1).subset_of(within_hops(es, focus, h2)),
    decreases h2 - h1,
{
    if h1 < h2 {
        lemma_hops_nest(es, focus, h1, (h2 - 1) as nat);
        focus_neighbourhoods_grow(es, focus, (h2 - 1) as nat);
    }
}

/// Exporting around a focus with more hops keeps every node of fewer
/// hops; with no hops, the focus of a well-formed graph that holds it is
/// the only node exported.
pub proof fn focused_export_grows_with_hops(ss: Seq<SymbolDetails>, es: Seq<EdgeDetails>, focus: Seq<char>, h1: nat, h2: nat)
    requires
        h1 <= h2,
    ensures
        forall|x: Seq<char>| #[trigger] has_node(focused_nodes(ss, es, focus, h1), x) ==> has_node(focused_nodes(ss, es, focus, h2), x),
        symbol_ids(ss).no_duplicates() && symbol_ids(ss).contains(focus) ==> focused_nodes(ss, es, focus, 0).len() == 1
            && focused_nodes(ss, es, focus, 0)[0].id == focus,
{
    let comms = louvain_after(symbol_ids(ss), edge_ends(es), ss.len() as nat);
    let n = ss.len() as nat;
    let inc1 = within_hops(edge_ends(es), focus, h1);
    let inc2 = within_hops(edge_ends(es), focus, h2);
    lemma_hops_nest(edge_ends(es), focus, h1, h2);
    assert(ss.take(n as int) =~= ss);
    assert forall|x: Seq<char>| #[trigger] has_node(focused_nodes(ss, es, focus, h1), x) implies has_node(focused_nodes(ss, es, focus, h2), x) by {
        lemma_sorted_nodes_keep_ids(included_nodes(ss, comms, inc1, n), x);
        lemma_sorted_nodes_keep_ids(included_nodes(ss, comms, inc2, n), x);
        lemma_included_node_ids(ss, comms, inc1, n, x);
        lemma_included_node_ids(ss, comms, inc2, n, x);
    }
    if symbol_ids(ss).no_duplicates() && symbol_ids(ss).contains(focus) {
        let inc0 = within_hops(edge_ends(es), focus, 0);
        assert(inc0 == set![focus]);
        let nodes = included_nodes(ss, comms, inc0, n);
        lemma_included_nodes_single(ss, comms, focus, n);
        lemma_sorted_nodes_keep_ids(nodes, focus);
        lemma_included_node_ids(ss, comms, inc0, n, focus);
        let sorted = focused_nodes(ss, es, focus, 0);
        assert(sorted == sort_nodes(nodes));
        let i = choose|i: int| 0 <= i < sorted.len() && #[trigger] sorted[i].id == focus;
        assert(i == 0);
    }
}

/// Builds the exported graph for the identifiers in `included_ids`.
fn build_payload(graph_cache: &GraphCache, included_ids: &Vec<String>) -> (r: GraphJson)
    requires
        graph_cache.wf(),
    ensures
        (nodes_view(r.nodes@), edges_view(r.edges@)) == payload_spec(
            graph_cache.symbols@,
            graph_cache.edges@,
            strings_view(included_ids@).to_set(),
        ),
{
    let ghost inc = strings_view(included_ids@).to_set();
    let ghost comms = louvain_after(symbol_ids(graph_cache.symbols@), edge_ends(graph_cache.edges@), graph_cache.symbols@.len() as nat);
    let assignment = detect_communities(graph_cache);
    proof {
        lemma_louvain_len(symbol_ids(graph_cache.symbols@), edge_ends(graph_cache.edges@), graph_cache.symbols@.len() as nat);
    }
    let mut nodes: Vec<GraphNodeJson> = Vec::new();
    let mut i: usize = 0;
    assert(nodes_view(nodes@) =~= sort_nodes(included_nodes(graph_cache.symbols@, comms, inc, 0)));
    while i < graph_cache.symbols.len()
        invariant
            i <= graph_cache.symbols@.len() == assignment@.len(),
            comms.len() == graph_cache.symbols@.len(),
            comms == louvain_after(symbol_ids(graph_cache.symbols@), edge_ends(graph_cache.edges@), graph_cache.symbols@.len() as nat),
            inc == strings_view(included_ids@).to_set(),
            forall|t: int| 0 <= t < assignment@.len() ==> (#[trigger] assignment@[t]).1@ == comms[t],
            nodes_view(nodes@) == sort_nodes(included_nodes(graph_cache.symbols@, comms, inc, i as nat)),
        decreases graph_cache.symbols@.len() - i,
    {
        let s = &graph_cache.symbols[i];
        let ghost before_nodes = included_nodes(graph_cache.symbols@, comms, inc, i as nat);
        assert(included_nodes(graph_cache.symbols@, comms, inc, (i + 1) as nat) == if inc.contains(s.symbol_id@) {
            before_nodes.push(node_spec(graph_cache.symbols@[i as int], comms[i as int]))
        } else {
            before_nodes
        });
        if contains_string(included_ids, &s.symbol_id) {
            let community = assignment[i].1.clone();
            let color = palette_color(community.as_str());
            let x = GraphNodeJson {
                id: s.symbol_id.clone(),
                label: s.name.clone(),
                kind: s.kind.clone(),
                file: s.file_path.clone(),
                community,
                hub_score: s.connectivity_score,
                color,
            };
            let ghost xv = node_view(x);
            assert(xv == node_spec(graph_cache.symbols@[i as int], comms[i as int]));
            let ghost t = nodes_view(nodes@);
            let mut j: usize = 0;
            let mut done = false;
            assert(t.skip(0) =~= t);
            let key = chars_of(x.id.as_str());
            while !done && j < nodes.len()
                invariant
                    j <= nodes@.len(),
                    t == nodes_view(nodes@),
                    key@ == xv.id,
                    node_insert_pos(t, xv) == j + node_insert_pos(t.skip(j as int), xv),
                    done ==> node_insert_pos(t.skip(j as int), xv) == 0,
                decreases nodes@.len() - j + (if done { 0int } else { 1int }),
            {
                assert(t.skip(j as int)[0] == t[j as int]);
                let other = chars_of(nodes[j].id.as_str());
                if lex_less(&key, &other) {
                    done = true;
                } else {
                    assert(t.skip(j as int).drop_first() =~= t.skip(j + 1));
                    j = j + 1;
                }
            }
            proof {
                if !done {
                    assert(t.skip(j as int) =~= Seq::<NodeV>::empty());
                }
            }
            nodes.insert(j, x);
            assert(nodes_view(nodes@) =~= t.insert(j as int, xv));
            assert(before_nodes.push(xv).drop_last() =~= before_nodes);
        }
        i = i + 1;
    }
    let ghost evs = graph_cache.edges@.map_values(|e: EdgeDetails| edge_details_view(e));
    let mut kept: Vec<GraphEdgeJson> = Vec::new();
    let mut k: usize = 0;
    assert(edges_view(kept@) =~= included_edges(evs.take(0), inc));
    while k < graph_cache.edges.len()
        invariant
            k <= graph_cache.edges@.len(),
            evs == graph_cache.edges@.map_values(|e: EdgeDetails| edge_details_view(e)),
            inc == strings_view(included_ids@).to_set(),
            edges_view(kept@) == included_edges(evs.take(k as int), inc),
        decreases graph_cache.edges@.len() - k,
    {
        let e = &graph_cache.edges[k];
        assert(evs.take(k + 1).drop_last() =~= evs.take(k as int));
        assert(evs.take(k + 1).last() == edge_details_view(*e));
        let ghost prev = edges_view(kept@);
        if contains_string(included_ids, &e.from_id) && contains_string(included_ids, &e.to_id) {
            let mut dup = false;
            let mut p: usize = 0;
            while p < kept.len() && !dup
                invariant
                    p <= kept@.len(),
                    prev == edges_view(kept@),
                    dup ==> has_edge_key(prev, edge_details_view(*e)),
                    !dup ==> forall|t: int| 0 <= t < p ==> !((#[trigger] prev[t]).from == e.from_id@ && prev[t].to == e.to_id@
                        && prev[t].edge_type == e.edge_type@),
                decreases kept@.len() - p + if dup { 0int } else { 1int },
            {
                if kept[p].from == e.from_id && kept[p].to == e.to_id && kept[p].edge_type == e.edge_type {
                    assert(prev[p as int] == edge_view(kept@[p as int]));
                    dup = true;
                }
                p = p + 1;
            }
            if !dup {
                kept.push(edge_for(e));
                assert(edges_view(kept@) =~= prev.push(edge_details_view(*e)));
            }
        }
        k = k + 1;
    }
    assert(evs.take(graph_cache.edges@.len() as int) =~= evs);
    let ghost ke = edges_view(kept@);
    let mut edges: Vec<GraphEdgeJson> = Vec::new();
    let mut q: usize = 0;
    assert(edges_view(edges@) =~= sort_edges(ke.take(0)));
    while q < kept.len()
        invariant
            q <= kept@.len(),
            ke == edges_view(kept@),
            edges_view(edges@) == sort_edges(ke.take(q as int)),
        decreases kept@.len() - q,
    {
        let x = clone_edge_json(&kept[q]);
        let ghost xv = edge_view(x);
        assert(xv == ke[q as int]);
        let ghost t = edges_view(edges@);
        let mut j: usize = 0;
        let mut done = false;
        assert(t.skip(0) =~= t);
        let xf = chars_of(x.from.as_str());
        let xt = chars_of(x.to.as_str());
        while !done && j < edges.len()
            invariant
                j <= edges@.len(),
                t == edges_view(edges@),
                xv == edge_view(x),
                xf@ == xv.from,
                xt@ == xv.to,
                edge_insert_pos(t, xv) == j + edge_insert_pos(t.skip(j as int), xv),
                done ==> edge_insert_pos(t.skip(j as int), xv) == 0,
            decreases edges@.len() - j + (if done { 0int } else { 1int }),
        {
            assert(t.skip(j as int)[0] == t[j as int]);
            let of = chars_of(edges[j].from.as_str());
            let ot = chars_of(edges[j].to.as_str());
            let from_less = lex_less(&xf, &of);
            let same_from = edges[j].from == x.from;
            let to_less = lex_less(&xt, &ot);
            let before_it = from_less || (same_from && to_less);
            assert(t[j as int] == edge_view(edges@[j as int]));
            assert(of@ == t[j as int].from);
            assert(ot@ == t[j as int].to);
            assert(same_from == (t[j as int].from == xv.from));
            assert(before_it == edge_before(xv, t[j as int]));
            if before_it {
                done = true;
            } else {
                assert(t.skip(j as int).drop_first() =~= t.skip(j + 1));
                j = j + 1;
            }
        }
        proof {
            if !done {
                assert(t.skip(j as int) =~= Seq::<EdgeV>::empty());
            }
        }
        edges.insert(j, x);
        assert(edges_view(edges@) =~= t.insert(j as int, xv));
        assert(ke.take(q + 1).drop_last() =~= ke.take(q as int));
        q = q + 1;
    }
    assert(ke.take(kept@.len() as int) =~= ke);
    GraphJson { nodes, edges }
}

/// A copy of an exported edge.
fn clone_edge_json(e: &GraphEdgeJson) -> (r: GraphEdgeJson)
    ensures
        edge_view(r) == edge_view(*e),
{
    GraphEdgeJson { from: e.from.clone(), to: e.to.clone(), edge_type: e.edge_type.clone(), weight: e.weight }
}

/// Exports the full graph.
pub fn export_graph(graph_cache: &GraphCache) -> (r: GraphJson)
    requires
        graph_cache.wf(),
    ensures
        (nodes_view(r.nodes@), edges_view(r.edges@)) == payload_spec(
            graph_cache.symbols@,
            graph_cache.edges@,
            symbol_ids(graph_cache.symbols@).to_set(),
        ),
{
    let mut ids: Vec<String> = Vec::new();
    let mut i: usize = 0;
    while i < graph_cache.symbols.len()
        invariant
            i <= graph_cache.symbols@.len(),
            strings_view(ids@) == symbol_ids(graph_cache.symbols@).take(i as int),
        decreases graph_cache.symbols@.len() - i,
    {
        let ghost before = strings_view(ids@);
        let sid = graph_cache.symbols[i].symbol_id.clone();
        assert(symbol_ids(graph_cache.symbols@)[i as int] == sid@);
        ids.push(sid);
        assert(symbol_ids(graph_cache.symbols@).take(i + 1) =~= before.push(sid@));
        assert(strings_view(ids@) =~= symbol_ids(graph_cache.symbols@).take(i + 1));
        i = i + 1;
    }
    assert(symbol_ids(graph_cache.symbols@).take(graph_cache.symbols@.len() as int) =~= symbol_ids(graph_cache.symbols@));
    build_payload(graph_cache, &ids)
}

/// Whether some symbol has identifier `id`.
fn has_symbol(graph_cache: &GraphCache, id: &String) -> (r: bool)
    ensures
        r == symbol_ids(graph_cache.symbols@).contains(id@),
{
    let mut i: usize = 0;
    while i < graph_cache.symbols.len()
        invariant
            i <= graph_cache.symbols@.len(),
            forall|k: int| 0 <= k < i ==> symbol_ids(graph_cache.symbols@)[k] != id@,
        decreases graph_cache.symbols@.len() - i,
    {
        assert(symbol_ids(graph_cache.symbols@)[i as int] == graph_cache.symbols@[i as int].symbol_id@);
        if graph_cache.symbols[i].symbol_id == *id {
            return true;
        }
        i = i + 1;
    }
    false
}

/// Exports the part of the graph within `hops` edges of `focus_id`.
///
/// # Errors
///
/// Returns an error message when `focus_id` is blank (no valid symbol
/// identifier) or names no symbol of the graph.
pub fn export_focused(graph_cache: &GraphCache, focus_id: &str, hops: usize) -> (r: Result<GraphJson, String>)
    requires
        graph_cache.wf(),
    ensures
        crate::text::trim(focus_id@).len() == 0 ==> (r matches Err(m) && m@
            == "invalid focus symbol id: invalid symbol id: symbol id cannot be empty"@),
        crate::text::trim(focus_id@).len() > 0 && !symbol_ids(graph_cache.symbols@).contains(focus_id@) ==> (r matches Err(m)
            && m@ == "focus symbol "@ + focus_id@ + " not in cache"@),
        crate::text::trim(focus_id@).len() > 0 && symbol_ids(graph_cache.symbols@).contains(focus_id@) ==> (r matches Ok(g)
            && (nodes_view(g.nodes@), edges_view(g.edges@)) == payload_spec(
            graph_cache.symbols@,
            graph_cache.edges@,
            within_hops(edge_ends(graph_cache.edges@), focus_id@, hops as nat),
        )),
{
    if crate::ident::is_blank(focus_id) {
        return Err(String::from_str("invalid focus symbol id: invalid symbol id: symbol id cannot be empty"));
    }
    let focus = String::from_str(focus_id);
    if !has_symbol(graph_cache, &focus) {
        let mut m = String::from_str("focus symbol ");
        m.append(focus_id);
        m.append(" not in cache");
        return Err(m);
    }
    let included = focused_ids(graph_cache, focus_id, hops);
    Ok(build_payload(graph_cache, &included))
}

} // verus!

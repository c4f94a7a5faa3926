//! Candidate selection for subgraph extraction: a breadth-first walk of at
//! most three hops from the seed symbols, where a symbol whose rendered
//! line costs more tokens than the budget is neither kept nor walked
//! through (unless it is a forced seed), and every edge walked between two
//! known symbols becomes a candidate edge.

use vstd::prelude::*;
use crate::diff::strings_view;
use crate::graph::{copy_symbol, edge_details_view, lemma_lookup_bounds, lookup, symbol_ids, EdgeDetails, EdgeV, GraphCache, SeedSource, SymbolDetails};
use crate::grounding::NodeProvenance;
use crate::ident::is_blank;
use crate::seeds::{last_source, seeds_view, SeedV};
use crate::subgraph::{find_details, render_subgraph_text, rendered_text};
use crate::grounding::{RenderedSubgraph, SubgraphManifest};
use crate::text::trim;

verus! {

/// Whether edge `e` has `x` as an endpoint.
pub open spec fn touches(e: EdgeDetails, x: Seq<char>) -> bool {
    e.from_id@ == x || e.to_id@ == x
}

/// The endpoint of `e` reached from `x`.
pub open spec fn other_end(e: EdgeDetails, x: Seq<char>) -> Seq<char> {
    if e.from_id@ == x {
        e.to_id@
    } else {
        e.from_id@
    }
}

/// What an extraction walks: the graph, the seeds, the token cost of each
/// symbol's rendered line (in symbol order) and the token budget.
pub struct ExtractionV {
    pub graph: GraphCache,
    pub seeds: Seq<SeedV>,
    pub costs: Seq<usize>,
    pub budget: nat,
}

impl ExtractionV {
    /// Token cost of the symbol `x`.
    pub open spec fn cost_of(self, x: Seq<char>) -> int {
        match lookup(symbol_ids(self.graph.symbols@), x) {
            Some(i) => self.costs[i] as int,
            None => 0,
        }
    }

    /// A symbol is kept and walked through when it is a forced seed or its
    /// line fits the budget.
    pub open spec fn expandable(self, x: Seq<char>) -> bool {
        last_source(self.seeds, x) == Some(SeedSource::Forced) || self.cost_of(x) <= self.budget
    }

    /// A symbol of the graph under a valid (non-blank) identifier.
    pub open spec fn valid_neighbor(self, y: Seq<char>) -> bool {
        symbol_ids(self.graph.symbols@).contains(y) && trim(y).len() > 0
    }

    /// Edge `i` leads from `x` to the known symbol `y`.
    pub open spec fn leads(self, i: int, x: Seq<char>, y: Seq<char>) -> bool {
        &&& 0 <= i < self.graph.edges@.len()
        &&& touches(self.graph.edges@[i], x)
        &&& other_end(self.graph.edges@[i], x) == y
        &&& self.valid_neighbor(y)
    }

    /// `y` is one step from a walkable symbol of `s`.
    pub open spec fn expands_to(self, s: Set<Seq<char>>, y: Seq<char>) -> bool {
        exists|x: Seq<char>, i: int| s.contains(x) && self.expandable(x) && #[trigger] self.leads(i, x, y)
    }

    /// The seeds that are symbols of the graph.
    pub open spec fn seed_set(self) -> Set<Seq<char>> {
        Set::new(|x: Seq<char>| symbol_ids(self.graph.symbols@).contains(x) && last_source(self.seeds, x) is Some)
    }

    /// The symbols found within `k` steps.
    pub open spec fn reached(self, k: nat) -> Set<Seq<char>>
        decreases k,
    {
        if k == 0 {
            self.seed_set()
        } else {
            let prev = self.reached((k - 1) as nat);
            Set::new(|y: Seq<char>| prev.contains(y) || self.expands_to(prev, y))
        }
    }

    /// The step at which `x` was first found.
    pub open spec fn hop_of(self, x: Seq<char>) -> nat {
        if self.reached(0).contains(x) {
            0
        } else if self.reached(1).contains(x) {
            1
        } else if self.reached(2).contains(x) {
            2
        } else {
            3
        }
    }

    /// Edge `i` is walked from a walkable symbol of `s` to a known symbol.
    pub open spec fn used_by(self, s: Set<Seq<char>>, i: int) -> bool {
        exists|x: Seq<char>| s.contains(x) && self.expandable(x) && #[trigger] self.leads(i, x, other_end(self.graph.edges@[i], x))
    }
}

impl ExtractionV {
    /// `e` is an edge of the graph that the walk goes along.
    pub open spec fn walked(self, e: EdgeDetails) -> bool {
        exists|i: int| self.used_by(self.reached(2), i) && e == #[trigger] self.graph.edges@[i]
    }
}

/// Symbols processed before step `level`.
pub open spec fn done_set(c: ExtractionV, level: nat) -> Set<Seq<char>> {
    if level == 0 {
        Set::empty()
    } else {
        c.reached((level - 1) as nat)
    }
}

proof fn lemma_reached_grows(c: ExtractionV, j: nat, k: nat)
    requires
        j <= k,
    ensures
        c.reached(j).subset_of(c.reached(k)),
    decreases k,
{
    if j < k {
        lemma_reached_grows(c, j, (k - 1) as nat);
    }
}

proof fn lemma_seed_source_exists(seeds: Seq<SeedV>, y: Seq<char>)
    ensures
        last_source(seeds, y) is Some <==> exists|j: int| 0 <= j < seeds.len() && (#[trigger] seeds[j]).id == y,
    decreases seeds.len(),
{
    if seeds.len() > 0 {
        lemma_seed_source_exists(seeds.drop_last(), y);
        if last_source(seeds.drop_last(), y) is Some {
            let j = choose|j: int| 0 <= j < seeds.drop_last().len() && (#[trigger] seeds.drop_last()[j]).id == y;
            assert(seeds[j] == seeds.drop_last()[j]);
        }
        if seeds.last().id == y {
            assert(seeds[seeds.len() - 1].id == y);
        }
        assert forall|j: int| 0 <= j < seeds.len() && (#[trigger] seeds[j]).id == y implies last_source(seeds, y) is Some by {
            if j < seeds.len() - 1 {
                assert(seeds.drop_last()[j] == seeds[j]);
            }
        }
    }
}

/// Position of `x` in `v`.
fn index_of(v: &Vec<String>, x: &String) -> (r: Option<usize>)
    ensures
        match r {
            Some(i) => i < v@.len() && v@[i as int]@ == x@,
            None => !strings_view(v@).contains(x@),
        },
{
    let mut i: usize = 0;
    while i < v.len()
        invariant
            i <= v@.len(),
            forall|k: int| 0 <= k < i ==> v@[k]@ != x@,
        decreases v@.len() - i,
    {
        if v[i] == *x {
            return Some(i);
        }
        i = i + 1;
    }
    proof {
        if strings_view(v@).contains(x@) {
            let k = choose|k: int| 0 <= k < strings_view(v@).len() && #[trigger] strings_view(v@)[k] == x@;
            assert(v@[k]@ == x@);
        }
    }
    None
}

/// Why `x` was chosen as a seed, the last reason given.
fn source_of(seeds: &Vec<(String, SeedSource)>, x: &String) -> (r: Option<SeedSource>)
    ensures
        r == last_source(seeds_view(seeds@), x@),
{
    let ghost sv = seeds_view(seeds@);
    let mut i: usize = seeds.len();
    assert(sv.take(i as int) =~= sv);
    while i > 0
        invariant
            i <= seeds@.len(),
            sv == seeds_view(seeds@),
            last_source(sv, x@) == last_source(sv.take(i as int), x@),
        decreases i,
    {
        assert(sv.take(i as int).last() == sv[i - 1]);
        assert(sv.take(i as int).drop_last() =~= sv.take(i - 1));
        if seeds[i - 1].0 == *x {
            return Some(seeds[i - 1].1);
        }
        i = i - 1;
    }
    None
}

/// A copy of an edge row.
fn copy_edge(e: &EdgeDetails) -> (r: EdgeDetails)
    ensures
        r == *e,
{
    EdgeDetails { from_id: e.from_id.clone(), to_id: e.to_id.clone(), edge_type: e.edge_type.clone(), weight: e.weight }
}

/// A task whose token reduction is measured: its description and the
/// names of the symbols the extracted subgraph is expected to hold.
pub struct TaskSpec {
    pub description: String,
    pub expected_symbols: Vec<String>,
}

/// The symbols and edges an extraction walk keeps.
pub struct SubgraphCandidates {
    /// Every symbol the walk found, with its seed reason and hop distance;
    /// `retained` tells whether the symbol is kept.
    pub nodes: Vec<NodeProvenance>,
    /// The kept symbols.
    pub symbols: Vec<SymbolDetails>,
    /// The walked edges, each value once.
    pub edges: Vec<EdgeDetails>,
}

/// Identifiers of provenance records.
pub open spec fn node_ids(ns: Seq<NodeProvenance>) -> Seq<Seq<char>> {
    ns.map_values(|n: NodeProvenance| n.symbol_id@)
}

/// Values of edges.
pub open spec fn edge_views(es: Seq<EdgeDetails>) -> Seq<EdgeV> {
    es.map_values(|e: EdgeDetails| edge_details_view(e))
}

impl ExtractionV {
    /// `r` holds what the walk keeps: every symbol found within three
    /// steps once, with the reason it was a seed, the step at which it was
    /// found and whether it is kept; the kept symbols, each once, as the
    /// graph has them; and the value of every edge walked from a kept
    /// symbol found within two steps, each value once.
    pub open spec fn candidates_ok(self, r: SubgraphCandidates) -> bool {
        &&& node_ids(r.nodes@).no_duplicates()
        &&& forall|y: Seq<char>| #[trigger] node_ids(r.nodes@).contains(y) <==> self.reached(3).contains(y)
        &&& forall|k: int|
            0 <= k < r.nodes@.len() ==> {
                let n = #[trigger] r.nodes@[k];
                &&& n.seed_source == last_source(self.seeds, n.symbol_id@)
                &&& n.hop_distance == self.hop_of(n.symbol_id@)
                &&& n.retained == self.expandable(n.symbol_id@)
            }
        &&& symbol_ids(r.symbols@).no_duplicates()
        &&& forall|y: Seq<char>|
            #[trigger] symbol_ids(r.symbols@).contains(y) <==> (self.reached(3).contains(y) && self.expandable(y))
        &&& forall|k: int| 0 <= k < r.symbols@.len() ==> self.graph.symbols@.contains(#[trigger] r.symbols@[k])
        &&& edge_views(r.edges@).no_duplicates()
        &&& forall|k: int| 0 <= k < r.edges@.len() ==> self.walked(#[trigger] r.edges@[k])
        &&& forall|i: int|
            0 <= i < self.graph.edges@.len() && #[trigger] self.used_by(self.reached(2), i) ==> edge_views(
                r.edges@,
            ).contains(edge_details_view(self.graph.edges@[i]))
    }
}

proof fn lemma_take_push_set(t: Seq<Seq<char>>, p: int)
    requires
        0 <= p < t.len(),
    ensures
        t.take(p + 1).to_set() == t.take(p).to_set().insert(t[p]),
{
    assert(t.take(p + 1) =~= t.take(p).push(t[p]));
    assert forall|a: Seq<char>| #[trigger] t.take(p + 1).to_set().contains(a) == t.take(p).to_set().insert(t[p]).contains(a) by {
        if t.take(p + 1).contains(a) {
            let k = choose|k: int| 0 <= k < t.take(p + 1).len() && #[trigger] t.take(p + 1)[k] == a;
            if k < p {
                assert(t.take(p)[k] == a);
            }
        }
        if t.take(p).contains(a) {
            let k = choose|k: int| 0 <= k < t.take(p).len() && #[trigger] t.take(p)[k] == a;
            assert(t.take(p + 1)[k] == a);
        }
        if a == t[p] {
            assert(t.take(p + 1)[p] == a);
        }
    }
    assert(t.take(p + 1).to_set() =~= t.take(p).to_set().insert(t[p]));
}

proof fn lemma_expands_insert(c: ExtractionV, s: Set<Seq<char>>, x: Seq<char>, y: Seq<char>)
    ensures
        c.expands_to(s.insert(x), y) <==> (c.expands_to(s, y) || (c.expandable(x) && exists|i: int| #[trigger] c.leads(i, x, y))),
{
    if c.expands_to(s.insert(x), y) {
        let (x1, i1) = choose|x1: Seq<char>, i1: int| s.insert(x).contains(x1) && c.expandable(x1) && #[trigger] c.leads(i1, x1, y);
        if x1 != x {
            assert(c.expands_to(s, y));
        }
    }
    if c.expands_to(s, y) {
        let (x1, i1) = choose|x1: Seq<char>, i1: int| s.contains(x1) && c.expandable(x1) && #[trigger] c.leads(i1, x1, y);
        assert(s.insert(x).contains(x1));
    }
    if c.expandable(x) && exists|i: int| #[trigger] c.leads(i, x, y) {
        let i1 = choose|i: int| #[trigger] c.leads(i, x, y);
        assert(s.insert(x).contains(x));
    }
}

proof fn lemma_used_insert(c: ExtractionV, s: Set<Seq<char>>, x: Seq<char>, i: int)
    ensures
        c.used_by(s.insert(x), i) <==> (c.used_by(s, i) || (c.expandable(x) && c.leads(
            i,
            x,
            other_end(c.graph.edges@[i], x),
        ))),
{
    if c.used_by(s.insert(x), i) {
        let x1 = choose|x1: Seq<char>| s.insert(x).contains(x1) && c.expandable(x1) && #[trigger] c.leads(i, x1, other_end(c.graph.edges@[i], x1));
        if x1 != x {
            assert(c.used_by(s, i));
        }
    }
    if c.used_by(s, i) {
        let x1 = choose|x1: Seq<char>| s.contains(x1) && c.expandable(x1) && #[trigger] c.leads(i, x1, other_end(c.graph.edges@[i], x1));
        assert(s.insert(x).contains(x1));
    }
    if c.expandable(x) && c.leads(i, x, other_end(c.graph.edges@[i], x)) {
        assert(s.insert(x).contains(x));
    }
}

proof fn lemma_reached_known(c: ExtractionV, k: nat, y: Seq<char>)
    requires
        c.reached(k).contains(y),
    ensures
        symbol_ids(c.graph.symbols@).contains(y),
    decreases k,
{
    if k > 0 {
        let prev = c.reached((k - 1) as nat);
        if prev.contains(y) {
            lemma_reached_known(c, (k - 1) as nat, y);
        } else {
            let (x1, i1) = choose|x1: Seq<char>, i1: int| prev.contains(x1) && c.expandable(x1) && #[trigger] c.leads(i1, x1, y);
        }
    }
}

proof fn lemma_push_distinct(s: Seq<Seq<char>>, x: Seq<char>)
    requires
        s.no_duplicates(),
        !s.contains(x),
    ensures
        s.push(x).no_duplicates(),
{
    assert forall|i: int, j: int| 0 <= i < j < s.push(x).len() implies s.push(x)[i] != s.push(x)[j] by {
        if j == s.len() {
            assert(s[i] == s.push(x)[i]);
        }
    }
}

/// Whether an edge with the value of `e` is among `out`.
fn has_edge(out: &Vec<EdgeDetails>, e: &EdgeDetails) -> (r: bool)
    ensures
        r == edge_views(out@).contains(edge_details_view(*e)),
{
    let mut k: usize = 0;
    while k < out.len()
        invariant
            k <= out@.len(),
            forall|q: int| 0 <= q < k ==> edge_details_view(out@[q]) != edge_details_view(*e),
        decreases out@.len() - k,
    {
        let o = &out[k];
        if o.from_id == e.from_id && o.to_id == e.to_id && o.edge_type == e.edge_type && o.weight == e.weight {
            assert(edge_views(out@)[k as int] == edge_details_view(*e));
            return true;
        }
        k = k + 1;
    }
    proof {
        if edge_views(out@).contains(edge_details_view(*e)) {
            let q = choose|q: int| 0 <= q < edge_views(out@).len() && #[trigger] edge_views(out@)[q] == edge_details_view(*e);
            assert(edge_details_view(out@[q]) == edge_details_view(*e));
        }
    }
    false
}

/// Whether the walk keeps and walks through `x`.
fn is_expandable(
    graph_cache: &GraphCache,
    seeds: &Vec<(String, SeedSource)>,
    symbol_costs: &Vec<usize>,
    token_budget: usize,
    x: &String,
) -> (r: bool)
    requires
        symbol_costs@.len() == graph_cache.symbols@.len(),
    ensures
        r == (ExtractionV {
            graph: *graph_cache,
            seeds: seeds_view(seeds@),
            costs: symbol_costs@,
            budget: token_budget as nat,
        }).expandable(x@),
{
    match source_of(seeds, x) {
        Some(SeedSource::Forced) => true,
        _ => match find_details(&graph_cache.symbols, x) {
            Some(i) => {
                proof {
                    lemma_lookup_bounds(symbol_ids(graph_cache.symbols@), x@);
                }
                symbol_costs[i] <= token_budget
            },
            None => true,
        },
    }
}

/// Walks the graph from the seeds for at most three steps. A symbol whose
/// line costs more than `token_budget` tokens (`symbol_costs` gives the
/// cost of each symbol's line, in symbol order) is found but neither kept
/// nor walked through, unless it is a forced seed; a seed that is not a
/// symbol of the graph is ignored, and so is an edge whose other end is
/// blank or not a symbol of the graph.
pub fn collect_candidates(
    graph_cache: &GraphCache,
    seeds: &Vec<(String, SeedSource)>,
    symbol_costs: &Vec<usize>,
    token_budget: usize,
) -> (r: SubgraphCandidates)
    requires
        symbol_costs@.len() == graph_cache.symbols@.len(),
    ensures
        (ExtractionV {
            graph: *graph_cache,
            seeds: seeds_view(seeds@),
            costs: symbol_costs@,
            budget: token_budget as nat,
        }).candidates_ok(r),
{
    let ghost c = ExtractionV {
        graph: *graph_cache,
        seeds: seeds_view(seeds@),
        costs: symbol_costs@,
        budget: token_budget as nat,
    };
    let ghost ids = symbol_ids(graph_cache.symbols@);
    let ghost sv = seeds_view(seeds@);
    let mut found: Vec<String> = Vec::new();
    let mut hops: Vec<usize> = Vec::new();
    let mut s: usize = 0;
    while s < seeds.len()
        invariant
            s <= seeds@.len(),
            sv == seeds_view(seeds@),
            ids == symbol_ids(graph_cache.symbols@),
            hops@.len() == found@.len(),
            strings_view(found@).no_duplicates(),
            forall|y: Seq<char>|
                #[trigger] strings_view(found@).contains(y) <==> (ids.contains(y) && exists|j: int|
                    0 <= j < s && (#[trigger] sv[j]).id == y),
            forall|q: int| 0 <= q < hops@.len() ==> hops@[q] == 0,
        decreases seeds@.len() - s,
    {
        let id = &seeds[s].0;
        assert(sv[s as int].id == id@);
        let known = find_details(&graph_cache.symbols, id);
        proof {
            lemma_lookup_bounds(ids, id@);
        }
        let present = index_of(&found, id);
        if known.is_some() && present.is_none() {
            let ghost before = strings_view(found@);
            found.push(id.clone());
            hops.push(0);
            assert(strings_view(found@) =~= before.push(id@));
            assert forall|y: Seq<char>| #[trigger] strings_view(found@).contains(y) <==> (ids.contains(y) && exists|j: int|
                0 <= j < s + 1 && (#[trigger] sv[j]).id == y) by {
                if strings_view(found@).contains(y) {
                    if y == id@ {
                        assert(sv[s as int].id == y);
                    } else {
                        let k = choose|k: int| 0 <= k < strings_view(found@).len() && #[trigger] strings_view(found@)[k] == y;
                        assert(before[k] == y);
                        assert(before.contains(y));
                        let j = choose|j: int| 0 <= j < s && (#[trigger] sv[j]).id == y;
                        assert(0 <= j < s + 1 && sv[j].id == y);
                    }
                }
                if ids.contains(y) && exists|j: int| 0 <= j < s + 1 && (#[trigger] sv[j]).id == y {
                    let j = choose|j: int| 0 <= j < s + 1 && (#[trigger] sv[j]).id == y;
                    if j < s {
                        assert(before.contains(y));
                        let k = choose|k: int| 0 <= k < before.len() && #[trigger] before[k] == y;
                        assert(strings_view(found@)[k] == y);
                    } else {
                        assert(strings_view(found@)[before.len() as int] == y);
                    }
                }
            }
        } else {
            assert forall|y: Seq<char>| #[trigger] strings_view(found@).contains(y) <==> (ids.contains(y) && exists|j: int|
                0 <= j < s + 1 && (#[trigger] sv[j]).id == y) by {
                if strings_view(found@).contains(y) {
                    let j = choose|j: int| 0 <= j < s && (#[trigger] sv[j]).id == y;
                    assert(0 <= j < s + 1 && sv[j].id == y);
                }
                if ids.contains(y) && exists|j: int| 0 <= j < s + 1 && (#[trigger] sv[j]).id == y {
                    let j = choose|j: int| 0 <= j < s + 1 && (#[trigger] sv[j]).id == y;
                    if j == s {
                        assert(known.is_some());
                        let k = present->0;
                        assert(strings_view(found@)[k as int] == y);
                    }
                }
            }
        }
        s = s + 1;
    }
    proof {
        assert forall|y: Seq<char>| #[trigger] strings_view(found@).to_set().contains(y) == c.reached(0).contains(y) by {
            lemma_seed_source_exists(sv, y);
        }
        assert(strings_view(found@).to_set() =~= c.reached(0));
        assert(strings_view(found@).take(0).to_set() =~= done_set(c, 0));
        assert forall|q: int| 0 <= q < found@.len() implies hops@[q] == c.hop_of(#[trigger] found@[q]@) by {
            assert(strings_view(found@)[q] == found@[q]@);
            assert(strings_view(found@).to_set().contains(found@[q]@));
        }
    }
    let mut out: Vec<EdgeDetails> = Vec::new();
    let ghost mut origin: Seq<int> = Seq::empty();
    let mut lo: usize = 0;
    let mut level: usize = 0;
    while level < 3
        invariant
            level <= 3,
            lo <= found@.len(),
            hops@.len() == found@.len(),
            symbol_costs@.len() == graph_cache.symbols@.len(),
            c == (ExtractionV {
                graph: *graph_cache,
                seeds: seeds_view(seeds@),
                costs: symbol_costs@,
                budget: token_budget as nat,
            }),
            ids == symbol_ids(graph_cache.symbols@),
            strings_view(found@).no_duplicates(),
            strings_view(found@).to_set() == c.reached(level as nat),
            strings_view(found@).take(lo as int).to_set() == done_set(c, level as nat),
            forall|q: int| 0 <= q < found@.len() ==> hops@[q] == c.hop_of(#[trigger] found@[q]@),
            edge_views(out@).no_duplicates(),
            origin.len() == out@.len(),
            forall|k: int| #![trigger origin[k]]
                0 <= k < out@.len() ==> 0 <= origin[k] < graph_cache.edges@.len() && c.used_by(done_set(c, level as nat), origin[k])
                    && out@[k] == graph_cache.edges@[origin[k]],
            forall|i: int| #![trigger graph_cache.edges@[i]]
                0 <= i < graph_cache.edges@.len() && c.used_by(done_set(c, level as nat), i) ==> edge_views(
                    out@,
                ).contains(edge_details_view(graph_cache.edges@[i])),
        decreases 3 - level,
    {
        let hi = found.len();
        let ghost pre = strings_view(found@);
        let ghost lvl = level as nat;
        assert(pre.take(hi as int) =~= pre);
        proof {
            assert forall|y: Seq<char>|
                #[trigger] strings_view(found@).contains(y) <==> (c.reached(lvl).contains(y) || c.expands_to(
                    pre.take(lo as int).to_set(),
                    y,
                )) by {
                assert(strings_view(found@).to_set().contains(y) == strings_view(found@).contains(y));
                if c.expands_to(pre.take(lo as int).to_set(), y) {
                    assert(lvl > 0);
                    assert(c.expands_to(c.reached((lvl - 1) as nat), y));
                }
            }
        }
        let mut p = lo;
        while p < hi
            invariant
                lo <= p <= hi <= found@.len(),
                level < 3,
                lvl == level as nat,
                hops@.len() == found@.len(),
                symbol_costs@.len() == graph_cache.symbols@.len(),
                c == (ExtractionV {
                    graph: *graph_cache,
                    seeds: seeds_view(seeds@),
                    costs: symbol_costs@,
                    budget: token_budget as nat,
                }),
                ids == symbol_ids(graph_cache.symbols@),
                pre.len() == hi,
                strings_view(found@).take(hi as int) == pre,
                pre.to_set() == c.reached(lvl),
                pre.take(lo as int).to_set() == done_set(c, lvl),
                strings_view(found@).no_duplicates(),
                forall|y: Seq<char>|
                    #[trigger] strings_view(found@).contains(y) <==> (c.reached(lvl).contains(y) || c.expands_to(
                        pre.take(p as int).to_set(),
                        y,
                    )),
                forall|q: int| 0 <= q < found@.len() ==> hops@[q] == c.hop_of(#[trigger] found@[q]@),
                edge_views(out@).no_duplicates(),
                origin.len() == out@.len(),
                forall|k: int| #![trigger origin[k]]
                    0 <= k < out@.len() ==> 0 <= origin[k] < graph_cache.edges@.len() && c.used_by(pre.take(p as int).to_set(), origin[k])
                        && out@[k] == graph_cache.edges@[origin[k]],
                forall|i: int| #![trigger graph_cache.edges@[i]]
                    0 <= i < graph_cache.edges@.len() && c.used_by(pre.take(p as int).to_set(), i)
                        ==> edge_views(out@).contains(edge_details_view(graph_cache.edges@[i])),
            decreases hi - p,
        {
            let x = found[p].clone();
            assert(x@ == pre[p as int]);
            proof {
                lemma_take_push_set(pre, p as int);
            }
            let ghost before_set = pre.take(p as int).to_set();
            let ghost after_set = pre.take(p + 1).to_set();
            assert(pre.to_set().contains(x@));
            if is_expandable(graph_cache, seeds, symbol_costs, token_budget, &x) {
                let mut i: usize = 0;
                while i < graph_cache.edges.len()
                    invariant
                        i <= graph_cache.edges@.len(),
                        p < hi <= found@.len(),
                        level < 3,
                        lvl == level as nat,
                        hops@.len() == found@.len(),
                        c == (ExtractionV {
                            graph: *graph_cache,
                            seeds: seeds_view(seeds@),
                            costs: symbol_costs@,
                            budget: token_budget as nat,
                        }),
                        ids == symbol_ids(graph_cache.symbols@),
                        c.expandable(x@),
                        pre.to_set().contains(x@),
                        strings_view(found@).take(hi as int) == pre,
                        pre.to_set() == c.reached(lvl),
                        strings_view(found@).no_duplicates(),
                        forall|y: Seq<char>|
                            #[trigger] strings_view(found@).contains(y) <==> (c.reached(lvl).contains(y)
                                || c.expands_to(before_set, y) || exists|j: int| 0 <= j < i && #[trigger] c.leads(j, x@, y)),
                        forall|q: int| 0 <= q < found@.len() ==> hops@[q] == c.hop_of(#[trigger] found@[q]@),
                        edge_views(out@).no_duplicates(),
                        origin.len() == out@.len(),
                        forall|k: int| #![trigger origin[k]]
                            0 <= k < out@.len() ==> 0 <= origin[k] < graph_cache.edges@.len() && (c.used_by(before_set, origin[k]) || (origin[k] < i
                                && c.leads(origin[k], x@, other_end(graph_cache.edges@[origin[k]], x@)))) && out@[k] == graph_cache.edges@[origin[k]],
                        forall|j: int| #![trigger graph_cache.edges@[j]]
                            0 <= j < graph_cache.edges@.len() && (c.used_by(before_set, j) || (j < i && c.leads(
                                j,
                                x@,
                                other_end(graph_cache.edges@[j], x@),
                            ))) ==> edge_views(out@).contains(edge_details_view(graph_cache.edges@[j])),
                    decreases graph_cache.edges@.len() - i,
                {
                    let e = &graph_cache.edges[i];
                    let ghost ev = graph_cache.edges@[i as int];
                    assert(*e == ev);
                    if e.from_id == x || e.to_id == x {
                        let y = if e.from_id == x {
                            e.to_id.clone()
                        } else {
                            e.from_id.clone()
                        };
                        assert(y@ == other_end(ev, x@));
                        let blank = is_blank(y.as_str());
                        let known = find_details(&graph_cache.symbols, &y);
                        proof {
                            lemma_lookup_bounds(ids, y@);
                        }
                        if !blank && known.is_some() {
                            assert(c.leads(i as int, x@, y@));
                            let ghost before_out = out@;
                            if !has_edge(&out, e) {
                                out.push(copy_edge(e));
                                proof {
                                    origin = origin.push(i as int);
                                }
                                assert(edge_views(out@) =~= edge_views(before_out).push(edge_details_view(ev)));
                                assert forall|k: int| #![trigger origin[k]]
                                    0 <= k < out@.len() implies 0 <= origin[k] < graph_cache.edges@.len() && (c.used_by(before_set, origin[k]) || (origin[k] < i + 1
                                        && c.leads(origin[k], x@, other_end(graph_cache.edges@[origin[k]], x@)))) && out@[k] == graph_cache.edges@[origin[k]] by {
                                    if k < before_out.len() {
                                        assert(out@[k] == before_out[k]);
                                    }
                                }
                                assert forall|j: int| #![trigger graph_cache.edges@[j]]
                                    0 <= j < graph_cache.edges@.len() && (c.used_by(before_set, j) || (j < i + 1 && c.leads(
                                        j,
                                        x@,
                                        other_end(graph_cache.edges@[j], x@),
                                    ))) implies edge_views(out@).contains(edge_details_view(graph_cache.edges@[j])) by {
                                    if j == i {
                                        assert(edge_views(out@)[before_out.len() as int] == edge_details_view(ev));
                                    } else {
                                        let k = choose|k: int| 0 <= k < edge_views(before_out).len() && #[trigger] edge_views(before_out)[k] == edge_details_view(graph_cache.edges@[j]);
                                        assert(edge_views(out@)[k] == edge_views(before_out)[k]);
                                    }
                                }
                            }
                            let ghost yv = y@;
                            let ghost f_before = strings_view(found@);
                            match index_of(&found, &y) {
                                Some(fk) => {
                                    assert(strings_view(found@)[fk as int] == yv);
                                },
                                None => {
                                    let ghost before = strings_view(found@);
                                    let ghost hops_before = hops@;
                                    proof {
                                        assert(c.expands_to(c.reached(lvl), y@));
                                        assert(c.reached((lvl + 1) as nat).contains(y@));
                                        assert(!c.reached(lvl).contains(y@));
                                        lemma_reached_grows(c, 0, lvl);
                                        if lvl >= 1 {
                                            lemma_reached_grows(c, 1, lvl);
                                        } else {
                                            lemma_reached_grows(c, 1, 2);
                                        }
                                        if lvl >= 2 {
                                            lemma_reached_grows(c, 2, lvl);
                                        } else {
                                            lemma_reached_grows(c, (lvl + 1) as nat, 2);
                                        }
                                        lemma_reached_grows(c, (lvl + 1) as nat, 3);
                                    }
                                    found.push(y);
                                    hops.push(level + 1);
                                    assert(strings_view(found@) =~= before.push(y@));
                                    assert(strings_view(found@).take(hi as int) =~= before.take(hi as int));
                                    assert(strings_view(found@)[before.len() as int] == yv);
                                    assert forall|q: int| 0 <= q < found@.len() implies hops@[q] == c.hop_of(#[trigger] found@[q]@) by {
                                        if q < before.len() {
                                            assert(hops@[q] == hops_before[q]);
                                        }
                                    }
                                },
                            }
                            assert forall|y2: Seq<char>|
                                #[trigger] strings_view(found@).contains(y2) <==> (c.reached(lvl).contains(y2)
                                    || c.expands_to(before_set, y2) || exists|j: int| 0 <= j < i + 1 && #[trigger] c.leads(j, x@, y2)) by {
                                assert(strings_view(found@).contains(yv));
                                assert(c.leads(i as int, x@, yv));
                                if f_before.contains(y2) {
                                    let k = choose|k: int| 0 <= k < f_before.len() && #[trigger] f_before[k] == y2;
                                    assert(strings_view(found@)[k] == y2);
                                }
                                if strings_view(found@).contains(y2) && y2 != yv {
                                    let k = choose|k: int| 0 <= k < strings_view(found@).len() && #[trigger] strings_view(found@)[k] == y2;
                                    assert(k < f_before.len());
                                    assert(f_before[k] == y2);
                                }
                                if exists|j: int| 0 <= j < i + 1 && #[trigger] c.leads(j, x@, y2) {
                                    let j = choose|j: int| 0 <= j < i + 1 && #[trigger] c.leads(j, x@, y2);
                                    if j == i {
                                        assert(y2 == yv);
                                    } else {
                                        assert(exists|j: int| 0 <= j < i && #[trigger] c.leads(j, x@, y2));
                                    }
                                }
                                if exists|j: int| 0 <= j < i && #[trigger] c.leads(j, x@, y2) {
                                    let j = choose|j: int| 0 <= j < i && #[trigger] c.leads(j, x@, y2);
                                    assert(0 <= j < i + 1 && c.leads(j, x@, y2));
                                }
                            }
                        } else {
                            assert(!c.leads(i as int, x@, other_end(ev, x@)));
                            assert forall|y2: Seq<char>|
                                #[trigger] strings_view(found@).contains(y2) <==> (c.reached(lvl).contains(y2)
                                    || c.expands_to(before_set, y2) || exists|j: int| 0 <= j < i + 1 && #[trigger] c.leads(j, x@, y2)) by {
                                if exists|j: int| 0 <= j < i + 1 && #[trigger] c.leads(j, x@, y2) {
                                    let j = choose|j: int| 0 <= j < i + 1 && #[trigger] c.leads(j, x@, y2);
                                    if j == i {
                                        assert(y2 == y@);
                                    }
                                }
                            }
                        }
                    } else {
                        assert forall|y2: Seq<char>|
                            #[trigger] strings_view(found@).contains(y2) <==> (c.reached(lvl).contains(y2)
                                || c.expands_to(before_set, y2) || exists|j: int| 0 <= j < i + 1 && #[trigger] c.leads(j, x@, y2)) by {
                            if exists|j: int| 0 <= j < i + 1 && #[trigger] c.leads(j, x@, y2) {
                                let j = choose|j: int| 0 <= j < i + 1 && #[trigger] c.leads(j, x@, y2);
                                assert(j != i);
                            }
                        }
                    }
                    i = i + 1;
                }
                proof {
                    assert forall|y: Seq<char>|
                        #[trigger] strings_view(found@).contains(y) <==> (c.reached(lvl).contains(y) || c.expands_to(after_set, y)) by {
                        lemma_expands_insert(c, before_set, x@, y);
                        if exists|j: int| #[trigger] c.leads(j, x@, y) {
                            let j = choose|j: int| #[trigger] c.leads(j, x@, y);
                            assert(0 <= j < i);
                        }
                    }
                    assert forall|j: int| #![trigger graph_cache.edges@[j]]
                        0 <= j < graph_cache.edges@.len() && c.used_by(after_set, j) implies edge_views(out@).contains(
                            edge_details_view(graph_cache.edges@[j]),
                        ) by {
                        lemma_used_insert(c, before_set, x@, j);
                    }
                    assert forall|k: int| #![trigger origin[k]]
                        0 <= k < out@.len() implies c.used_by(after_set, origin[k]) by {
                        lemma_used_insert(c, before_set, x@, origin[k]);
                    }
                }
            } else {
                proof {
                    assert forall|y: Seq<char>| c.expands_to(after_set, y) == c.expands_to(before_set, y) by {
                        lemma_expands_insert(c, before_set, x@, y);
                    }
                    assert forall|j: int| c.used_by(after_set, j) == c.used_by(before_set, j) by {
                        lemma_used_insert(c, before_set, x@, j);
                    }
                }
            }
            p = p + 1;
        }
        proof {
            assert(pre.take(hi as int) =~= pre);
            assert forall|y: Seq<char>| #[trigger] strings_view(found@).to_set().contains(y) == c.reached((lvl + 1) as nat).contains(y) by {
            }
            assert(strings_view(found@).to_set() =~= c.reached((lvl + 1) as nat));
            assert(strings_view(found@).take(hi as int) == pre);
            assert(done_set(c, (lvl + 1) as nat) == c.reached(lvl));
            assert forall|k: int| #![trigger origin[k]]
                0 <= k < out@.len() implies c.used_by(done_set(c, (lvl + 1) as nat), origin[k]) by {
                assert(c.used_by(pre.take(hi as int).to_set(), origin[k]));
            }
        }
        lo = hi;
        level = level + 1;
    }
    proof {
        assert(done_set(c, 3) == c.reached(2));
    }
    let mut nodes: Vec<NodeProvenance> = Vec::new();
    let mut symbols: Vec<SymbolDetails> = Vec::new();
    let ghost mut sym_origin: Seq<int> = Seq::empty();
    let ghost fv = strings_view(found@);
    let mut q: usize = 0;
    while q < found.len()
        invariant
            q <= found@.len() == hops@.len(),
            fv == strings_view(found@),
            fv.no_duplicates(),
            fv.to_set() == c.reached(3),
            symbol_costs@.len() == graph_cache.symbols@.len(),
            c == (ExtractionV {
                graph: *graph_cache,
                seeds: seeds_view(seeds@),
                costs: symbol_costs@,
                budget: token_budget as nat,
            }),
            ids == symbol_ids(graph_cache.symbols@),
            forall|k: int| 0 <= k < found@.len() ==> hops@[k] == c.hop_of(#[trigger] found@[k]@),
            node_ids(nodes@) == fv.take(q as int),
            forall|k: int|
                0 <= k < nodes@.len() ==> {
                    let n = #[trigger] nodes@[k];
                    &&& n.seed_source == last_source(c.seeds, n.symbol_id@)
                    &&& n.hop_distance == c.hop_of(n.symbol_id@)
                    &&& n.retained == c.expandable(n.symbol_id@)
                },
            symbol_ids(symbols@).no_duplicates(),
            forall|y: Seq<char>|
                #[trigger] symbol_ids(symbols@).contains(y) <==> (fv.take(q as int).contains(y) && c.expandable(y)),
            sym_origin.len() == symbols@.len(),
            forall|k: int| #![trigger sym_origin[k]]
                0 <= k < symbols@.len() ==> 0 <= sym_origin[k] < graph_cache.symbols@.len() && symbols@[k]
                    == graph_cache.symbols@[sym_origin[k]],
        decreases found@.len() - q,
    {
        let x = &found[q];
        assert(x@ == fv[q as int]);
        let keep = is_expandable(graph_cache, seeds, symbol_costs, token_budget, x);
        let source = source_of(seeds, x);
        let ghost nodes_before = nodes@;
        nodes.push(NodeProvenance { symbol_id: x.clone(), seed_source: source, hop_distance: hops[q], retained: keep });
        assert(fv.take(q + 1) =~= fv.take(q as int).push(x@));
        assert(node_ids(nodes@) =~= node_ids(nodes_before).push(x@));
        assert forall|k: int| 0 <= k < nodes@.len() implies {
            let n = #[trigger] nodes@[k];
            &&& n.seed_source == last_source(c.seeds, n.symbol_id@)
            &&& n.hop_distance == c.hop_of(n.symbol_id@)
            &&& n.retained == c.expandable(n.symbol_id@)
        } by {
            if k < nodes_before.len() {
                assert(nodes@[k] == nodes_before[k]);
            }
        }
        let ghost syms_before = symbol_ids(symbols@);
        if keep {
            proof {
                assert(fv.to_set().contains(x@));
                lemma_reached_known(c, 3, x@);
                lemma_lookup_bounds(ids, x@);
            }
            match find_details(&graph_cache.symbols, x) {
                Some(j) => {
                    assert(!fv.take(q as int).contains(x@)) by {
                        if fv.take(q as int).contains(x@) {
                            let k = choose|k: int| 0 <= k < fv.take(q as int).len() && #[trigger] fv.take(q as int)[k] == x@;
                            assert(fv[k] == fv[q as int]);
                        }
                    }
                    assert(!syms_before.contains(x@));
                    let ghost sym_before = symbols@;
                    symbols.push(copy_symbol(&graph_cache.symbols[j]));
                    assert(symbol_ids(symbols@) =~= syms_before.push(x@));
                    proof {
                        sym_origin = sym_origin.push(j as int);
                        lemma_push_distinct(syms_before, x@);
                    }
                    assert forall|k: int| #![trigger sym_origin[k]]
                        0 <= k < symbols@.len() implies 0 <= sym_origin[k] < graph_cache.symbols@.len() && symbols@[k]
                            == graph_cache.symbols@[sym_origin[k]] by {
                        if k < sym_before.len() {
                            assert(symbols@[k] == sym_before[k]);
                        }
                    }
                    assert forall|y: Seq<char>|
                        #[trigger] symbol_ids(symbols@).contains(y) <==> (fv.take(q + 1).contains(y) && c.expandable(y)) by {
                        if symbol_ids(symbols@).contains(y) && y != x@ {
                            let k = choose|k: int| 0 <= k < symbol_ids(symbols@).len() && #[trigger] symbol_ids(symbols@)[k] == y;
                            assert(syms_before[k] == y);
                        }
                        if syms_before.contains(y) {
                            let k = choose|k: int| 0 <= k < syms_before.len() && #[trigger] syms_before[k] == y;
                            assert(symbol_ids(symbols@)[k] == y);
                        }
                        if fv.take(q + 1).contains(y) {
                            let k = choose|k: int| 0 <= k < fv.take(q + 1).len() && #[trigger] fv.take(q + 1)[k] == y;
                            if k < q {
                                assert(fv.take(q as int)[k] == y);
                            }
                        }
                        if fv.take(q as int).contains(y) {
                            let k = choose|k: int| 0 <= k < fv.take(q as int).len() && #[trigger] fv.take(q as int)[k] == y;
                            assert(fv.take(q + 1)[k] == y);
                        }
                        if y == x@ {
                            assert(symbol_ids(symbols@)[syms_before.len() as int] == y);
                            assert(fv.take(q + 1)[q as int] == y);
                        }
                    }
                },
                None => {},
            }
        } else {
            assert forall|y: Seq<char>|
                #[trigger] symbol_ids(symbols@).contains(y) <==> (fv.take(q + 1).contains(y) && c.expandable(y)) by {
                if fv.take(q + 1).contains(y) {
                    let k = choose|k: int| 0 <= k < fv.take(q + 1).len() && #[trigger] fv.take(q + 1)[k] == y;
                    if k < q {
                        assert(fv.take(q as int)[k] == y);
                    }
                }
                if fv.take(q as int).contains(y) {
                    let k = choose|k: int| 0 <= k < fv.take(q as int).len() && #[trigger] fv.take(q as int)[k] == y;
                    assert(fv.take(q + 1)[k] == y);
                }
            }
        }
        q = q + 1;
    }
    proof {
        assert(fv.take(found@.len() as int) =~= fv);
        assert forall|y: Seq<char>| #[trigger] node_ids(nodes@).contains(y) <==> c.reached(3).contains(y) by {
            assert(fv.to_set().contains(y) == fv.contains(y));
        }
        assert forall|y: Seq<char>|
            #[trigger] symbol_ids(symbols@).contains(y) <==> (c.reached(3).contains(y) && c.expandable(y)) by {
            assert(fv.to_set().contains(y) == fv.contains(y));
        }
    }
    let r = SubgraphCandidates { nodes, symbols, edges: out };
    proof {
        assert forall|k: int| 0 <= k < r.symbols@.len() implies c.graph.symbols@.contains(#[trigger] r.symbols@[k]) by {
            assert(r.symbols@[k] == c.graph.symbols@[sym_origin[k]]);
        }
        assert forall|k: int| 0 <= k < r.edges@.len() implies c.walked(#[trigger] r.edges@[k]) by {
            assert(c.used_by(c.reached(2), origin[k]) && r.edges@[k] == c.graph.edges@[origin[k]]);
        }
    }
    r
}

/// The first candidate that may still be dropped with the lowest
/// connectivity: not dropped yet, not a seed.
pub open spec fn prune_choice(cands: Seq<SymbolDetails>, seed: Seq<bool>, pruned: Seq<bool>) -> Option<int>
    decreases cands.len(),
{
    if cands.len() == 0 {
        None
    } else {
        let prev = prune_choice(cands.drop_last(), seed.take(cands.len() - 1), pruned.take(cands.len() - 1));
        let k = cands.len() - 1;
        if pruned[k] || seed[k] {
            prev
        } else {
            match prev {
                Some(m) => if cands[k].connectivity_score < cands[m].connectivity_score { Some(k) } else { Some(m) },
                None => Some(k),
            }
        }
    }
}

/// The candidates still kept, in order.
pub open spec fn kept(cands: Seq<SymbolDetails>, pruned: Seq<bool>) -> Seq<SymbolDetails>
    decreases cands.len(),
{
    if cands.len() == 0 {
        seq![]
    } else {
        let prev = kept(cands.drop_last(), pruned.take(cands.len() - 1));
        if pruned[cands.len() - 1] {
            prev
        } else {
            prev.push(cands.last())
        }
    }
}

/// The pruning of a rendered subgraph that exceeds its token budget: the
/// kept candidates are rendered, the caller counts the tokens of the text,
/// and while the text is over budget the least connected candidate that
/// is not a seed is dropped; when only seeds are left, docstrings are left
/// out; after that the text is taken as it is.
pub struct SubgraphPruner {
    candidates: Vec<SymbolDetails>,
    is_seed: Vec<bool>,
    pruned: Vec<bool>,
    include_docstrings: bool,
}

impl SubgraphPruner {
    /// The candidates.
    pub closed spec fn cands(&self) -> Seq<SymbolDetails> {
        self.candidates@
    }

    /// Which candidates are seeds.
    pub closed spec fn seeds(&self) -> Seq<bool> {
        self.is_seed@
    }

    /// Which candidates are dropped.
    pub closed spec fn dropped(&self) -> Seq<bool> {
        self.pruned@
    }

    /// Whether docstrings are still rendered.
    pub closed spec fn docs(&self) -> bool {
        self.include_docstrings
    }

    /// One flag of each kind per candidate.
    pub open spec fn wf(&self) -> bool {
        self.seeds().len() == self.cands().len() && self.dropped().len() == self.cands().len()
    }

    /// Starts pruning over the kept symbols of a walk, with nothing dropped
    /// and docstrings rendered; a symbol is a seed when `seeds` names it.
    pub fn new(candidates: &SubgraphCandidates, seeds: &Vec<(String, SeedSource)>) -> (r: Self)
        ensures
            r.wf(),
            r.cands() == candidates.symbols@,
            forall|k: int|
                0 <= k < r.cands().len() ==> #[trigger] r.seeds()[k] == (last_source(
                    seeds_view(seeds@),
                    r.cands()[k].symbol_id@,
                ) is Some),
            forall|k: int| 0 <= k < r.cands().len() ==> !#[trigger] r.dropped()[k],
            r.docs(),
    {
        let mut cands: Vec<SymbolDetails> = Vec::new();
        let mut is_seed: Vec<bool> = Vec::new();
        let mut pruned: Vec<bool> = Vec::new();
        let mut k: usize = 0;
        while k < candidates.symbols.len()
            invariant
                k <= candidates.symbols@.len(),
                cands@ == candidates.symbols@.take(k as int),
                is_seed@.len() == k,
                pruned@.len() == k,
                forall|q: int|
                    0 <= q < k ==> #[trigger] is_seed@[q] == (last_source(seeds_view(seeds@), cands@[q].symbol_id@) is Some),
                forall|q: int| 0 <= q < k ==> !#[trigger] pruned@[q],
            decreases candidates.symbols@.len() - k,
        {
            let s = &candidates.symbols[k];
            let src = source_of(seeds, &s.symbol_id);
            cands.push(copy_symbol(s));
            is_seed.push(src.is_some());
            pruned.push(false);
            assert(cands@ =~= candidates.symbols@.take(k + 1));
            k = k + 1;
        }
        assert(candidates.symbols@.take(k as int) =~= candidates.symbols@);
        SubgraphPruner { candidates: cands, is_seed, pruned, include_docstrings: true }
    }

    /// The kept candidates.
    pub fn kept_symbols(&self) -> (r: Vec<SymbolDetails>)
        requires
            self.wf(),
        ensures
            r@ == kept(self.cands(), self.dropped()),
    {
        let mut r: Vec<SymbolDetails> = Vec::new();
        let mut k: usize = 0;
        while k < self.candidates.len()
            invariant
                k <= self.candidates@.len(),
                self.wf(),
                r@ == kept(self.candidates@.take(k as int), self.pruned@.take(k as int)),
            decreases self.candidates@.len() - k,
        {
            assert(self.candidates@.take(k + 1).drop_last() =~= self.candidates@.take(k as int));
            assert(self.pruned@.take(k + 1).take(k as int) =~= self.pruned@.take(k as int));
            if !self.pruned[k] {
                r.push(copy_symbol(&self.candidates[k]));
            }
            k = k + 1;
        }
        assert(self.candidates@.take(k as int) =~= self.candidates@);
        assert(self.pruned@.take(k as int) =~= self.pruned@);
        r
    }

    /// Renders the kept candidates and the edges between them.
    pub fn render(&self, edges: &Vec<EdgeDetails>) -> (r: String)
        requires
            self.wf(),
        ensures
            r@ == rendered_text(kept(self.cands(), self.dropped()), edges@, self.docs()),
    {
        let kept_now = self.kept_symbols();
        render_subgraph_text(&kept_now, edges, self.include_docstrings)
    }

    /// Takes the token count of the last rendering. Returns `true` when the
    /// rendering is final: it fits `token_budget`, or nothing is left to
    /// drop and docstrings are already left out. Otherwise drops the least
    /// connected candidate that is not a seed (the first such on a tie), or
    /// else leaves docstrings out, and returns `false`.
    pub fn after_count(&mut self, token_cost: usize, token_budget: usize) -> (finished: bool)
        requires
            old(self).wf(),
        ensures
            final(self).wf(),
            final(self).cands() == old(self).cands(),
            final(self).seeds() == old(self).seeds(),
            token_cost <= token_budget ==> finished && *final(self) == *old(self),
            token_cost > token_budget ==> match prune_choice(old(self).cands(), old(self).seeds(), old(self).dropped()) {
                Some(m) => !finished && final(self).dropped() == old(self).dropped().update(m, true)
                    && final(self).docs() == old(self).docs(),
                None => final(self).dropped() == old(self).dropped() && (old(self).docs() ==> !finished
                    && !final(self).docs()) && (!old(self).docs() ==> finished && !final(self).docs()),
            },
    {
        if token_cost <= token_budget {
            return true;
        }
        let mut choice: Option<usize> = None;
        let mut k: usize = 0;
        let ghost cs = self.candidates@;
        let ghost sd = self.is_seed@;
        let ghost pr = self.pruned@;
        while k < self.candidates.len()
            invariant
                k <= cs.len(),
                cs == self.candidates@,
                sd == self.is_seed@,
                pr == self.pruned@,
                self.wf(),
                match choice {
                    Some(m) => prune_choice(cs.take(k as int), sd.take(k as int), pr.take(k as int)) == Some(m as int) && m < k,
                    None => prune_choice(cs.take(k as int), sd.take(k as int), pr.take(k as int)) is None,
                },
            decreases cs.len() - k,
        {
            assert(cs.take(k + 1).drop_last() =~= cs.take(k as int));
            assert(sd.take(k + 1).take(k as int) =~= sd.take(k as int));
            assert(pr.take(k + 1).take(k as int) =~= pr.take(k as int));
            if !self.pruned[k] && !self.is_seed[k] {
                choice = match choice {
                    Some(m) => if self.candidates[k].connectivity_score < self.candidates[m].connectivity_score {
                        Some(k)
                    } else {
                        Some(m)
                    },
                    None => Some(k),
                };
            }
            k = k + 1;
        }
        assert(cs.take(k as int) =~= cs);
        assert(sd.take(k as int) =~= sd);
        assert(pr.take(k as int) =~= pr);
        match choice {
            Some(m) => {
                self.pruned.set(m, true);
                false
            },
            None => {
                if self.include_docstrings {
                    self.include_docstrings = false;
                    false
                } else {
                    true
                }
            },
        }
    }

    /// The result of the extraction once the rendering is final: the text
    /// and its token count, the identifiers of the kept candidates, and the
    /// provenance of every symbol found, retained when it was kept by the
    /// walk and not dropped since.
    pub fn finish(&self, candidates: &SubgraphCandidates, text: String, token_cost: usize) -> (r: RenderedSubgraph)
        requires
            self.wf(),
        ensures
            r.text@ == text@,
            r.token_cost == token_cost,
            strings_view(r.included_nodes@) == symbol_ids(kept(self.cands(), self.dropped())),
            node_ids(r.manifest.nodes@) == node_ids(candidates.nodes@),
            forall|k: int|
                0 <= k < r.manifest.nodes@.len() ==> {
                    let n = #[trigger] r.manifest.nodes@[k];
                    let o = candidates.nodes@[k];
                    &&& n.seed_source == o.seed_source
                    &&& n.hop_distance == o.hop_distance
                    &&& n.retained == (o.retained && !dropped_id(self.cands(), self.dropped(), o.symbol_id@))
                },
    {
        let kept_now = self.kept_symbols();
        let mut included: Vec<String> = Vec::new();
        let mut k: usize = 0;
        while k < kept_now.len()
            invariant
                k <= kept_now@.len(),
                strings_view(included@) == symbol_ids(kept_now@.take(k as int)),
            decreases kept_now@.len() - k,
        {
            let ghost before = included@;
            included.push(kept_now[k].symbol_id.clone());
            assert(strings_view(included@) =~= strings_view(before).push(kept_now@[k as int].symbol_id@));
            assert(kept_now@.take(k + 1) =~= kept_now@.take(k as int).push(kept_now@[k as int]));
            assert(strings_view(included@) =~= symbol_ids(kept_now@.take(k + 1)));
            k = k + 1;
        }
        assert(kept_now@.take(k as int) =~= kept_now@);
        let mut nodes: Vec<NodeProvenance> = Vec::new();
        let mut q: usize = 0;
        while q < candidates.nodes.len()
            invariant
                q <= candidates.nodes@.len(),
                self.wf(),
                nodes@.len() == q,
                node_ids(nodes@) == node_ids(candidates.nodes@.take(q as int)),
                forall|k: int|
                    0 <= k < q ==> {
                        let n = #[trigger] nodes@[k];
                        let o = candidates.nodes@[k];
                        &&& n.seed_source == o.seed_source
                        &&& n.hop_distance == o.hop_distance
                        &&& n.retained == (o.retained && !dropped_id(self.cands(), self.dropped(), o.symbol_id@))
                    },
            decreases candidates.nodes@.len() - q,
        {
            let o = &candidates.nodes[q];
            let gone = self.is_dropped(&o.symbol_id);
            let ghost before = nodes@;
            nodes.push(NodeProvenance {
                symbol_id: o.symbol_id.clone(),
                seed_source: o.seed_source,
                hop_distance: o.hop_distance,
                retained: o.retained && !gone,
            });
            assert(node_ids(nodes@) =~= node_ids(before).push(o.symbol_id@));
            assert(candidates.nodes@.take(q + 1) =~= candidates.nodes@.take(q as int).push(candidates.nodes@[q as int]));
            assert(node_ids(nodes@) =~= node_ids(candidates.nodes@.take(q + 1)));
            q = q + 1;
        }
        assert(candidates.nodes@.take(q as int) =~= candidates.nodes@);
        RenderedSubgraph { text, included_nodes: included, token_cost, manifest: SubgraphManifest { nodes } }
    }

    /// Whether a candidate with identifier `id` has been dropped.
    fn is_dropped(&self, id: &String) -> (r: bool)
        requires
            self.wf(),
        ensures
            r == dropped_id(self.cands(), self.dropped(), id@),
    {
        let mut k: usize = 0;
        while k < self.candidates.len()
            invariant
                k <= self.candidates@.len(),
                self.wf(),
                forall|q: int| 0 <= q < k ==> !(self.candidates@[q].symbol_id@ == id@ && #[trigger] self.pruned@[q]),
            decreases self.candidates@.len() - k,
        {
            if self.pruned[k] && self.candidates[k].symbol_id == *id {
                return true;
            }
            k = k + 1;
        }
        false
    }
}

/// Whether a candidate with identifier `id` has been dropped.
pub open spec fn dropped_id(cands: Seq<SymbolDetails>, pruned: Seq<bool>, id: Seq<char>) -> bool {
    exists|q: int| 0 <= q < cands.len() && cands[q].symbol_id@ == id && #[trigger] pruned[q]
}

/// A forced seed that is a symbol of the graph is always found, at step
/// zero, and kept by the walk whatever its cost.
pub proof fn forced_seeds_are_kept(c: ExtractionV, x: Seq<char>)
    requires
        symbol_ids(c.graph.symbols@).contains(x),
        last_source(c.seeds, x) == Some(SeedSource::Forced),
    ensures
        c.reached(3).contains(x),
        c.expandable(x),
        c.hop_of(x) == 0,
{
    assert(c.reached(0).contains(x));
    lemma_reached_grows(c, 0, 3);
}

/// Pruning only ever drops a candidate that is not a seed and was not
/// dropped before.
pub proof fn seeds_are_never_dropped(cands: Seq<SymbolDetails>, seed: Seq<bool>, pruned: Seq<bool>)
    requires
        seed.len() == cands.len(),
        pruned.len() == cands.len(),
    ensures
        prune_choice(cands, seed, pruned) matches Some(m) ==> 0 <= m < cands.len() && !seed[m] && !pruned[m],
    decreases cands.len(),
{
    if cands.len() > 0 {
        let n = cands.len() - 1;
        seeds_are_never_dropped(cands.drop_last(), seed.take(n), pruned.take(n));
        if let Some(m) = prune_choice(cands.drop_last(), seed.take(n), pruned.take(n)) {
            assert(seed.take(n)[m] == seed[m]);
            assert(pruned.take(n)[m] == pruned[m]);
        }
    }
}

/// Whether one of the included symbols is named `name`.
pub open spec fn name_included(ss: Seq<SymbolDetails>, included: Seq<Seq<char>>, name: Seq<char>) -> bool {
    exists|k: int|
        0 <= k < included.len() && #[trigger] lookup(symbol_ids(ss), included[k]) is Some && ss[lookup(
            symbol_ids(ss),
            included[k],
        )->0].name@ == name
}

/// How many of the expected names (counted as often as they are listed)
/// name an included symbol.
pub open spec fn matched_count(ss: Seq<SymbolDetails>, included: Seq<Seq<char>>, expected: Seq<Seq<char>>) -> nat
    decreases expected.len(),
{
    if expected.len() == 0 {
        0
    } else {
        matched_count(ss, included, expected.drop_last()) + if name_included(ss, included, expected.last()) {
            1nat
        } else {
            0nat
        }
    }
}

/// Whether one of the included symbols is named `name`.
fn is_name_included(graph_cache: &GraphCache, included_nodes: &Vec<String>, name: &String) -> (r: bool)
    ensures
        r == name_included(graph_cache.symbols@, strings_view(included_nodes@), name@),
{
    let ghost ss = graph_cache.symbols@;
    let ghost inc = strings_view(included_nodes@);
    let mut k: usize = 0;
    while k < included_nodes.len()
        invariant
            k <= included_nodes@.len(),
            ss == graph_cache.symbols@,
            inc == strings_view(included_nodes@),
            forall|q: int|
                0 <= q < k ==> !(#[trigger] lookup(symbol_ids(ss), inc[q]) is Some && ss[lookup(symbol_ids(ss), inc[q])->0].name@ == name@),
        decreases included_nodes@.len() - k,
    {
        assert(inc[k as int] == included_nodes@[k as int]@);
        match find_details(&graph_cache.symbols, &included_nodes[k]) {
            Some(j) => {
                proof {
                    lemma_lookup_bounds(symbol_ids(ss), inc[k as int]);
                }
                if graph_cache.symbols[j].name == *name {
                    return true;
                }
            },
            None => {},
        }
        k = k + 1;
    }
    false
}

/// The number of the task's expected symbols that the extracted subgraph
/// includes, by name: the numerator of the task's recall.
pub fn matched_expected_count(graph_cache: &GraphCache, included_nodes: &Vec<String>, task: &TaskSpec) -> (r: usize)
    ensures
        r == matched_count(graph_cache.symbols@, strings_view(included_nodes@), strings_view(task.expected_symbols@)),
{
    let ghost exp = strings_view(task.expected_symbols@);
    let mut count: usize = 0;
    let mut i: usize = 0;
    while i < task.expected_symbols.len()
        invariant
            i <= task.expected_symbols@.len(),
            exp == strings_view(task.expected_symbols@),
            count == matched_count(graph_cache.symbols@, strings_view(included_nodes@), exp.take(i as int)),
            count <= i,
        decreases task.expected_symbols@.len() - i,
    {
        assert(exp.take(i + 1).drop_last() =~= exp.take(i as int));
        assert(exp.take(i + 1).last() == task.expected_symbols@[i as int]@);
        if is_name_included(graph_cache, included_nodes, &task.expected_symbols[i]) {
            count = count + 1;
        }
        i = i + 1;
    }
    assert(exp.take(i as int) =~= exp);
    count
}

} // verus!

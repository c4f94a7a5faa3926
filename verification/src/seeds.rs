//! Seed symbols for subgraph extraction: symbols named in the task text,
//! symbols found by semantic search, and every symbol of the files of
//! forced seeds, each seed once with the strongest reason it was chosen.

use vstd::prelude::*;
use crate::diff::strings_view;
use crate::graph::{GraphCache, SeedSource, SymbolDetails};
use crate::grounding::{capture_group, opt_texts, regex_captures};

verus! {

/// Extracts seed symbols for subgraph extraction.
pub struct SeedExtractor;

/// A seed and why it was chosen.
pub struct SeedV {
    pub id: Seq<char>,
    pub source: SeedSource,
}

/// Identifiers of the symbols named `name`, in symbol order.
pub open spec fn ids_named(ss: Seq<SymbolDetails>, name: Seq<char>) -> Seq<Seq<char>>
    decreases ss.len(),
{
    if ss.len() == 0 {
        seq![]
    } else {
        let prev = ids_named(ss.drop_last(), name);
        if ss.last().name@ == name { prev.push(ss.last().symbol_id@) } else { prev }
    }
}

/// Identifiers of the symbols of file `file_id`, in symbol order.
pub open spec fn ids_in_file(ss: Seq<SymbolDetails>, file_id: Seq<char>) -> Seq<Seq<char>>
    decreases ss.len(),
{
    if ss.len() == 0 {
        seq![]
    } else {
        let prev = ids_in_file(ss.drop_last(), file_id);
        if ss.last().file_id@ == file_id { prev.push(ss.last().symbol_id@) } else { prev }
    }
}

/// The file of the first symbol with identifier `id`.
pub open spec fn file_of(ss: Seq<SymbolDetails>, id: Seq<char>) -> Option<Seq<char>>
    decreases ss.len(),
{
    if ss.len() == 0 {
        None
    } else {
        match file_of(ss.drop_last(), id) {
            Some(f) => Some(f),
            None => if ss.last().symbol_id@ == id { Some(ss.last().file_id@) } else { None },
        }
    }
}

/// Tags every identifier with `source`.
pub open spec fn tagged(ids: Seq<Seq<char>>, source: SeedSource) -> Seq<SeedV> {
    ids.map_values(|id: Seq<char>| SeedV { id, source })
}

/// Seeds from names matched in the task text.
pub open spec fn name_events(ss: Seq<SymbolDetails>, names: Seq<Option<Seq<char>>>) -> Seq<SeedV>
    decreases names.len(),
{
    if names.len() == 0 {
        seq![]
    } else {
        name_events(ss, names.drop_last()) + match names.last() {
            Some(n) => tagged(ids_named(ss, n), SeedSource::Name),
            None => seq![],
        }
    }
}

/// Seeds from forced seeds: all symbols of a forced symbol's file, or of
/// the file a forced seed names.
pub open spec fn forced_events(ss: Seq<SymbolDetails>, forced: Seq<Seq<char>>) -> Seq<SeedV>
    decreases forced.len(),
{
    if forced.len() == 0 {
        seq![]
    } else {
        let f = forced.last();
        forced_events(ss, forced.drop_last()) + tagged(
            match file_of(ss, f) {
                Some(file) => ids_in_file(ss, file),
                None => ids_in_file(ss, f),
            },
            SeedSource::Forced,
        )
    }
}

/// Position of the seed with identifier `id`.
pub open spec fn seed_index(seeds: Seq<SeedV>, id: Seq<char>) -> Option<int>
    decreases seeds.len(),
{
    if seeds.len() == 0 {
        None
    } else {
        match seed_index(seeds.drop_last(), id) {
            Some(i) => Some(i),
            None => if seeds.last().id == id { Some(seeds.len() - 1) } else { None },
        }
    }
}

/// Seeds after recording event `e`: a later reason for a seed replaces
/// the earlier one in its place; a new seed goes last.
pub open spec fn record_one(prev: Seq<SeedV>, e: SeedV) -> Seq<SeedV> {
    match seed_index(prev, e.id) {
        Some(i) => prev.update(i, e),
        None => prev.push(e),
    }
}

/// Seeds after recording `events` in order, starting from `start`.
pub open spec fn record_all(start: Seq<SeedV>, events: Seq<SeedV>) -> Seq<SeedV>
    decreases events.len(),
{
    if events.len() == 0 {
        start
    } else {
        record_one(record_all(start, events.drop_last()), events.last())
    }
}

/// The pattern of a name in a task text: a capitalised word or a
/// snake-case word.
pub open spec fn name_pattern() -> Seq<char> {
    "\\b([A-Z][a-zA-Z]+|[a-z]+(_[a-z]+)+)\\b"@
}

/// The names the task text mentions.
pub open spec fn task_names(task: Seq<char>) -> Seq<Option<Seq<char>>> {
    match regex_captures(name_pattern(), task, 1) {
        Some(v) => v,
        None => seq![],
    }
}

/// The seeds of a task: names matched in its text, then the semantic
/// matches, then the forced files, so that forced beats semantic beats name.
pub open spec fn seeds_spec(ss: Seq<SymbolDetails>, task: Seq<char>, semantic: Seq<Seq<char>>, forced: Seq<Seq<char>>) -> Seq<SeedV> {
    seeds_from_names_spec(ss, task_names(task), semantic, forced)
}

/// The seeds given the names matched in a task's text (`None` where the
/// capture group took no part), the semantic matches and the forced seeds.
pub open spec fn seeds_from_names_spec(
    ss: Seq<SymbolDetails>,
    names: Seq<Option<Seq<char>>>,
    semantic: Seq<Seq<char>>,
    forced: Seq<Seq<char>>,
) -> Seq<SeedV> {
    record_all(seq![], name_events(ss, names) + tagged(semantic, SeedSource::Semantic) + forced_events(ss, forced))
}

/// Values of exec seeds.
pub open spec fn seeds_view(v: Seq<(String, SeedSource)>) -> Seq<SeedV> {
    v.map_values(|p: (String, SeedSource)| SeedV { id: p.0@, source: p.1 })
}

/// Records one seed.
fn record(seeds: &mut Vec<(String, SeedSource)>, id: &String, source: SeedSource)
    ensures
        seeds_view(final(seeds)@) == record_one(seeds_view(old(seeds)@), SeedV { id: id@, source }),
{
    let ghost sv = seeds_view(seeds@);
    let mut i: usize = 0;
    while i < seeds.len()
        invariant
            i <= seeds@.len(),
            sv == seeds_view(seeds@),
            sv == seeds_view(old(seeds)@),
            seed_index(sv.take(i as int), id@) is None,
        decreases seeds@.len() - i,
    {
        assert(sv.take(i + 1).drop_last() =~= sv.take(i as int));
        if seeds[i].0 == *id {
            assert(sv.take(i + 1).last() == sv[i as int]);
            assert(sv[i as int].id == id@);
            assert(seed_index(sv.take(i + 1), id@) == Some(i as int));
            proof {
                lemma_seed_index_take(sv, i + 1, id@);
            }
            assert(seed_index(sv, id@) == Some(i as int));
            seeds.set(i, (id.clone(), source));
            assert(seeds_view(seeds@) =~= sv.update(i as int, SeedV { id: id@, source }));
            return;
        }
        i = i + 1;
    }
    assert(sv.take(seeds@.len() as int) =~= sv);
    seeds.push((id.clone(), source));
    assert(seeds_view(seeds@) =~= sv.push(SeedV { id: id@, source }));
}

proof fn lemma_seed_index_take(s: Seq<SeedV>, k: int, id: Seq<char>)
    requires
        0 <= k <= s.len(),
        seed_index(s.take(k), id) is Some,
    ensures
        seed_index(s, id) == seed_index(s.take(k), id),
    decreases s.len() - k,
{
    if k < s.len() {
        assert(s.take(k + 1).drop_last() =~= s.take(k));
        lemma_seed_index_take(s, k + 1, id);
    } else {
        assert(s.take(k) =~= s);
    }
}

/// Appends the identifiers of `graph_cache`'s symbols that `pick` selects
/// (by name or by file), tagged with `source`.
fn push_matching(events: &mut Vec<(String, SeedSource)>, graph_cache: &GraphCache, key: &String, by_file: bool, source: SeedSource)
    ensures
        seeds_view(final(events)@) == seeds_view(old(events)@) + tagged(
            if by_file { ids_in_file(graph_cache.symbols@, key@) } else { ids_named(graph_cache.symbols@, key@) },
            source,
        ),
{
    let ghost start = seeds_view(events@);
    let ghost ss = graph_cache.symbols@;
    let mut k: usize = 0;
    assert(start =~= start + tagged(
        if by_file { ids_in_file(ss.take(0), key@) } else { ids_named(ss.take(0), key@) },
        source,
    ));
    while k < graph_cache.symbols.len()
        invariant
            k <= ss.len(),
            ss == graph_cache.symbols@,
            seeds_view(events@) == start + tagged(
                if by_file { ids_in_file(ss.take(k as int), key@) } else { ids_named(ss.take(k as int), key@) },
                source,
            ),
        decreases ss.len() - k,
    {
        let sym = &graph_cache.symbols[k];
        assert(ss.take(k + 1).drop_last() =~= ss.take(k as int));
        assert(ss.take(k + 1).last() == *sym);
        let hit = if by_file { sym.file_id == *key } else { sym.name == *key };
        if hit {
            let ghost before = seeds_view(events@);
            events.push((sym.symbol_id.clone(), source));
            let ghost prev_ids = if by_file { ids_in_file(ss.take(k as int), key@) } else { ids_named(ss.take(k as int), key@) };
            assert(tagged(prev_ids.push(sym.symbol_id@), source) =~= tagged(prev_ids, source).push(SeedV { id: sym.symbol_id@, source }));
            assert(seeds_view(events@) =~= before.push(SeedV { id: sym.symbol_id@, source }));
        }
        k = k + 1;
    }
    assert(ss.take(ss.len() as int) =~= ss);
}

/// The file of the first symbol with identifier `id`.
fn find_file_of(graph_cache: &GraphCache, id: &String) -> (r: Option<String>)
    ensures
        match file_of(graph_cache.symbols@, id@) {
            Some(f) => r matches Some(x) && x@ == f,
            None => r is None,
        },
{
    let ghost ss = graph_cache.symbols@;
    let mut k: usize = 0;
    while k < graph_cache.symbols.len()
        invariant
            k <= ss.len(),
            ss == graph_cache.symbols@,
            file_of(ss.take(k as int), id@) is None,
        decreases ss.len() - k,
    {
        assert(ss.take(k + 1).drop_last() =~= ss.take(k as int));
        if graph_cache.symbols[k].symbol_id == *id {
            proof {
                lemma_file_of_take(ss, k + 1, id@);
            }
            return Some(graph_cache.symbols[k].file_id.clone());
        }
        k = k + 1;
    }
    assert(ss.take(ss.len() as int) =~= ss);
    None
}

proof fn lemma_file_of_take(ss: Seq<SymbolDetails>, k: int, id: Seq<char>)
    requires
        0 <= k <= ss.len(),
        file_of(ss.take(k), id) is Some,
    ensures
        file_of(ss, id) == file_of(ss.take(k), id),
    decreases ss.len() - k,
{
    if k < ss.len() {
        assert(ss.take(k + 1).drop_last() =~= ss.take(k));
        lemma_file_of_take(ss, k + 1, id);
    } else {
        assert(ss.take(k) =~= ss);
    }
}

impl SeedExtractor {
    /// Extracts the seeds of a task: symbols whose names the task text
    /// mentions, the `semantic_matches` found by semantic search, and all
    /// symbols of the files of `forced_seeds` (a forced seed names a symbol
    /// or a file). A seed found several ways keeps the strongest reason:
    /// forced, then semantic, then name.
    pub fn extract_seeds(
        graph_cache: &GraphCache,
        task_description: &str,
        semantic_matches: &Vec<String>,
        forced_seeds: &Vec<String>,
    ) -> (r: Vec<(String, SeedSource)>)
        ensures
            seeds_view(r@) == seeds_spec(
                graph_cache.symbols@,
                task_description@,
                strings_view(semantic_matches@),
                strings_view(forced_seeds@),
            ),
    {
        let names = match capture_group("\\b([A-Z][a-zA-Z]+|[a-z]+(_[a-z]+)+)\\b", task_description, 1) {
            Some(v) => v,
            None => {
                let v: Vec<Option<String>> = Vec::new();
                assert(opt_texts(v@) =~= Seq::<Option<Seq<char>>>::empty());
                v
            },
        };
        Self::seeds_from_names(graph_cache, &names, semantic_matches, forced_seeds)
    }

    /// The seeds of a task given the names matched in its text (each match's
    /// capture, `None` where it took no part), the semantic matches and the
    /// forced seeds; see `extract_seeds`.
    pub fn seeds_from_names(
        graph_cache: &GraphCache,
        names: &Vec<Option<String>>,
        semantic_matches: &Vec<String>,
        forced_seeds: &Vec<String>,
    ) -> (r: Vec<(String, SeedSource)>)
        ensures
            seeds_view(r@) == seeds_from_names_spec(
                graph_cache.symbols@,
                opt_texts(names@),
                strings_view(semantic_matches@),
                strings_view(forced_seeds@),
            ),
    {
        let ghost ss = graph_cache.symbols@;
        let mut events: Vec<(String, SeedSource)> = Vec::new();
        let ghost nv = opt_texts(names@);
        let mut m: usize = 0;
        assert(seeds_view(events@) =~= name_events(ss, nv.take(0)));
        while m < names.len()
            invariant
                m <= names@.len(),
                nv == opt_texts(names@),
                ss == graph_cache.symbols@,
                seeds_view(events@) == name_events(ss, nv.take(m as int)),
            decreases names@.len() - m,
        {
            assert(nv.take(m + 1).drop_last() =~= nv.take(m as int));
            match &names[m] {
                Some(n) => {
                    assert(nv.take(m + 1).last() == Some(n@));
                    push_matching(&mut events, graph_cache, n, false, SeedSource::Name);
                },
                None => {
                    assert(nv.take(m + 1).last() is None);
                    assert(seeds_view(events@) =~= name_events(ss, nv.take(m as int)) + Seq::<SeedV>::empty());
                },
            }
            m = m + 1;
        }
        assert(nv.take(names@.len() as int) =~= nv);
        let ghost after_names = seeds_view(events@);
        let ghost sem = strings_view(semantic_matches@);
        let mut i: usize = 0;
        while i < semantic_matches.len()
            invariant
                i <= semantic_matches@.len(),
                sem == strings_view(semantic_matches@),
                seeds_view(events@) == after_names + tagged(sem.take(i as int), SeedSource::Semantic),
            decreases semantic_matches@.len() - i,
        {
            let ghost before = seeds_view(events@);
            events.push((semantic_matches[i].clone(), SeedSource::Semantic));
            assert(sem.take(i + 1) =~= sem.take(i as int).push(semantic_matches@[i as int]@));
            assert(tagged(sem.take(i + 1), SeedSource::Semantic) =~= tagged(sem.take(i as int), SeedSource::Semantic).push(
                SeedV { id: semantic_matches@[i as int]@, source: SeedSource::Semantic },
            ));
            assert(seeds_view(events@) =~= before.push(SeedV { id: semantic_matches@[i as int]@, source: SeedSource::Semantic }));
            i = i + 1;
        }
        assert(sem.take(semantic_matches@.len() as int) =~= sem);
        let ghost after_semantic = seeds_view(events@);
        let ghost fs = strings_view(forced_seeds@);
        let mut f: usize = 0;
        assert(forced_events(ss, fs.take(0)) =~= Seq::<SeedV>::empty());
        assert(after_semantic =~= after_semantic + forced_events(ss, fs.take(0)));
        while f < forced_seeds.len()
            invariant
                f <= forced_seeds@.len(),
                fs == strings_view(forced_seeds@),
                ss == graph_cache.symbols@,
                seeds_view(events@) == after_semantic + forced_events(ss, fs.take(f as int)),
            decreases forced_seeds@.len() - f,
        {
            let seed = &forced_seeds[f];
            assert(fs.take(f + 1).drop_last() =~= fs.take(f as int));
            assert(fs.take(f + 1).last() == seed@);
            let ghost before = seeds_view(events@);
            match find_file_of(graph_cache, seed) {
                Some(file) => push_matching(&mut events, graph_cache, &file, true, SeedSource::Forced),
                None => push_matching(&mut events, graph_cache, seed, true, SeedSource::Forced),
            }
            assert(seeds_view(events@) =~= after_semantic + forced_events(ss, fs.take(f + 1)));
            f = f + 1;
        }
        assert(fs.take(forced_seeds@.len() as int) =~= fs);
        let ghost all = seeds_view(events@);
        let mut seeds: Vec<(String, SeedSource)> = Vec::new();
        let mut e: usize = 0;
        assert(seeds_view(seeds@) =~= record_all(seq![], all.take(0)));
        while e < events.len()
            invariant
                e <= events@.len(),
                all == seeds_view(events@),
                seeds_view(seeds@) == record_all(seq![], all.take(e as int)),
            decreases events@.len() - e,
        {
            assert(all.take(e + 1).drop_last() =~= all.take(e as int));
            assert(all.take(e + 1).last() == SeedV { id: events@[e as int].0@, source: events@[e as int].1 });
            record(&mut seeds, &events[e].0, events[e].1);
            e = e + 1;
        }
        assert(all.take(events@.len() as int) =~= all);
        seeds
    }
}

/// The reason the last event for `id` gives.
pub open spec fn last_source(events: Seq<SeedV>, id: Seq<char>) -> Option<SeedSource>
    decreases events.len(),
{
    if events.len() == 0 {
        None
    } else if events.last().id == id {
        Some(events.last().source)
    } else {
        last_source(events.drop_last(), id)
    }
}

/// No identifier occurs twice.
pub open spec fn distinct_seeds(s: Seq<SeedV>) -> bool {
    forall|i: int, j: int| 0 <= i < j < s.len() ==> (#[trigger] s[i]).id != (#[trigger] s[j]).id
}

proof fn lemma_seed_index(s: Seq<SeedV>, id: Seq<char>)
    ensures
        seed_index(s, id) matches Some(i) ==> 0 <= i < s.len() && s[i].id == id,
        seed_index(s, id) is None ==> forall|k: int| 0 <= k < s.len() ==> (#[trigger] s[k]).id != id,
    decreases s.len(),
{
    if s.len() > 0 {
        lemma_seed_index(s.drop_last(), id);
        if seed_index(s, id) is None {
            assert forall|k: int| 0 <= k < s.len() implies (#[trigger] s[k]).id != id by {
                if k < s.len() - 1 {
                    assert(s.drop_last()[k] == s[k]);
                }
            }
        }
    }
}

proof fn lemma_record_one(prev: Seq<SeedV>, e: SeedV)
    requires
        distinct_seeds(prev),
    ensures
        distinct_seeds(record_one(prev, e)),
        exists|k: int| 0 <= k < record_one(prev, e).len() && #[trigger] record_one(prev, e)[k] == e,
        forall|k: int| 0 <= k < prev.len() && prev[k].id != e.id ==> exists|m: int|
            0 <= m < record_one(prev, e).len() && #[trigger] record_one(prev, e)[m] == prev[k],
{
    lemma_seed_index(prev, e.id);
    let r = record_one(prev, e);
    match seed_index(prev, e.id) {
        Some(i) => {
            assert(r[i] == e);
            assert forall|k: int| 0 <= k < prev.len() && prev[k].id != e.id implies exists|m: int|
                0 <= m < r.len() && #[trigger] r[m] == prev[k] by {
                assert(r[k] == prev[k]);
            }
        },
        None => {
            assert(r[prev.len() as int] == e);
            assert forall|k: int| 0 <= k < prev.len() && prev[k].id != e.id implies exists|m: int|
                0 <= m < r.len() && #[trigger] r[m] == prev[k] by {
                assert(r[k] == prev[k]);
            }
        },
    }
}

proof fn lemma_record_all(events: Seq<SeedV>, id: Seq<char>)
    ensures
        distinct_seeds(record_all(seq![], events)),
        last_source(events, id) matches Some(src) ==> exists|k: int|
            0 <= k < record_all(seq![], events).len() && #[trigger] record_all(seq![], events)[k] == (SeedV { id, source: src }),
    decreases events.len(),
{
    if events.len() > 0 {
        lemma_record_all(events.drop_last(), id);
        let prev = record_all(seq![], events.drop_last());
        let e = events.last();
        lemma_record_one(prev, e);
        let r = record_all(seq![], events);
        assert(r == record_one(prev, e));
        if e.id != id {
            if let Some(src) = last_source(events.drop_last(), id) {
                let k = choose|k: int| 0 <= k < prev.len() && #[trigger] prev[k] == (SeedV { id, source: src });
                assert(prev[k].id != e.id);
                let m = choose|m: int| 0 <= m < r.len() && #[trigger] r[m] == prev[k];
                assert(r[m] == (SeedV { id, source: src }));
            }
        } else {
            assert(e == (SeedV { id, source: e.source }));
            let m = choose|m: int| 0 <= m < r.len() && #[trigger] r[m] == e;
            assert(r[m] == (SeedV { id, source: e.source }));
        }
    }
}

proof fn lemma_last_source_concat(a: Seq<SeedV>, b: Seq<SeedV>, id: Seq<char>)
    ensures
        last_source(a + b, id) == if last_source(b, id) is Some { last_source(b, id) } else { last_source(a, id) },
    decreases b.len(),
{
    if b.len() == 0 {
        assert(a + b =~= a);
    } else {
        assert((a + b).drop_last() =~= a + b.drop_last());
        lemma_last_source_concat(a, b.drop_last(), id);
    }
}

proof fn lemma_last_source_tagged(ids: Seq<Seq<char>>, src: SeedSource, id: Seq<char>)
    ensures
        last_source(tagged(ids, src), id) == if ids.contains(id) { Some(src) } else { None::<SeedSource> },
    decreases ids.len(),
{
    if ids.len() > 0 {
        assert(tagged(ids, src).drop_last() =~= tagged(ids.drop_last(), src));
        lemma_last_source_tagged(ids.drop_last(), src, id);
        if ids.contains(id) && ids.last() != id {
            let k = choose|k: int| 0 <= k < ids.len() && ids[k] == id;
            assert(ids.drop_last()[k] == id);
        }
        if ids.drop_last().contains(id) {
            let k = choose|k: int| 0 <= k < ids.drop_last().len() && ids.drop_last()[k] == id;
            assert(ids[k] == id);
        }
        if ids.last() == id {
            assert(ids[ids.len() - 1] == id);
        }
    }
}

/// Each seed is listed once, with the strongest reason it was found:
/// forced beats semantic, which beats a name match.
pub proof fn seeds_keep_their_strongest_reason(
    ss: Seq<SymbolDetails>,
    task: Seq<char>,
    semantic: Seq<Seq<char>>,
    forced: Seq<Seq<char>>,
    id: Seq<char>,
)
    ensures
        distinct_seeds(seeds_spec(ss, task, semantic, forced)),
        last_source(forced_events(ss, forced), id) is Some ==> exists|k: int|
            0 <= k < seeds_spec(ss, task, semantic, forced).len() && #[trigger] seeds_spec(ss, task, semantic, forced)[k]
                == (SeedV { id, source: SeedSource::Forced }),
        last_source(forced_events(ss, forced), id) is None && semantic.contains(id) ==> exists|k: int|
            0 <= k < seeds_spec(ss, task, semantic, forced).len() && #[trigger] seeds_spec(ss, task, semantic, forced)[k]
                == (SeedV { id, source: SeedSource::Semantic }),
{
    let ne = name_events(ss, task_names(task));
    let se = tagged(semantic, SeedSource::Semantic);
    let fe = forced_events(ss, forced);
    lemma_record_all(ne + se + fe, id);
    lemma_last_source_concat(ne + se, fe, id);
    lemma_last_source_concat(ne, se, id);
    lemma_last_source_tagged(semantic, SeedSource::Semantic, id);
    lemma_forced_sources(ss, forced, id);
}

proof fn lemma_forced_sources(ss: Seq<SymbolDetails>, forced: Seq<Seq<char>>, id: Seq<char>)
    ensures
        last_source(forced_events(ss, forced), id) matches Some(src) ==> src == SeedSource::Forced,
    decreases forced.len(),
{
    if forced.len() > 0 {
        let f = forced.last();
        let ids = match file_of(ss, f) {
            Some(file) => ids_in_file(ss, file),
            None => ids_in_file(ss, f),
        };
        lemma_forced_sources(ss, forced.drop_last(), id);
        lemma_last_source_concat(forced_events(ss, forced.drop_last()), tagged(ids, SeedSource::Forced), id);
        lemma_last_source_tagged(ids, SeedSource::Forced, id);
    }
}

} // verus!

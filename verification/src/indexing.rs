//! Decisions of the graph index that sit between its database reads and
//! writes: what an incremental update of one file deletes and rewrites,
//! which symbol a call site belongs to, and which edges the indexed
//! calls, imports, implementations and tests give.

use vstd::prelude::*;
use crate::diff::strings_view;
use crate::edges::EdgeRow;

verus! {

/// One symbol of a file as the index stores it: its identifier, name,
/// kind (as the index writes it), line span, signature and docstring.
pub struct SymbolRow {
    pub id: String,
    pub name: String,
    pub kind: String,
    pub start_line: usize,
    pub end_line: usize,
    pub signature: Option<String>,
    pub docstring: Option<String>,
}

/// Value of an optional text.
pub open spec fn opt_view(o: Option<String>) -> Option<Seq<char>> {
    match o {
        Some(s) => Some(s@),
        None => None,
    }
}

/// Identifiers of symbol rows.
pub open spec fn row_ids(rs: Seq<SymbolRow>) -> Seq<Seq<char>> {
    rs.map_values(|r: SymbolRow| r.id@)
}

/// The two rows agree on everything but the identifier.
pub open spec fn same_meta(a: SymbolRow, b: SymbolRow) -> bool {
    &&& a.name@ == b.name@
    &&& a.kind@ == b.kind@
    &&& a.start_line == b.start_line
    &&& a.end_line == b.end_line
    &&& opt_view(a.signature) == opt_view(b.signature)
    &&& opt_view(a.docstring) == opt_view(b.docstring)
}

/// The last row with identifier `id`.
pub open spec fn last_row(rs: Seq<SymbolRow>, id: Seq<char>) -> Option<SymbolRow>
    decreases rs.len(),
{
    if rs.len() == 0 {
        None
    } else if rs.last().id@ == id {
        Some(rs.last())
    } else {
        last_row(rs.drop_last(), id)
    }
}

/// A new symbol is written when the file had no symbol with its
/// identifier, or the stored one (the last row for it) differs.
pub open spec fn needs_upsert(old_rows: Seq<SymbolRow>, s: SymbolRow) -> bool {
    match last_row(old_rows, s.id@) {
        None => true,
        Some(o) => !same_meta(o, s),
    }
}

/// Positions of the new symbols to write, in order.
pub open spec fn upsert_spec(old_rows: Seq<SymbolRow>, new_symbols: Seq<SymbolRow>) -> Seq<int>
    decreases new_symbols.len(),
{
    if new_symbols.len() == 0 {
        seq![]
    } else {
        let prev = upsert_spec(old_rows, new_symbols.drop_last());
        if needs_upsert(old_rows, new_symbols.last()) {
            prev.push(new_symbols.len() - 1)
        } else {
            prev
        }
    }
}

/// What an incremental update of one file does to its symbols: the
/// identifiers to delete (with their call sites, edges and embeddings),
/// and the positions of the new symbols to write.
pub struct FileUpdatePlan {
    pub delete_ids: Vec<String>,
    pub upsert: Vec<usize>,
}

/// Values of positions.
pub open spec fn positions(v: Seq<usize>) -> Seq<int> {
    v.map_values(|k: usize| k as int)
}

/// The last row with the identifier `id`, found from the end.
fn find_last_row(rs: &Vec<SymbolRow>, id: &String) -> (r: Option<usize>)
    ensures
        match r {
            Some(k) => k < rs@.len() && last_row(rs@, id@) == Some(rs@[k as int]),
            None => last_row(rs@, id@) is None,
        },
{
    let mut i: usize = rs.len();
    assert(rs@.take(i as int) =~= rs@);
    while i > 0
        invariant
            i <= rs@.len(),
            last_row(rs@, id@) == last_row(rs@.take(i as int), id@),
        decreases i,
    {
        assert(rs@.take(i as int).last() == rs@[i - 1]);
        assert(rs@.take(i as int).drop_last() =~= rs@.take(i - 1));
        if rs[i - 1].id == *id {
            return Some(i - 1);
        }
        i = i - 1;
    }
    None
}

/// Whether some row has the identifier `id`.
fn has_row(rs: &Vec<SymbolRow>, id: &String) -> (r: bool)
    ensures
        r == row_ids(rs@).contains(id@),
{
    let mut i: usize = 0;
    while i < rs.len()
        invariant
            i <= rs@.len(),
            forall|k: int| 0 <= k < i ==> rs@[k].id@ != id@,
        decreases rs@.len() - i,
    {
        if rs[i].id == *id {
            assert(row_ids(rs@)[i as int] == id@);
            return true;
        }
        i = i + 1;
    }
    proof {
        if row_ids(rs@).contains(id@) {
            let k = choose|k: int| 0 <= k < row_ids(rs@).len() && #[trigger] row_ids(rs@)[k] == id@;
            assert(rs@[k].id@ == id@);
        }
    }
    false
}

/// Whether `a` and `b` hold the same optional text.
fn same_opt(a: &Option<String>, b: &Option<String>) -> (r: bool)
    ensures
        r == (opt_view(*a) == opt_view(*b)),
{
    match (a, b) {
        (Some(x), Some(y)) => *x == *y,
        (None, None) => true,
        _ => false,
    }
}

/// Plans the incremental update of one file from the rows the index held
/// for it and the symbols the file now declares: every old identifier the
/// file no longer declares is deleted (each once), and every new symbol
/// that is new or whose name, kind, lines, signature or docstring changed
/// is written.
pub fn plan_file_update(old_rows: &Vec<SymbolRow>, new_symbols: &Vec<SymbolRow>) -> (r: FileUpdatePlan)
    ensures
        strings_view(r.delete_ids@).no_duplicates(),
        forall|x: Seq<char>|
            #[trigger] strings_view(r.delete_ids@).contains(x) <==> (row_ids(old_rows@).contains(x) && !row_ids(
                new_symbols@,
            ).contains(x)),
        positions(r.upsert@) == upsert_spec(old_rows@, new_symbols@),
{
    let mut delete_ids: Vec<String> = Vec::new();
    let mut i: usize = 0;
    while i < old_rows.len()
        invariant
            i <= old_rows@.len(),
            strings_view(delete_ids@).no_duplicates(),
            forall|x: Seq<char>|
                #[trigger] strings_view(delete_ids@).contains(x) <==> (row_ids(old_rows@.take(i as int)).contains(x)
                    && !row_ids(new_symbols@).contains(x)),
        decreases old_rows@.len() - i,
    {
        let id = &old_rows[i];
        let ghost before = strings_view(delete_ids@);
        let ghost prefix = row_ids(old_rows@.take(i as int));
        assert(row_ids(old_rows@.take(i + 1)) =~= prefix.push(old_rows@[i as int].id@));
        let gone = !has_row(new_symbols, &id.id);
        let mut listed = false;
        let mut k: usize = 0;
        while k < delete_ids.len()
            invariant
                k <= delete_ids@.len(),
                before == strings_view(delete_ids@),
                listed == before.take(k as int).contains(id.id@),
            decreases delete_ids@.len() - k,
        {
            assert(before.take(k + 1) =~= before.take(k as int).push(before[k as int]));
            if delete_ids[k] == id.id {
                assert(before.take(k + 1)[k as int] == id.id@);
                listed = true;
            } else {
                assert forall|x: Seq<char>| before.take(k + 1).contains(x) == (before.take(k as int).contains(x) || x == before[k as int]) by {
                    if before.take(k + 1).contains(x) {
                        let q = choose|q: int| 0 <= q < before.take(k + 1).len() && #[trigger] before.take(k + 1)[q] == x;
                        if q < k {
                            assert(before.take(k as int)[q] == x);
                        }
                    }
                    if before.take(k as int).contains(x) {
                        let q = choose|q: int| 0 <= q < before.take(k as int).len() && #[trigger] before.take(k as int)[q] == x;
                        assert(before.take(k + 1)[q] == x);
                    }
                    if x == before[k as int] {
                        assert(before.take(k + 1)[k as int] == x);
                    }
                }
            }
            k = k + 1;
        }
        assert(before.take(k as int) =~= before);
        if gone && !listed {
            delete_ids.push(id.id.clone());
            assert(strings_view(delete_ids@) =~= before.push(id.id@));
            assert forall|a: int, b: int| 0 <= a < b < strings_view(delete_ids@).len() implies strings_view(delete_ids@)[a] != strings_view(delete_ids@)[b] by {
                if b == before.len() {
                    assert(before[a] == strings_view(delete_ids@)[a]);
                }
            }
        }
        assert forall|x: Seq<char>|
            #[trigger] strings_view(delete_ids@).contains(x) <==> (row_ids(old_rows@.take(i + 1)).contains(x)
                && !row_ids(new_symbols@).contains(x)) by {
            if strings_view(delete_ids@).contains(x) {
                let q = choose|q: int| 0 <= q < strings_view(delete_ids@).len() && #[trigger] strings_view(delete_ids@)[q] == x;
                if q < before.len() {
                    assert(before[q] == x);
                    assert(before.contains(x));
                    let t = choose|t: int| 0 <= t < prefix.len() && #[trigger] prefix[t] == x;
                    assert(row_ids(old_rows@.take(i + 1))[t] == x);
                } else {
                    assert(row_ids(old_rows@.take(i + 1))[i as int] == x);
                }
            }
            if row_ids(old_rows@.take(i + 1)).contains(x) && !row_ids(new_symbols@).contains(x) {
                let t = choose|t: int| 0 <= t < row_ids(old_rows@.take(i + 1)).len() && #[trigger] row_ids(old_rows@.take(i + 1))[t] == x;
                if t < i {
                    assert(prefix[t] == x);
                    assert(before.contains(x));
                    let q = choose|q: int| 0 <= q < before.len() && #[trigger] before[q] == x;
                    assert(strings_view(delete_ids@)[q] == x);
                } else if listed {
                    let q = choose|q: int| 0 <= q < before.len() && #[trigger] before[q] == x;
                    assert(strings_view(delete_ids@)[q] == x);
                } else {
                    assert(strings_view(delete_ids@)[before.len() as int] == x);
                }
            }
        }
        i = i + 1;
    }
    assert(old_rows@.take(i as int) =~= old_rows@);

    let mut upsert: Vec<usize> = Vec::new();
    let mut j: usize = 0;
    assert(new_symbols@.take(0) =~= Seq::<SymbolRow>::empty());
    while j < new_symbols.len()
        invariant
            j <= new_symbols@.len(),
            positions(upsert@) == upsert_spec(old_rows@, new_symbols@.take(j as int)),
        decreases new_symbols@.len() - j,
    {
        let s = &new_symbols[j];
        assert(new_symbols@.take(j + 1).drop_last() =~= new_symbols@.take(j as int));
        assert(new_symbols@.take(j + 1).last() == new_symbols@[j as int]);
        let write = match find_last_row(old_rows, &s.id) {
            None => true,
            Some(k) => {
                let o = &old_rows[k];
                !(o.name == s.name && o.kind == s.kind && o.start_line == s.start_line && o.end_line == s.end_line
                    && same_opt(&o.signature, &s.signature) && same_opt(&o.docstring, &s.docstring))
            },
        };
        let ghost before = positions(upsert@);
        if write {
            upsert.push(j);
            assert(positions(upsert@) =~= before.push(j as int));
        }
        j = j + 1;
    }
    assert(new_symbols@.take(j as int) =~= new_symbols@);
    FileUpdatePlan { delete_ids, upsert }
}

/// The innermost symbol spanning `line` among the first of `syms`: the
/// one with the smallest span (the first on a tie; a span of the largest
/// `usize` is never chosen), and that span.
pub open spec fn innermost_acc(syms: Seq<SymbolRow>, line: usize) -> (Option<Seq<char>>, int)
    decreases syms.len(),
{
    if syms.len() == 0 {
        (None, usize::MAX as int)
    } else {
        let prev = innermost_acc(syms.drop_last(), line);
        let s = syms.last();
        if s.start_line <= line && line <= s.end_line && s.end_line - s.start_line < prev.1 {
            (Some(s.id@), s.end_line - s.start_line)
        } else {
            prev
        }
    }
}

/// The identifier of the innermost symbol whose lines span `line`.
pub open spec fn innermost_spec(syms: Seq<SymbolRow>, line: usize) -> Option<Seq<char>> {
    innermost_acc(syms, line).0
}

/// The symbol a call on `line` belongs to: the innermost symbol of the
/// file whose line span holds it, `None` when no symbol does.
pub fn innermost_caller(symbols: &Vec<SymbolRow>, line: usize) -> (r: Option<String>)
    ensures
        opt_view(r) == innermost_spec(symbols@, line),
{
    let mut caller: Option<String> = None;
    let mut smallest: usize = usize::MAX;
    let mut i: usize = 0;
    assert(symbols@.take(0) =~= Seq::<SymbolRow>::empty());
    while i < symbols.len()
        invariant
            i <= symbols@.len(),
            (opt_view(caller), smallest as int) == innermost_acc(symbols@.take(i as int), line),
        decreases symbols@.len() - i,
    {
        let s = &symbols[i];
        assert(symbols@.take(i + 1).drop_last() =~= symbols@.take(i as int));
        assert(symbols@.take(i + 1).last() == symbols@[i as int]);
        if line >= s.start_line && line <= s.end_line {
            let range = s.end_line - s.start_line;
            if range < smallest {
                smallest = range;
                caller = Some(s.id.clone());
            }
        }
        i = i + 1;
    }
    assert(symbols@.take(i as int) =~= symbols@);
    caller
}


/// Whether `x` is one edge away from the file's symbols `file_ids` along
/// some edge of `es` (given as source and target), in either direction.
pub open spec fn touches(es: Seq<(String, String)>, file_ids: Seq<Seq<char>>, x: Seq<char>) -> bool {
    exists|i: int|
        0 <= i < es.len() && ((file_ids.contains((#[trigger] es[i]).0@) && es[i].1@ == x) || (file_ids.contains(es[i].1@)
            && es[i].0@ == x))
}

/// The symbols whose scores an incremental update recomputes: the new
/// symbols of the file and every symbol linked to a symbol of the file by
/// an edge before the edges were rebuilt or after.
pub open spec fn affected_spec(
    file_ids: Seq<Seq<char>>,
    before: Seq<(String, String)>,
    after: Seq<(String, String)>,
    new_ids: Seq<Seq<char>>,
    x: Seq<char>,
) -> bool {
    new_ids.contains(x) || touches(before, file_ids, x) || touches(after, file_ids, x)
}

fn contains_id(v: &Vec<String>, x: &String) -> (r: bool)
    ensures
        r == strings_view(v@).contains(x@),
{
    let mut i: usize = 0;
    while i < v.len()
        invariant
            i <= v@.len(),
            forall|q: int| 0 <= q < i ==> v@[q]@ != x@,
        decreases v@.len() - i,
    {
        if v[i] == *x {
            assert(strings_view(v@)[i as int] == x@);
            return true;
        }
        i = i + 1;
    }
    proof {
        if strings_view(v@).contains(x@) {
            let q = choose|q: int| 0 <= q < strings_view(v@).len() && #[trigger] strings_view(v@)[q] == x@;
            assert(v@[q]@ == x@);
        }
    }
    false
}

fn add_id(out: &mut Vec<String>, x: &String)
    requires
        strings_view(old(out)@).no_duplicates(),
    ensures
        strings_view(final(out)@).no_duplicates(),
        forall|y: Seq<char>| #[trigger] strings_view(final(out)@).contains(y) <==> (strings_view(old(out)@).contains(y) || y == x@),
{
    let ghost before = strings_view(out@);
    if !contains_id(out, x) {
        out.push(x.clone());
        assert(strings_view(out@) =~= before.push(x@));
        assert forall|y: Seq<char>| #[trigger] strings_view(out@).contains(y) <==> (before.contains(y) || y == x@) by {
            if strings_view(out@).contains(y) {
                let q = choose|q: int| 0 <= q < strings_view(out@).len() && #[trigger] strings_view(out@)[q] == y;
                if q < before.len() {
                    assert(before[q] == y);
                }
            }
            if before.contains(y) {
                let q = choose|q: int| 0 <= q < before.len() && #[trigger] before[q] == y;
                assert(strings_view(out@)[q] == y);
            }
            if y == x@ {
                assert(strings_view(out@)[before.len() as int] == y);
            }
        }
    }
}

fn add_touched(out: &mut Vec<String>, file_ids: &Vec<String>, es: &Vec<(String, String)>)
    requires
        strings_view(old(out)@).no_duplicates(),
    ensures
        strings_view(final(out)@).no_duplicates(),
        forall|y: Seq<char>| #[trigger] strings_view(final(out)@).contains(y) <==> (strings_view(old(out)@).contains(y)
            || touches(es@, strings_view(file_ids@), y)),
{
    let ghost start = strings_view(out@);
    let ghost fs = strings_view(file_ids@);
    let mut i: usize = 0;
    while i < es.len()
        invariant
            i <= es@.len(),
            fs == strings_view(file_ids@),
            strings_view(out@).no_duplicates(),
            forall|y: Seq<char>| #[trigger] strings_view(out@).contains(y) <==> (start.contains(y) || touches(es@.take(i as int), fs, y)),
        decreases es@.len() - i,
    {
        let ghost before = strings_view(out@);
        let from_in = contains_id(file_ids, &es[i].0);
        let to_in = contains_id(file_ids, &es[i].1);
        if from_in {
            add_id(out, &es[i].1);
        }
        let ghost mid = strings_view(out@);
        if to_in {
            add_id(out, &es[i].0);
        }
        assert forall|y: Seq<char>| #[trigger] strings_view(out@).contains(y) <==> (start.contains(y) || touches(es@.take(i + 1), fs, y)) by {
            let t = es@.take(i + 1);
            assert(t[i as int] == es@[i as int]);
            if touches(t, fs, y) {
                let q = choose|q: int|
                    0 <= q < t.len() && ((fs.contains((#[trigger] t[q]).0@) && t[q].1@ == y) || (fs.contains(t[q].1@) && t[q].0@ == y));
                if q < i {
                    assert(es@.take(i as int)[q] == t[q]);
                    assert(touches(es@.take(i as int), fs, y));
                }
            }
            if touches(es@.take(i as int), fs, y) {
                let q = choose|q: int|
                    0 <= q < es@.take(i as int).len() && ((fs.contains((#[trigger] es@.take(i as int)[q]).0@) && es@.take(i as int)[q].1@
                        == y) || (fs.contains(es@.take(i as int)[q].1@) && es@.take(i as int)[q].0@ == y));
                assert(t[q] == es@.take(i as int)[q]);
            }
        }
        i = i + 1;
    }
    assert(es@.take(i as int) =~= es@);
}

/// The symbols whose connectivity scores an incremental update of a file
/// recomputes, each once: the new symbols of the file (`new_ids`) and
/// every symbol at the other end of an edge that starts or ends at a
/// symbol of the file (`file_ids`), among the edges before the rebuild
/// (`before`) and after it (`after`), edges given as source and target.
pub fn affected_symbols(
    file_ids: &Vec<String>,
    before: &Vec<(String, String)>,
    after: &Vec<(String, String)>,
    new_ids: &Vec<String>,
) -> (r: Vec<String>)
    ensures
        strings_view(r@).no_duplicates(),
        forall|x: Seq<char>|
            #[trigger] strings_view(r@).contains(x) <==> affected_spec(
                strings_view(file_ids@),
                before@,
                after@,
                strings_view(new_ids@),
                x,
            ),
{
    let mut out: Vec<String> = Vec::new();
    assert(strings_view(out@) =~= Seq::<Seq<char>>::empty());
    add_touched(&mut out, file_ids, before);
    let mut i: usize = 0;
    let ghost after_before = strings_view(out@);
    while i < new_ids.len()
        invariant
            i <= new_ids@.len(),
            strings_view(out@).no_duplicates(),
            forall|y: Seq<char>| #[trigger] strings_view(out@).contains(y) <==> (after_before.contains(y) || strings_view(new_ids@).take(i as int).contains(y)),
        decreases new_ids@.len() - i,
    {
        let ghost prev = strings_view(new_ids@).take(i as int);
        add_id(&mut out, &new_ids[i]);
        assert(strings_view(new_ids@).take(i + 1) =~= prev.push(new_ids@[i as int]@));
        assert forall|y: Seq<char>| #[trigger] strings_view(new_ids@).take(i + 1).contains(y) <==> (prev.contains(y) || y == new_ids@[i as int]@) by {
            let t = strings_view(new_ids@).take(i + 1);
            if t.contains(y) {
                let q = choose|q: int| 0 <= q < t.len() && #[trigger] t[q] == y;
                if q < i {
                    assert(prev[q] == y);
                }
            }
            if prev.contains(y) {
                let q = choose|q: int| 0 <= q < prev.len() && #[trigger] prev[q] == y;
                assert(t[q] == y);
            }
            if y == new_ids@[i as int]@ {
                assert(t[i as int] == y);
            }
        }
        i = i + 1;
    }
    assert(strings_view(new_ids@).take(i as int) =~= strings_view(new_ids@));
    add_touched(&mut out, file_ids, after);
    out
}

/// Number of edges of `es` of type `t` whose end (`to_end`) or start is `x`.
pub open spec fn count_edges(es: Seq<EdgeRow>, x: Seq<char>, t: Seq<char>, to_end: bool) -> nat
    decreases es.len(),
{
    if es.len() == 0 {
        0
    } else {
        let e = es.last();
        let hit = e.edge_type@ == t && (if to_end { e.to_id@ == x } else { e.from_id@ == x });
        count_edges(es.drop_last(), x, t, to_end) + if hit { 1nat } else { 0nat }
    }
}

/// The connectivity score an incremental update writes for a symbol:
/// twice its incoming and outgoing calls and its direct imports, plus the
/// imports of its file.
pub open spec fn update_score_spec(es: Seq<EdgeRow>, symbol_id: Seq<char>, file_id: Seq<char>) -> nat {
    2 * count_edges(es, symbol_id, "CALLS"@, true) + 2 * count_edges(es, symbol_id, "CALLS"@, false) + 2 * count_edges(
        es,
        symbol_id,
        "IMPORTS"@,
        true,
    ) + count_edges(es, file_id, "IMPORTS"@, true)
}

proof fn lemma_count_bound(es: Seq<EdgeRow>, x: Seq<char>, t: Seq<char>, to_end: bool)
    ensures
        count_edges(es, x, t, to_end) <= es.len(),
    decreases es.len(),
{
    if es.len() > 0 {
        lemma_count_bound(es.drop_last(), x, t, to_end);
    }
}

fn count_matching(es: &Vec<EdgeRow>, x: &String, t: &String, to_end: bool) -> (r: usize)
    ensures
        r == count_edges(es@, x@, t@, to_end),
{
    let mut n: usize = 0;
    let mut i: usize = 0;
    assert(es@.take(0) =~= Seq::<EdgeRow>::empty());
    while i < es.len()
        invariant
            i <= es@.len(),
            n == count_edges(es@.take(i as int), x@, t@, to_end),
        decreases es@.len() - i,
    {
        assert(es@.take(i + 1).drop_last() =~= es@.take(i as int));
        assert(es@.take(i + 1).last() == es@[i as int]);
        proof {
            lemma_count_bound(es@.take(i as int), x@, t@, to_end);
        }
        let e = &es[i];
        let end_matches = if to_end { e.to_id == *x } else { e.from_id == *x };
        if e.edge_type == *t && end_matches {
            n = n + 1;
        }
        i = i + 1;
    }
    assert(es@.take(i as int) =~= es@);
    n
}

/// The connectivity score an incremental update writes for the symbol
/// `symbol_id` of the file `file_id`, from the edges of the graph.
pub fn update_score(es: &Vec<EdgeRow>, symbol_id: &String, file_id: &String) -> (r: u64)
    requires
        es@.len() <= 1_000_000_000_000,
    ensures
        r == update_score_spec(es@, symbol_id@, file_id@),
{
    let calls = String::from_str("CALLS");
    let imports = String::from_str("IMPORTS");
    let calls_in = count_matching(es, symbol_id, &calls, true);
    let calls_out = count_matching(es, symbol_id, &calls, false);
    let imports_in = count_matching(es, symbol_id, &imports, true);
    let file_imports = count_matching(es, file_id, &imports, true);
    proof {
        lemma_count_bound(es@, symbol_id@, "CALLS"@, true);
        lemma_count_bound(es@, symbol_id@, "CALLS"@, false);
        lemma_count_bound(es@, symbol_id@, "IMPORTS"@, true);
        lemma_count_bound(es@, file_id@, "IMPORTS"@, true);
    }
    2 * (calls_in as u64) + 2 * (calls_out as u64) + 2 * (imports_in as u64) + file_imports as u64
}
} // verus!

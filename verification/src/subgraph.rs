//! Plain-text rendering of an extracted subgraph: one line per symbol,
//! grouped by file and ordered by position, followed by the call edges
//! between the rendered symbols in alphabetical order.

use vstd::prelude::*;
use crate::diff::strings_view;
use crate::graph::{lemma_lookup_bounds, lookup, symbol_ids, EdgeDetails, SymbolDetails};
use crate::grounding::same_text;
use crate::ident::is_blank;
use crate::text::{
    before_first, before_first_vec, chars_of, lemma_lex_irreflexive, lemma_lex_transitive,
    lex_less, lex_lt, push_char, string_of_all, sub_vec, trim, trim_vec,
};

verus! {

/// `s` without leading double quotes.
pub open spec fn strip_quotes_start(s: Seq<char>) -> Seq<char>
    decreases s.len(),
{
    if s.len() > 0 && s[0] == '"' {
        strip_quotes_start(s.drop_first())
    } else {
        s
    }
}

/// `s` without trailing double quotes.
pub open spec fn strip_quotes_end(s: Seq<char>) -> Seq<char>
    decreases s.len(),
{
    if s.len() > 0 && s.last() == '"' {
        strip_quotes_end(s.drop_last())
    } else {
        s
    }
}

/// `s` without leading and trailing double quotes (`str::trim_matches('"')`).
pub open spec fn trim_quotes(s: Seq<char>) -> Seq<char> {
    strip_quotes_end(strip_quotes_start(s))
}

/// The first line of a docstring, trimmed; empty when there is none.
pub open spec fn doc_summary(d: Seq<char>) -> Seq<char> {
    trim(before_first(d, seq!['\n']))
}

/// The line that renders one symbol:
/// `<file> :: <kind> <name>(<signature>)`, the signature part only when the
/// symbol has one, followed by `  // <summary>` when docstrings are asked
/// for and the docstring's first line is not blank.
pub open spec fn symbol_line(s: SymbolDetails, include_docstring: bool) -> Seq<char> {
    let head = s.file_path@ + " :: "@ + trim_quotes(s.kind@);
    let named = match s.signature {
        Some(sig) => head + " "@ + s.name@ + "("@ + sig@ + ")"@,
        None => head + " "@ + s.name@,
    };
    let summary = match s.docstring {
        Some(d) => doc_summary(d@),
        None => seq![],
    };
    if include_docstring && summary.len() > 0 {
        named + "  // "@ + summary
    } else {
        named
    }
}

/// `v` without leading and trailing double quotes.
fn trim_quotes_vec(v: &Vec<char>) -> (r: Vec<char>)
    ensures
        r@ == trim_quotes(v@),
{
    let n = v.len();
    let mut a: usize = 0;
    assert(v@.subrange(0, n as int) =~= v@);
    while a < n && v[a] == '"'
        invariant
            a <= n == v@.len(),
            strip_quotes_start(v@) == strip_quotes_start(v@.subrange(a as int, n as int)),
        decreases n - a,
    {
        assert(v@.subrange(a as int, n as int).drop_first() =~= v@.subrange(a + 1, n as int));
        a = a + 1;
    }
    assert(strip_quotes_start(v@) == v@.subrange(a as int, n as int));
    let mut b: usize = n;
    while b > a && v[b - 1] == '"'
        invariant
            a <= b <= n == v@.len(),
            trim_quotes(v@) == strip_quotes_end(v@.subrange(a as int, b as int)),
        decreases b - a,
    {
        assert(v@.subrange(a as int, b as int).drop_last() =~= v@.subrange(a as int, b - 1));
        b = b - 1;
    }
    sub_vec(v, a, b)
}

/// Renders one symbol as a single line.
pub fn format_single_symbol(symbol: &SymbolDetails, include_docstring: bool) -> (r: String)
    ensures
        r@ == symbol_line(*symbol, include_docstring),
{
    let kind_chars = chars_of(symbol.kind.as_str());
    let kind = string_of_all(&trim_quotes_vec(&kind_chars));
    let mut r = String::new();
    r.append(symbol.file_path.as_str());
    r.append(" :: ");
    r.append(kind.as_str());
    match &symbol.signature {
        Some(sig) => {
            r.append(" ");
            r.append(symbol.name.as_str());
            r.append("(");
            r.append(sig.as_str());
            r.append(")");
        },
        None => {
            r.append(" ");
            r.append(symbol.name.as_str());
        },
    }
    let ghost named = r@;
    if include_docstring {
        match &symbol.docstring {
            Some(d) => {
                let dv = chars_of(d.as_str());
                let newline = vec!['\n'];
                assert(newline@ =~= seq!['\n']);
                let first = before_first_vec(&dv, &newline);
                let summary = trim_vec(&first);
                if summary.len() > 0 {
                    r.append("  // ");
                    r.append(string_of_all(&summary).as_str());
                }
            },
            None => {},
        }
    }
    assert(r@ =~= symbol_line(*symbol, include_docstring));
    r
}

/// Rendering order of symbols: by file path, then by start line.
pub open spec fn symbol_before(a: SymbolDetails, b: SymbolDetails) -> bool {
    lex_lt(a.file_path@, b.file_path@) || (a.file_path@ == b.file_path@ && a.start_line < b.start_line)
}

/// Where position `x` goes among the ordered positions `t`: before the
/// first symbol that it precedes.
pub open spec fn order_insert_pos(s: Seq<SymbolDetails>, t: Seq<int>, x: int) -> int
    decreases t.len(),
{
    if t.len() == 0 {
        0
    } else if symbol_before(s[x], s[t[0]]) {
        0
    } else {
        1 + order_insert_pos(s, t.drop_first(), x)
    }
}

/// The positions `0..n` of `s` in rendering order; symbols of one file on
/// one start line keep their input order.
pub open spec fn render_order(s: Seq<SymbolDetails>, n: nat) -> Seq<int>
    decreases n,
{
    if n == 0 {
        seq![]
    } else {
        let t = render_order(s, (n - 1) as nat);
        t.insert(order_insert_pos(s, t, n - 1), n - 1)
    }
}

/// The symbol lines of the positions in `order`, each ended by a newline.
pub open spec fn symbol_block(s: Seq<SymbolDetails>, order: Seq<int>, include_docstrings: bool) -> Seq<char>
    decreases order.len(),
{
    if order.len() == 0 {
        seq![]
    } else {
        symbol_block(s, order.drop_last(), include_docstrings) + symbol_line(s[order.last()], include_docstrings)
            + seq!['\n']
    }
}

/// The line of a call edge between two rendered symbols,
/// `<caller> -calls→ <callee>`; none for another kind of edge or for an
/// endpoint that is blank or not among the symbols.
pub open spec fn call_line(s: Seq<SymbolDetails>, e: EdgeDetails) -> Option<Seq<char>> {
    if e.edge_type@ == "CALLS"@ && trim(e.from_id@).len() > 0 && trim(e.to_id@).len() > 0 {
        match (lookup(symbol_ids(s), e.from_id@), lookup(symbol_ids(s), e.to_id@)) {
            (Some(i), Some(j)) => Some(s[i].name@ + " -calls→ "@ + s[j].name@),
            _ => None,
        }
    } else {
        None
    }
}

/// The call lines of the edges, in edge order.
pub open spec fn call_lines(s: Seq<SymbolDetails>, es: Seq<EdgeDetails>) -> Seq<Seq<char>>
    decreases es.len(),
{
    if es.len() == 0 {
        seq![]
    } else {
        let prev = call_lines(s, es.drop_last());
        match call_line(s, es.last()) {
            Some(l) => prev.push(l),
            None => prev,
        }
    }
}

/// Where `x` goes in `t`: before the first text that it precedes.
pub open spec fn text_insert_pos(t: Seq<Seq<char>>, x: Seq<char>) -> int
    decreases t.len(),
{
    if t.len() == 0 {
        0
    } else if lex_lt(x, t[0]) {
        0
    } else {
        1 + text_insert_pos(t.drop_first(), x)
    }
}

/// The texts in lexicographic order.
pub open spec fn sort_texts(s: Seq<Seq<char>>) -> Seq<Seq<char>>
    decreases s.len(),
{
    if s.len() == 0 {
        seq![]
    } else {
        let t = sort_texts(s.drop_last());
        t.insert(text_insert_pos(t, s.last()), s.last())
    }
}

/// The lines, each ended by a newline.
pub open spec fn lines_block(ls: Seq<Seq<char>>) -> Seq<char>
    decreases ls.len(),
{
    if ls.len() == 0 {
        seq![]
    } else {
        lines_block(ls.drop_last()) + ls.last() + seq!['\n']
    }
}

/// The rendered text of a subgraph: the symbol lines in rendering order,
/// then the call lines in lexicographic order.
pub open spec fn rendered_text(s: Seq<SymbolDetails>, es: Seq<EdgeDetails>, include_docstrings: bool) -> Seq<char> {
    symbol_block(s, render_order(s, s.len()), include_docstrings) + lines_block(sort_texts(call_lines(s, es)))
}

proof fn lemma_order_insert_pos(s: Seq<SymbolDetails>, t: Seq<int>, x: int)
    ensures
        0 <= order_insert_pos(s, t, x) <= t.len(),
    decreases t.len(),
{
    if t.len() > 0 && !symbol_before(s[x], s[t[0]]) {
        lemma_order_insert_pos(s, t.drop_first(), x);
    }
}

proof fn lemma_render_order_range(s: Seq<SymbolDetails>, n: nat)
    ensures
        render_order(s, n).len() == n,
        forall|k: int| 0 <= k < n ==> 0 <= #[trigger] render_order(s, n)[k] < n,
    decreases n,
{
    if n > 0 {
        let t = render_order(s, (n - 1) as nat);
        lemma_render_order_range(s, (n - 1) as nat);
        lemma_order_insert_pos(s, t, n - 1);
        let pos = order_insert_pos(s, t, n - 1);
        assert forall|k: int| 0 <= k < n implies 0 <= #[trigger] render_order(s, n)[k] < n by {
            if k < pos {
                assert(render_order(s, n)[k] == t[k]);
            } else if k > pos {
                assert(render_order(s, n)[k] == t[k - 1]);
            }
        }
    }
}

proof fn lemma_text_insert_pos(t: Seq<Seq<char>>, x: Seq<char>)
    ensures
        0 <= text_insert_pos(t, x) <= t.len(),
    decreases t.len(),
{
    if t.len() > 0 && !lex_lt(x, t[0]) {
        lemma_text_insert_pos(t.drop_first(), x);
    }
}

proof fn lemma_text_insert_pos_bound(t: Seq<Seq<char>>, x: Seq<char>)
    ensures
        forall|k: int| 0 <= k < text_insert_pos(t, x) ==> !lex_lt(x, #[trigger] t[k]),
        text_insert_pos(t, x) < t.len() ==> lex_lt(x, t[text_insert_pos(t, x)]),
    decreases t.len(),
{
    lemma_text_insert_pos(t, x);
    if t.len() > 0 && !lex_lt(x, t[0]) {
        lemma_text_insert_pos_bound(t.drop_first(), x);
        assert forall|k: int| 0 <= k < text_insert_pos(t, x) implies !lex_lt(x, #[trigger] t[k]) by {
            if k > 0 {
                assert(t[k] == t.drop_first()[k - 1]);
            }
        }
        lemma_text_insert_pos(t.drop_first(), x);
        let p = text_insert_pos(t.drop_first(), x);
        if p < t.drop_first().len() {
            assert(t[p + 1] == t.drop_first()[p]);
        }
    }
}

/// The call lines come out in lexicographic order, each line of the edges
/// exactly as often as the edges give it.
pub proof fn call_lines_are_sorted(s: Seq<Seq<char>>)
    ensures
        forall|i: int, j: int| 0 <= i < j < sort_texts(s).len() ==> !lex_lt(#[trigger] sort_texts(s)[j], #[trigger] sort_texts(s)[i]),
        sort_texts(s).to_multiset() == s.to_multiset(),
    decreases s.len(),
{
    if s.len() > 0 {
        let t = sort_texts(s.drop_last());
        let x = s.last();
        call_lines_are_sorted(s.drop_last());
        lemma_text_insert_pos(t, x);
        lemma_text_insert_pos_bound(t, x);
        let pos = text_insert_pos(t, x);
        let u = t.insert(pos, x);
        assert(u == sort_texts(s));
        assert forall|i: int, j: int| 0 <= i < j < u.len() implies !lex_lt(#[trigger] u[j], #[trigger] u[i]) by {
            if j < pos {
                assert(u[i] == t[i] && u[j] == t[j]);
            } else if j == pos {
                assert(u[i] == t[i]);
                assert(u[j] == x);
            } else if i < pos {
                assert(u[i] == t[i] && u[j] == t[j - 1]);
            } else if i == pos {
                assert(u[i] == x);
                assert(u[j] == t[j - 1]);
                if lex_lt(t[j - 1], x) {
                    lemma_lex_transitive(t[j - 1], x, t[pos]);
                    if pos == j - 1 {
                        lemma_lex_irreflexive(t[pos]);
                    }
                }
            } else {
                assert(u[i] == t[i - 1] && u[j] == t[j - 1]);
            }
        }
        vstd::seq_lib::to_multiset_insert(t, pos, x);
        vstd::seq_lib::to_multiset_build(s.drop_last(), x);
        assert(s.drop_last().push(x) =~= s);
    } else {
        assert(s =~= sort_texts(s));
    }
}

proof fn lemma_symbol_before_order(x: SymbolDetails, y: SymbolDetails, z: SymbolDetails)
    ensures
        !symbol_before(x, x),
        symbol_before(x, y) && symbol_before(y, z) ==> symbol_before(x, z),
{
    lemma_lex_irreflexive(x.file_path@);
    if symbol_before(x, y) && symbol_before(y, z) {
        if lex_lt(x.file_path@, y.file_path@) && lex_lt(y.file_path@, z.file_path@) {
            lemma_lex_transitive(x.file_path@, y.file_path@, z.file_path@);
        }
    }
}

proof fn lemma_order_insert_pos_bound(s: Seq<SymbolDetails>, t: Seq<int>, x: int)
    ensures
        forall|k: int| 0 <= k < order_insert_pos(s, t, x) ==> !symbol_before(s[x], s[#[trigger] t[k]]),
        order_insert_pos(s, t, x) < t.len() ==> symbol_before(s[x], s[t[order_insert_pos(s, t, x)]]),
    decreases t.len(),
{
    lemma_order_insert_pos(s, t, x);
    if t.len() > 0 && !symbol_before(s[x], s[t[0]]) {
        lemma_order_insert_pos_bound(s, t.drop_first(), x);
        lemma_order_insert_pos(s, t.drop_first(), x);
        assert forall|k: int| 0 <= k < order_insert_pos(s, t, x) implies !symbol_before(s[x], s[#[trigger] t[k]]) by {
            if k > 0 {
                assert(t[k] == t.drop_first()[k - 1]);
            }
        }
        let p = order_insert_pos(s, t.drop_first(), x);
        if p < t.drop_first().len() {
            assert(t[p + 1] == t.drop_first()[p]);
        }
    }
}

/// Symbols are rendered grouped by file, files in path order and the
/// symbols of a file by start line; every symbol is rendered exactly once.
pub proof fn symbols_render_in_file_order(s: Seq<SymbolDetails>, n: nat)
    ensures
        forall|i: int, j: int|
            0 <= i < j < n ==> !symbol_before(s[#[trigger] render_order(s, n)[j]], s[#[trigger] render_order(s, n)[i]]),
        render_order(s, n).to_multiset() == Seq::new(n, |k: int| k).to_multiset(),
    decreases n,
{
    lemma_render_order_range(s, n);
    if n > 0 {
        let t = render_order(s, (n - 1) as nat);
        let x = n - 1;
        symbols_render_in_file_order(s, (n - 1) as nat);
        lemma_order_insert_pos(s, t, x);
        lemma_order_insert_pos_bound(s, t, x);
        let pos = order_insert_pos(s, t, x);
        let u = t.insert(pos, x);
        assert(u == render_order(s, n));
        assert forall|i: int, j: int| 0 <= i < j < n implies !symbol_before(s[#[trigger] u[j]], s[#[trigger] u[i]]) by {
            if j < pos {
                assert(u[i] == t[i] && u[j] == t[j]);
            } else if j == pos {
                assert(u[i] == t[i]);
                assert(u[j] == x);
            } else if i < pos {
                assert(u[i] == t[i] && u[j] == t[j - 1]);
            } else if i == pos {
                assert(u[i] == x);
                assert(u[j] == t[j - 1]);
                if symbol_before(s[t[j - 1]], s[x]) {
                    lemma_symbol_before_order(s[t[j - 1]], s[x], s[t[pos]]);
                    lemma_symbol_before_order(s[t[pos]], s[t[pos]], s[t[pos]]);
                }
            } else {
                assert(u[i] == t[i - 1] && u[j] == t[j - 1]);
            }
        }
        vstd::seq_lib::to_multiset_insert(t, pos, x);
        let r = Seq::new(n, |k: int| k);
        vstd::seq_lib::to_multiset_build(r.drop_last(), x);
        assert(r.drop_last() =~= Seq::new((n - 1) as nat, |k: int| k));
        assert(r.drop_last().push(x) =~= r);
    } else {
        assert(Seq::new(n, |k: int| k) =~= Seq::<int>::empty());
    }
}

/// Decides rendering order between two symbols.
fn symbol_precedes(a: &SymbolDetails, b: &SymbolDetails) -> (r: bool)
    ensures
        r == symbol_before(*a, *b),
{
    let ap = chars_of(a.file_path.as_str());
    let bp = chars_of(b.file_path.as_str());
    if lex_less(&ap, &bp) {
        true
    } else {
        a.file_path == b.file_path && a.start_line < b.start_line
    }
}

/// Position of the symbol with identifier `id`.
pub(crate) fn find_details(s: &Vec<SymbolDetails>, id: &String) -> (r: Option<usize>)
    ensures
        match r {
            Some(i) => lookup(symbol_ids(s@), id@) == Some(i as int),
            None => lookup(symbol_ids(s@), id@) is None,
        },
{
    let ghost ids = symbol_ids(s@);
    let mut i: usize = 0;
    while i < s.len()
        invariant
            i <= s@.len(),
            ids == symbol_ids(s@),
            lookup(ids.take(i as int), id@) is None,
        decreases s@.len() - i,
    {
        assert(ids.take(i + 1).drop_last() =~= ids.take(i as int));
        if s[i].symbol_id == *id {
            proof {
                lemma_lookup_prefix(ids, i + 1, id@);
            }
            return Some(i);
        }
        i = i + 1;
    }
    assert(ids.take(s@.len() as int) =~= ids);
    None
}

proof fn lemma_lookup_prefix(ids: Seq<Seq<char>>, k: int, x: Seq<char>)
    requires
        0 <= k <= ids.len(),
        lookup(ids.take(k), x) is Some,
    ensures
        lookup(ids, x) == lookup(ids.take(k), x),
    decreases ids.len() - k,
{
    if k < ids.len() {
        assert(ids.take(k + 1).drop_last() =~= ids.take(k));
        lemma_lookup_prefix(ids, k + 1, x);
    } else {
        assert(ids.take(k) =~= ids);
    }
}

/// The call line of one edge, when it has one.
fn edge_line(s: &Vec<SymbolDetails>, e: &EdgeDetails) -> (r: Option<String>)
    ensures
        match r {
            Some(l) => call_line(s@, *e) == Some(l@),
            None => call_line(s@, *e) is None,
        },
{
    if !same_text(e.edge_type.as_str(), "CALLS") || is_blank(e.from_id.as_str()) || is_blank(e.to_id.as_str()) {
        return None;
    }
    match (find_details(s, &e.from_id), find_details(s, &e.to_id)) {
        (Some(i), Some(j)) => {
            proof {
                lemma_lookup_bounds(symbol_ids(s@), e.from_id@);
                lemma_lookup_bounds(symbol_ids(s@), e.to_id@);
            }
            let mut l = String::new();
            l.append(s[i].name.as_str());
            l.append(" -calls→ ");
            l.append(s[j].name.as_str());
            assert(l@ =~= s@[i as int].name@ + " -calls→ "@ + s@[j as int].name@);
            Some(l)
        },
        _ => None,
    }
}

/// Renders a subgraph as text: one line per symbol, files in path order and
/// symbols of a file by start line, then one `<caller> -calls→ <callee>`
/// line per call edge between two of the symbols, in alphabetical order.
/// Every line ends with a newline.
pub fn render_subgraph_text(symbols: &Vec<SymbolDetails>, edges: &Vec<EdgeDetails>, include_docstrings: bool) -> (r: String)
    ensures
        r@ == rendered_text(symbols@, edges@, include_docstrings),
{
    let ghost s = symbols@;
    let n = symbols.len();
    let mut order: Vec<usize> = Vec::new();
    let mut i: usize = 0;
    while i < n
        invariant
            i <= n == s.len(),
            s == symbols@,
            order@.map_values(|x: usize| x as int) == render_order(s, i as nat),
        decreases n - i,
    {
        let ghost t = render_order(s, i as nat);
        proof {
            lemma_render_order_range(s, i as nat);
        }
        let mut j: usize = 0;
        let mut done = false;
        assert(t.skip(0) =~= t);
        while !done && j < order.len()
            invariant
                i < n == s.len(),
                s == symbols@,
                j <= order@.len() == t.len() == i,
                t == order@.map_values(|x: usize| x as int),
                forall|k: int| 0 <= k < i ==> 0 <= #[trigger] t[k] < i,
                order_insert_pos(s, t, i as int) == j + order_insert_pos(s, t.skip(j as int), i as int),
                done ==> order_insert_pos(s, t.skip(j as int), i as int) == 0,
            decreases order@.len() - j + (if done { 0int } else { 1int }),
        {
            assert(t.skip(j as int)[0] == t[j as int]);
            assert(t[j as int] == order@[j as int] as int);
            if symbol_precedes(&symbols[i], &symbols[order[j]]) {
                done = true;
            } else {
                assert(t.skip(j as int).drop_first() =~= t.skip(j + 1));
                j = j + 1;
            }
        }
        proof {
            if !done {
                assert(t.skip(j as int) =~= Seq::<int>::empty());
            }
        }
        order.insert(j, i);
        assert(order@.map_values(|x: usize| x as int) =~= t.insert(j as int, i as int));
        i = i + 1;
    }
    let ghost ov = order@.map_values(|x: usize| x as int);
    proof {
        lemma_render_order_range(s, n as nat);
    }
    let mut r = String::new();
    let mut k: usize = 0;
    assert(ov.take(0) =~= Seq::<int>::empty());
    while k < n
        invariant
            k <= n == s.len() == ov.len() == order@.len(),
            s == symbols@,
            ov == order@.map_values(|x: usize| x as int),
            forall|q: int| 0 <= q < n ==> 0 <= #[trigger] ov[q] < n,
            r@ == symbol_block(s, ov.take(k as int), include_docstrings),
        decreases n - k,
    {
        assert(ov[k as int] == order@[k as int] as int);
        let line = format_single_symbol(&symbols[order[k]], include_docstrings);
        r.append(line.as_str());
        push_char(&mut r, '\n');
        assert(ov.take(k + 1).drop_last() =~= ov.take(k as int));
        k = k + 1;
    }
    assert(ov.take(n as int) =~= ov);
    let ghost head = r@;
    let mut sorted: Vec<String> = Vec::new();
    let mut e: usize = 0;
    while e < edges.len()
        invariant
            e <= edges@.len(),
            s == symbols@,
            strings_view(sorted@) == sort_texts(call_lines(s, edges@.take(e as int))),
        decreases edges@.len() - e,
    {
        assert(edges@.take(e + 1).drop_last() =~= edges@.take(e as int));
        assert(edges@.take(e + 1).last() == edges@[e as int]);
        let ghost prev = call_lines(s, edges@.take(e as int));
        match edge_line(symbols, &edges[e]) {
            Some(l) => {
                let ghost t = strings_view(sorted@);
                let lv = chars_of(l.as_str());
                let mut j: usize = 0;
                let mut done = false;
                assert(t.skip(0) =~= t);
                while !done && j < sorted.len()
                    invariant
                        j <= sorted@.len(),
                        t == strings_view(sorted@),
                        lv@ == l@,
                        text_insert_pos(t, l@) == j + text_insert_pos(t.skip(j as int), l@),
                        done ==> text_insert_pos(t.skip(j as int), l@) == 0,
                    decreases sorted@.len() - j + (if done { 0int } else { 1int }),
                {
                    assert(t.skip(j as int)[0] == t[j as int]);
                    let other = chars_of(sorted[j].as_str());
                    if lex_less(&lv, &other) {
                        done = true;
                    } else {
                        assert(t.skip(j as int).drop_first() =~= t.skip(j + 1));
                        j = j + 1;
                    }
                }
                proof {
                    if !done {
                        assert(t.skip(j as int) =~= Seq::<Seq<char>>::empty());
                    }
                }
                sorted.insert(j, l);
                assert(strings_view(sorted@) =~= t.insert(j as int, lv@));
                assert(prev.push(lv@).drop_last() =~= prev);
            },
            None => {},
        }
        e = e + 1;
    }
    assert(edges@.take(edges@.len() as int) =~= edges@);
    let ghost lines = strings_view(sorted@);
    let mut q: usize = 0;
    assert(lines.take(0) =~= Seq::<Seq<char>>::empty());
    while q < sorted.len()
        invariant
            q <= sorted@.len(),
            lines == strings_view(sorted@),
            r@ == head + lines_block(lines.take(q as int)),
        decreases sorted@.len() - q,
    {
        r.append(sorted[q].as_str());
        push_char(&mut r, '\n');
        assert(lines.take(q + 1).drop_last() =~= lines.take(q as int));
        assert(r@ =~= head + lines_block(lines.take(q + 1)));
        q = q + 1;
    }
    assert(lines.take(sorted@.len() as int) =~= lines);
    r
}

} // verus!

//! The edges of the code graph as a full rebuild derives them from the
//! index: a call edge for every resolved call, import edges from a file
//! to the file a module path names and to the symbols it imports,
//! implementation edges from `impl Trait for Type` blocks, and test edges
//! from `test_x` to `x`.

use vstd::prelude::*;
use crate::text::{ascii_lower, to_ascii_lower, chars_of, push_char, string_of, has_prefix};
use crate::diff::strings_view;
use crate::indexing::opt_view;
use crate::prompting::{impl_relation, impl_relation_spec};

verus! {

/// Whether pattern character `pc` matches text character `c` in an SQL
/// `LIKE`: `_` matches any character, others match ignoring ASCII case.
pub open spec fn like_char(pc: char, c: char) -> bool {
    pc == '_' || ascii_lower(pc) == ascii_lower(c)
}

/// SQL `LIKE` without an escape character: `%` matches any run of
/// characters, `_` any one character, and other characters match
/// themselves, ASCII letters ignoring case.
pub open spec fn like(p: Seq<char>, s: Seq<char>) -> bool
    decreases p.len() + s.len(),
{
    if p.len() == 0 {
        s.len() == 0
    } else if p[0] == '%' {
        like(p.skip(1), s) || (s.len() > 0 && like(p, s.skip(1)))
    } else {
        s.len() > 0 && like_char(p[0], s[0]) && like(p.skip(1), s.skip(1))
    }
}

fn like_from(p: &Vec<char>, i: usize, s: &Vec<char>, j: usize) -> (r: bool)
    requires
        i <= p@.len(),
        j <= s@.len(),
    ensures
        r == like(p@.skip(i as int), s@.skip(j as int)),
    decreases p@.len() - i + s@.len() - j,
{
    let ghost ps = p@.skip(i as int);
    let ghost ss = s@.skip(j as int);
    if i == p.len() {
        assert(ps.len() == 0);
        return j == s.len();
    }
    assert(ps[0] == p@[i as int]);
    assert(ps.skip(1) =~= p@.skip(i + 1));
    if j < s.len() {
        assert(ss[0] == s@[j as int]);
        assert(ss.skip(1) =~= s@.skip(j + 1));
    }
    if p[i] == '%' {
        if like_from(p, i + 1, s, j) {
            return true;
        }
        if j < s.len() {
            return like_from(p, i, s, j + 1);
        }
        return false;
    }
    if j < s.len() && (p[i] == '_' || to_ascii_lower(p[i]) == to_ascii_lower(s[j])) {
        like_from(p, i + 1, s, j + 1)
    } else {
        false
    }
}

/// Whether `s` matches the `LIKE` pattern `p`.
pub fn like_match(p: &str, s: &str) -> (r: bool)
    ensures
        r == like(p@, s@),
{
    let pv = chars_of(p);
    let sv = chars_of(s);
    assert(pv@.skip(0) =~= pv@);
    assert(sv@.skip(0) =~= sv@);
    like_from(&pv, 0, &sv, 0)
}


/// A symbol as the edge rebuild reads it from the index.
pub struct IndexedSymbol {
    pub id: String,
    pub name: String,
    pub kind: String,
    pub signature: Option<String>,
    pub file_id: String,
}

/// An import the index recorded for a file: the importing file, the
/// module path and the names imported from it.
pub struct ImportRow {
    pub file_id: String,
    pub module: String,
    pub imported_names: Vec<String>,
}

/// A typed edge of the graph.
pub struct EdgeRow {
    pub from_id: String,
    pub to_id: String,
    pub edge_type: String,
}

/// The list of strings that `text` holds as a JSON array of strings, or
/// none when it holds no such array.
pub uninterp spec fn json_string_list(text: Seq<char>) -> Option<Seq<Seq<char>>>;

/// Decodes a JSON array of strings with `serde_json::from_str`; the result
/// is a function of the text alone, named `json_string_list`.
#[verifier::external_body]
fn parse_string_list(text: &str) -> (r: Option<Vec<String>>)
    ensures
        match r {
            Some(v) => json_string_list(text@) == Some(strings_view(v@)),
            None => json_string_list(text@) is None,
        },
{
    serde_json::from_str::<Vec<String>>(text).ok()
}

/// The imported names a stored JSON list gives; none when it is not a
/// JSON array of strings.
pub open spec fn stored_names(text: Seq<char>) -> Seq<Seq<char>> {
    match json_string_list(text) {
        Some(v) => v,
        None => seq![],
    }
}

impl ImportRow {
    /// An import row from the index, whose imported names are stored as a
    /// JSON array of strings; a list that does not decode imports no names.
    pub fn from_stored(file_id: String, module: String, imported_names_json: &str) -> (r: ImportRow)
        ensures
            r.file_id@ == file_id@,
            r.module@ == module@,
            strings_view(r.imported_names@) == stored_names(imported_names_json@),
    {
        let imported_names = match parse_string_list(imported_names_json) {
            Some(v) => v,
            None => {
                let v: Vec<String> = Vec::new();
                assert(strings_view(v@) =~= Seq::<Seq<char>>::empty());
                v
            },
        };
        ImportRow { file_id, module, imported_names }
    }
}

/// Whether a symbol has the name `name`, lies in the file `file` when one
/// is given, and has the kind `kind` when one is given.
pub open spec fn sym_matches(s: IndexedSymbol, name: Seq<char>, file: Option<Seq<char>>, kind: Option<Seq<char>>) -> bool {
    &&& s.name@ == name
    &&& match file {
        Some(f) => s.file_id@ == f,
        None => true,
    }
    &&& match kind {
        Some(k) => s.kind@ == k,
        None => true,
    }
}

/// The identifier of the first symbol that matches.
pub open spec fn first_symbol(syms: Seq<IndexedSymbol>, name: Seq<char>, file: Option<Seq<char>>, kind: Option<Seq<char>>) -> Option<Seq<char>>
    decreases syms.len(),
{
    if syms.len() == 0 {
        None
    } else {
        match first_symbol(syms.drop_last(), name, file, kind) {
            Some(x) => Some(x),
            None => if sym_matches(syms.last(), name, file, kind) {
                Some(syms.last().id@)
            } else {
                None
            },
        }
    }
}

fn find_symbol(syms: &Vec<IndexedSymbol>, name: &String, file: &Option<String>, kind: &Option<String>) -> (r: Option<String>)
    ensures
        opt_view(r) == first_symbol(syms@, name@, opt_view(*file), opt_view(*kind)),
{
    let mut found: Option<String> = None;
    let mut i: usize = 0;
    assert(syms@.take(0) =~= Seq::<IndexedSymbol>::empty());
    while i < syms.len()
        invariant
            i <= syms@.len(),
            opt_view(found) == first_symbol(syms@.take(i as int), name@, opt_view(*file), opt_view(*kind)),
        decreases syms@.len() - i,
    {
        let s = &syms[i];
        assert(syms@.take(i + 1).drop_last() =~= syms@.take(i as int));
        assert(syms@.take(i + 1).last() == syms@[i as int]);
        if found.is_none() {
            let file_ok = match file {
                Some(f) => s.file_id == *f,
                None => true,
            };
            let kind_ok = match kind {
                Some(k) => s.kind == *k,
                None => true,
            };
            if s.name == *name && file_ok && kind_ok {
                found = Some(s.id.clone());
            }
        }
        i = i + 1;
    }
    assert(syms@.take(i as int) =~= syms@);
    found
}

/// A module path with its dots turned into path separators.
pub open spec fn module_to_path(m: Seq<char>) -> Seq<char> {
    m.map_values(|c: char| if c == '.' { '/' } else { c })
}

/// The `LIKE` pattern of a file in the module path `m` with extension
/// `ext`: any prefix, the path of the module, then the extension.
pub open spec fn module_file_pattern(m: Seq<char>, ext: Seq<char>) -> Seq<char> {
    seq!['%'] + module_to_path(m) + ext
}

/// The identifier of the first file whose path is that of a Rust or
/// Python file of the module path `m`.
pub open spec fn target_file(files: Seq<(String, String)>, m: Seq<char>) -> Option<Seq<char>>
    decreases files.len(),
{
    if files.len() == 0 {
        None
    } else {
        match target_file(files.drop_last(), m) {
            Some(x) => Some(x),
            None => {
                let path = files.last().1@;
                if like(module_file_pattern(m, seq!['.', 'r', 's']), path) || like(
                    module_file_pattern(m, seq!['.', 'p', 'y']),
                    path,
                ) {
                    Some(files.last().0@)
                } else {
                    None
                }
            },
        }
    }
}

fn file_pattern(m: &Vec<char>, e1: char, e2: char) -> (r: String)
    ensures
        r@ == module_file_pattern(m@, seq!['.', e1, e2]),
{
    let mut r = String::new();
    push_char(&mut r, '%');
    let mut i: usize = 0;
    while i < m.len()
        invariant
            i <= m@.len(),
            r@ == seq!['%'] + module_to_path(m@.take(i as int)),
        decreases m@.len() - i,
    {
        let c = m[i];
        push_char(&mut r, if c == '.' { '/' } else { c });
        assert(module_to_path(m@.take(i + 1)) =~= module_to_path(m@.take(i as int)).push(if c == '.' { '/' } else { c }));
        i = i + 1;
    }
    assert(m@.take(i as int) =~= m@);
    push_char(&mut r, '.');
    push_char(&mut r, e1);
    push_char(&mut r, e2);
    assert(r@ =~= module_file_pattern(m@, seq!['.', e1, e2]));
    r
}

fn find_target_file(files: &Vec<(String, String)>, module: &String) -> (r: Option<String>)
    ensures
        opt_view(r) == target_file(files@, module@),
{
    let m = chars_of(module.as_str());
    let rs = file_pattern(&m, 'r', 's');
    let py = file_pattern(&m, 'p', 'y');
    let mut found: Option<String> = None;
    let mut i: usize = 0;
    assert(files@.take(0) =~= Seq::<(String, String)>::empty());
    while i < files.len()
        invariant
            i <= files@.len(),
            rs@ == module_file_pattern(module@, seq!['.', 'r', 's']),
            py@ == module_file_pattern(module@, seq!['.', 'p', 'y']),
            opt_view(found) == target_file(files@.take(i as int), module@),
        decreases files@.len() - i,
    {
        assert(files@.take(i + 1).drop_last() =~= files@.take(i as int));
        assert(files@.take(i + 1).last() == files@[i as int]);
        if found.is_none() {
            let path = files[i].1.as_str();
            if like_match(rs.as_str(), path) || like_match(py.as_str(), path) {
                found = Some(files[i].0.clone());
            }
        }
        i = i + 1;
    }
    assert(files@.take(i as int) =~= files@);
    found
}


/// An edge as its source, target and type.
pub open spec fn edge_key(e: EdgeRow) -> (Seq<char>, Seq<char>, Seq<char>) {
    (e.from_id@, e.to_id@, e.edge_type@)
}

/// The edges of `es` as keys.
pub open spec fn edge_keys(es: Seq<EdgeRow>) -> Seq<(Seq<char>, Seq<char>, Seq<char>)> {
    es.map_values(|e: EdgeRow| edge_key(e))
}

/// A call edge for every resolved call, from caller to callee.
pub open spec fn call_keys(calls: Seq<(String, String)>) -> Seq<(Seq<char>, Seq<char>, Seq<char>)> {
    calls.map_values(|c: (String, String)| (c.0@, c.1@, "CALLS"@))
}

/// Import edges from the file `from` to the first symbol of the file
/// `fid` with each of `names`, in order.
pub open spec fn name_keys(from: Seq<char>, fid: Seq<char>, names: Seq<Seq<char>>, syms: Seq<IndexedSymbol>) -> Seq<(Seq<char>, Seq<char>, Seq<char>)>
    decreases names.len(),
{
    if names.len() == 0 {
        seq![]
    } else {
        let prev = name_keys(from, fid, names.drop_last(), syms);
        match first_symbol(syms, names.last(), Some(fid), None) {
            Some(sid) => prev.push((from, sid, "IMPORTS"@)),
            None => prev,
        }
    }
}

/// The import edges of one import: none when no file has the module's
/// path; else one from the importing file to that file, then one to each
/// imported name found in it.
pub open spec fn import_one(imp: ImportRow, files: Seq<(String, String)>, syms: Seq<IndexedSymbol>) -> Seq<(Seq<char>, Seq<char>, Seq<char>)> {
    match target_file(files, imp.module@) {
        Some(fid) => seq![(imp.file_id@, fid, "IMPORTS"@)] + name_keys(
            imp.file_id@,
            fid,
            strings_view(imp.imported_names@),
            syms,
        ),
        None => seq![],
    }
}

/// The import edges of all imports, in order.
pub open spec fn import_keys(imps: Seq<ImportRow>, files: Seq<(String, String)>, syms: Seq<IndexedSymbol>) -> Seq<(Seq<char>, Seq<char>, Seq<char>)>
    decreases imps.len(),
{
    if imps.len() == 0 {
        seq![]
    } else {
        import_keys(imps.drop_last(), files, syms) + import_one(imps.last(), files, syms)
    }
}

/// The implementation edges of one symbol: for an `Impl` symbol whose
/// signature reads `impl Trait for Type`, where a struct named `Type` and
/// a trait named `Trait` are found (the first of each), an edge from the
/// struct to the trait and one from the impl block to the struct.
pub open spec fn impl_one(s: IndexedSymbol, syms: Seq<IndexedSymbol>) -> Seq<(Seq<char>, Seq<char>, Seq<char>)> {
    if s.kind@ == "\"Impl\""@ {
        match s.signature {
            Some(sig) => match impl_relation_spec(sig@) {
                Some((t, st)) => match (
                    first_symbol(syms, st, None, Some("\"Struct\""@)),
                    first_symbol(syms, t, None, Some("\"Trait\""@)),
                ) {
                    (Some(sid), Some(tid)) => seq![(sid, tid, "IMPLEMENTS"@), (s.id@, sid, "IMPLEMENTS"@)],
                    _ => seq![],
                },
                None => seq![],
            },
            None => seq![],
        }
    } else {
        seq![]
    }
}

/// The implementation edges of the symbols `ss`, in order.
pub open spec fn impl_keys(ss: Seq<IndexedSymbol>, syms: Seq<IndexedSymbol>) -> Seq<(Seq<char>, Seq<char>, Seq<char>)>
    decreases ss.len(),
{
    if ss.len() == 0 {
        seq![]
    } else {
        impl_keys(ss.drop_last(), syms) + impl_one(ss.last(), syms)
    }
}

/// Identifiers of the indexed files.
pub open spec fn file_ids(files: Seq<(String, String)>) -> Seq<Seq<char>> {
    files.map_values(|f: (String, String)| f.0@)
}

/// The test edge of one symbol: a symbol of an indexed file named
/// `test_x` tests the first symbol named `x`, if any.
pub open spec fn test_one(s: IndexedSymbol, syms: Seq<IndexedSymbol>, files: Seq<(String, String)>) -> Seq<(Seq<char>, Seq<char>, Seq<char>)> {
    if has_prefix(s.name@, seq!['t', 'e', 's', 't', '_']) && file_ids(files).contains(s.file_id@) {
        match first_symbol(syms, s.name@.skip(5), None, None) {
            Some(t) => seq![(s.id@, t, "TESTS"@)],
            None => seq![],
        }
    } else {
        seq![]
    }
}

/// The test edges of the symbols `ss`, in order.
pub open spec fn test_keys(ss: Seq<IndexedSymbol>, syms: Seq<IndexedSymbol>, files: Seq<(String, String)>) -> Seq<(Seq<char>, Seq<char>, Seq<char>)>
    decreases ss.len(),
{
    if ss.len() == 0 {
        seq![]
    } else {
        test_keys(ss.drop_last(), syms, files) + test_one(ss.last(), syms, files)
    }
}

/// Every edge the rebuild derives, in the order it derives them (an edge
/// may be derived more than once).
pub open spec fn derived_keys(
    calls: Seq<(String, String)>,
    imports: Seq<ImportRow>,
    files: Seq<(String, String)>,
    syms: Seq<IndexedSymbol>,
) -> Seq<(Seq<char>, Seq<char>, Seq<char>)> {
    call_keys(calls) + import_keys(imports, files, syms) + impl_keys(syms, syms) + test_keys(syms, syms, files)
}

/// `es` holds each key of `acc` once and nothing else.
pub open spec fn covers(es: Seq<EdgeRow>, acc: Seq<(Seq<char>, Seq<char>, Seq<char>)>) -> bool {
    &&& edge_keys(es).no_duplicates()
    &&& forall|k: (Seq<char>, Seq<char>, Seq<char>)| #[trigger] edge_keys(es).contains(k) <==> acc.contains(k)
}

/// Adds an edge unless an equal one is already there.
fn add_edge(out: &mut Vec<EdgeRow>, from_id: String, to_id: String, edge_type: String, Ghost(acc): Ghost<Seq<(Seq<char>, Seq<char>, Seq<char>)>>)
    requires
        covers(old(out)@, acc),
    ensures
        covers(final(out)@, acc.push((from_id@, to_id@, edge_type@))),
{
    let ghost k = (from_id@, to_id@, edge_type@);
    let ghost before = edge_keys(out@);
    let mut i: usize = 0;
    while i < out.len()
        invariant
            i <= out@.len(),
            before == edge_keys(out@),
            k == (from_id@, to_id@, edge_type@),
            covers(out@, acc),
            forall|q: int| 0 <= q < i ==> before[q] != k,
        decreases out@.len() - i,
    {
        assert(before[i as int] == edge_key(out@[i as int]));
        if out[i].from_id == from_id && out[i].to_id == to_id && out[i].edge_type == edge_type {
            assert(before[i as int] == k);
            assert forall|x: (Seq<char>, Seq<char>, Seq<char>)| #[trigger] edge_keys(out@).contains(x) <==> acc.push(k).contains(x) by {
                if acc.push(k).contains(x) {
                    let q = choose|q: int| 0 <= q < acc.push(k).len() && acc.push(k)[q] == x;
                    if q < acc.len() {
                        assert(acc[q] == x);
                        assert(acc.contains(x));
                    } else {
                        assert(before.contains(x));
                    }
                }
                if edge_keys(out@).contains(x) {
                    assert(acc.contains(x));
                    let q = choose|q: int| 0 <= q < acc.len() && acc[q] == x;
                    assert(acc.push(k)[q] == x);
                }
            }
            return;
        }
        i = i + 1;
    }
    assert(!before.contains(k));
    out.push(EdgeRow { from_id, to_id, edge_type });
    assert(edge_keys(out@) =~= before.push(k));
    assert forall|a: int, b: int| 0 <= a < b < edge_keys(out@).len() implies edge_keys(out@)[a] != edge_keys(out@)[b] by {
        if b == before.len() {
            assert(before[a] == edge_keys(out@)[a]);
        } else {
            assert(before[a] == edge_keys(out@)[a] && before[b] == edge_keys(out@)[b]);
        }
    }
    assert forall|x: (Seq<char>, Seq<char>, Seq<char>)| #[trigger] edge_keys(out@).contains(x) <==> acc.push(k).contains(x) by {
        if acc.push(k).contains(x) {
            let q = choose|q: int| 0 <= q < acc.push(k).len() && acc.push(k)[q] == x;
            if q < acc.len() {
                assert(acc[q] == x);
                assert(acc.contains(x));
                assert(before.contains(x));
                let t = choose|t: int| 0 <= t < before.len() && before[t] == x;
                assert(edge_keys(out@)[t] == x);
            } else {
                assert(edge_keys(out@)[before.len() as int] == x);
            }
        }
        if edge_keys(out@).contains(x) {
            let t = choose|t: int| 0 <= t < edge_keys(out@).len() && edge_keys(out@)[t] == x;
            if t < before.len() {
                assert(before[t] == x);
                assert(before.contains(x));
                assert(acc.contains(x));
                let q = choose|q: int| 0 <= q < acc.len() && acc[q] == x;
                assert(acc.push(k)[q] == x);
            } else {
                assert(acc.push(k)[acc.len() as int] == x);
            }
        }
    }
}

fn add_call_edges(out: &mut Vec<EdgeRow>, calls: &Vec<(String, String)>, Ghost(acc0): Ghost<Seq<(Seq<char>, Seq<char>, Seq<char>)>>)
    requires
        covers(old(out)@, acc0),
    ensures
        covers(final(out)@, acc0 + call_keys(calls@)),
{
    let ghost mut acc = acc0;
    let mut i: usize = 0;
    assert(acc0 + call_keys(calls@.take(0)) =~= acc0);
    while i < calls.len()
        invariant
            i <= calls@.len(),
            acc == acc0 + call_keys(calls@.take(i as int)),
            covers(out@, acc),
        decreases calls@.len() - i,
    {
        let ghost k = (calls@[i as int].0@, calls@[i as int].1@, "CALLS"@);
        add_edge(out, calls[i].0.clone(), calls[i].1.clone(), String::from_str("CALLS"), Ghost(acc));
        proof {
            acc = acc.push(k);
        }
        assert(acc0 + call_keys(calls@.take(i + 1)) =~= (acc0 + call_keys(calls@.take(i as int))).push(k));
        i = i + 1;
    }
    assert(calls@.take(i as int) =~= calls@);
}

fn add_import_one(out: &mut Vec<EdgeRow>, imp: &ImportRow, files: &Vec<(String, String)>, syms: &Vec<IndexedSymbol>, Ghost(acc0): Ghost<Seq<(Seq<char>, Seq<char>, Seq<char>)>>)
    requires
        covers(old(out)@, acc0),
    ensures
        covers(final(out)@, acc0 + import_one(*imp, files@, syms@)),
{
    match find_target_file(files, &imp.module) {
        None => {
            assert(acc0 + import_one(*imp, files@, syms@) =~= acc0);
        },
        Some(fid) => {
            let ghost first = (imp.file_id@, fid@, "IMPORTS"@);
            add_edge(out, imp.file_id.clone(), fid.clone(), String::from_str("IMPORTS"), Ghost(acc0));
            let ghost base = acc0.push(first);
            let ghost names = strings_view(imp.imported_names@);
            let ghost mut acc = base;
            let file = Some(fid.clone());
            let mut j: usize = 0;
            assert(names.take(0) =~= Seq::<Seq<char>>::empty());
            assert(base + name_keys(imp.file_id@, fid@, names.take(0), syms@) =~= base);
            while j < imp.imported_names.len()
                invariant
                    j <= imp.imported_names@.len(),
                    names == strings_view(imp.imported_names@),
                    opt_view(file) == Some(fid@),
                    acc == base + name_keys(imp.file_id@, fid@, names.take(j as int), syms@),
                    covers(out@, acc),
                decreases imp.imported_names@.len() - j,
            {
                assert(names.take(j + 1).drop_last() =~= names.take(j as int));
                assert(names.take(j + 1).last() == imp.imported_names@[j as int]@);
                let none: Option<String> = None;
                match find_symbol(syms, &imp.imported_names[j], &file, &none) {
                    Some(sid) => {
                        let ghost k = (imp.file_id@, sid@, "IMPORTS"@);
                        add_edge(out, imp.file_id.clone(), sid, String::from_str("IMPORTS"), Ghost(acc));
                        proof {
                            acc = acc.push(k);
                        }
                        assert(base + name_keys(imp.file_id@, fid@, names.take(j + 1), syms@) =~= (base
                            + name_keys(imp.file_id@, fid@, names.take(j as int), syms@)).push(k));
                    },
                    None => {},
                }
                j = j + 1;
            }
            assert(names.take(j as int) =~= names);
            assert(acc0 + import_one(*imp, files@, syms@) =~= base + name_keys(imp.file_id@, fid@, names, syms@));
        },
    }
}

fn add_import_edges(out: &mut Vec<EdgeRow>, imports: &Vec<ImportRow>, files: &Vec<(String, String)>, syms: &Vec<IndexedSymbol>, Ghost(acc0): Ghost<Seq<(Seq<char>, Seq<char>, Seq<char>)>>)
    requires
        covers(old(out)@, acc0),
    ensures
        covers(final(out)@, acc0 + import_keys(imports@, files@, syms@)),
{
    let mut i: usize = 0;
    assert(imports@.take(0) =~= Seq::<ImportRow>::empty());
    assert(acc0 + import_keys(imports@.take(0), files@, syms@) =~= acc0);
    while i < imports.len()
        invariant
            i <= imports@.len(),
            covers(out@, acc0 + import_keys(imports@.take(i as int), files@, syms@)),
        decreases imports@.len() - i,
    {
        let ghost acc = acc0 + import_keys(imports@.take(i as int), files@, syms@);
        add_import_one(out, &imports[i], files, syms, Ghost(acc));
        assert(imports@.take(i + 1).drop_last() =~= imports@.take(i as int));
        assert(imports@.take(i + 1).last() == imports@[i as int]);
        assert(acc0 + import_keys(imports@.take(i + 1), files@, syms@) =~= acc + import_one(imports@[i as int], files@, syms@));
        i = i + 1;
    }
    assert(imports@.take(i as int) =~= imports@);
}

fn add_impl_one(out: &mut Vec<EdgeRow>, s: &IndexedSymbol, syms: &Vec<IndexedSymbol>, Ghost(acc0): Ghost<Seq<(Seq<char>, Seq<char>, Seq<char>)>>)
    requires
        covers(old(out)@, acc0),
    ensures
        covers(final(out)@, acc0 + impl_one(*s, syms@)),
{
    let impl_kind = String::from_str("\"Impl\"");
    if s.kind != impl_kind {
        assert(acc0 + impl_one(*s, syms@) =~= acc0);
        return;
    }
    let sig = match &s.signature {
        Some(sig) => sig,
        None => {
            assert(acc0 + impl_one(*s, syms@) =~= acc0);
            return;
        },
    };
    let (trait_name, struct_name) = match impl_relation(sig.as_str()) {
        Some(pair) => pair,
        None => {
            assert(acc0 + impl_one(*s, syms@) =~= acc0);
            return;
        },
    };
    let none: Option<String> = None;
    let struct_kind = Some(String::from_str("\"Struct\""));
    let trait_kind = Some(String::from_str("\"Trait\""));
    let struct_id = find_symbol(syms, &struct_name, &none, &struct_kind);
    let trait_id = find_symbol(syms, &trait_name, &none, &trait_kind);
    match (struct_id, trait_id) {
        (Some(sid), Some(tid)) => {
            let ghost k1 = (sid@, tid@, "IMPLEMENTS"@);
            let ghost k2 = (s.id@, sid@, "IMPLEMENTS"@);
            add_edge(out, sid.clone(), tid, String::from_str("IMPLEMENTS"), Ghost(acc0));
            add_edge(out, s.id.clone(), sid, String::from_str("IMPLEMENTS"), Ghost(acc0.push(k1)));
            assert(acc0 + impl_one(*s, syms@) =~= acc0.push(k1).push(k2));
        },
        _ => {
            assert(acc0 + impl_one(*s, syms@) =~= acc0);
        },
    }
}

fn add_impl_edges(out: &mut Vec<EdgeRow>, syms: &Vec<IndexedSymbol>, Ghost(acc0): Ghost<Seq<(Seq<char>, Seq<char>, Seq<char>)>>)
    requires
        covers(old(out)@, acc0),
    ensures
        covers(final(out)@, acc0 + impl_keys(syms@, syms@)),
{
    let mut i: usize = 0;
    assert(syms@.take(0) =~= Seq::<IndexedSymbol>::empty());
    assert(acc0 + impl_keys(syms@.take(0), syms@) =~= acc0);
    while i < syms.len()
        invariant
            i <= syms@.len(),
            covers(out@, acc0 + impl_keys(syms@.take(i as int), syms@)),
        decreases syms@.len() - i,
    {
        let ghost acc = acc0 + impl_keys(syms@.take(i as int), syms@);
        add_impl_one(out, &syms[i], syms, Ghost(acc));
        assert(syms@.take(i + 1).drop_last() =~= syms@.take(i as int));
        assert(syms@.take(i + 1).last() == syms@[i as int]);
        assert(acc0 + impl_keys(syms@.take(i + 1), syms@) =~= acc + impl_one(syms@[i as int], syms@));
        i = i + 1;
    }
    assert(syms@.take(i as int) =~= syms@);
}

fn is_file_id(files: &Vec<(String, String)>, id: &String) -> (r: bool)
    ensures
        r == file_ids(files@).contains(id@),
{
    let mut i: usize = 0;
    while i < files.len()
        invariant
            i <= files@.len(),
            forall|q: int| 0 <= q < i ==> files@[q].0@ != id@,
        decreases files@.len() - i,
    {
        if files[i].0 == *id {
            assert(file_ids(files@)[i as int] == id@);
            return true;
        }
        i = i + 1;
    }
    proof {
        if file_ids(files@).contains(id@) {
            let q = choose|q: int| 0 <= q < file_ids(files@).len() && #[trigger] file_ids(files@)[q] == id@;
            assert(files@[q].0@ == id@);
        }
    }
    false
}

fn add_test_one(out: &mut Vec<EdgeRow>, s: &IndexedSymbol, syms: &Vec<IndexedSymbol>, files: &Vec<(String, String)>, Ghost(acc0): Ghost<Seq<(Seq<char>, Seq<char>, Seq<char>)>>)
    requires
        covers(old(out)@, acc0),
    ensures
        covers(final(out)@, acc0 + test_one(*s, syms@, files@)),
{
    let v = chars_of(s.name.as_str());
    let ghost prefix = seq!['t', 'e', 's', 't', '_'];
    let is_test = v.len() >= 5 && v[0] == 't' && v[1] == 'e' && v[2] == 's' && v[3] == 't' && v[4] == '_';
    proof {
        if is_test {
            assert(v@.take(5) =~= prefix);
        } else if has_prefix(v@, prefix) {
            assert(v@.take(5)[0] == v@[0] && v@.take(5)[1] == v@[1] && v@.take(5)[2] == v@[2]);
            assert(v@.take(5)[3] == v@[3] && v@.take(5)[4] == v@[4]);
        }
    }
    if !is_test || !is_file_id(files, &s.file_id) {
        assert(acc0 + test_one(*s, syms@, files@) =~= acc0);
        return;
    }
    let target = string_of(&v, 5, v.len());
    assert(target@ =~= s.name@.skip(5));
    let none: Option<String> = None;
    match find_symbol(syms, &target, &none, &none) {
        Some(t) => {
            let ghost k = (s.id@, t@, "TESTS"@);
            add_edge(out, s.id.clone(), t, String::from_str("TESTS"), Ghost(acc0));
            assert(acc0 + test_one(*s, syms@, files@) =~= acc0.push(k));
        },
        None => {
            assert(acc0 + test_one(*s, syms@, files@) =~= acc0);
        },
    }
}

fn add_test_edges(out: &mut Vec<EdgeRow>, syms: &Vec<IndexedSymbol>, files: &Vec<(String, String)>, Ghost(acc0): Ghost<Seq<(Seq<char>, Seq<char>, Seq<char>)>>)
    requires
        covers(old(out)@, acc0),
    ensures
        covers(final(out)@, acc0 + test_keys(syms@, syms@, files@)),
{
    let mut i: usize = 0;
    assert(syms@.take(0) =~= Seq::<IndexedSymbol>::empty());
    assert(acc0 + test_keys(syms@.take(0), syms@, files@) =~= acc0);
    while i < syms.len()
        invariant
            i <= syms@.len(),
            covers(out@, acc0 + test_keys(syms@.take(i as int), syms@, files@)),
        decreases syms@.len() - i,
    {
        let ghost acc = acc0 + test_keys(syms@.take(i as int), syms@, files@);
        add_test_one(out, &syms[i], syms, files, Ghost(acc));
        assert(syms@.take(i + 1).drop_last() =~= syms@.take(i as int));
        assert(syms@.take(i + 1).last() == syms@[i as int]);
        assert(acc0 + test_keys(syms@.take(i + 1), syms@, files@) =~= acc + test_one(syms@[i as int], syms@, files@));
        i = i + 1;
    }
    assert(syms@.take(i as int) =~= syms@);
}

/// The edges a full rebuild of the graph writes, each once: a `CALLS`
/// edge for each resolved call; for each import whose module path names
/// an indexed Rust or Python file, an `IMPORTS` edge to that file and one
/// to each imported name declared in it; for each `impl Trait for Type`
/// block whose trait and struct are indexed, an `IMPLEMENTS` edge from the
/// struct to the trait and one from the block to the struct; and for each
/// symbol `test_x` of an indexed file, a `TESTS` edge to the symbol `x`.
/// Where several rows match a lookup, the first in the given order is
/// taken.
pub fn derive_edges(
    calls: &Vec<(String, String)>,
    imports: &Vec<ImportRow>,
    files: &Vec<(String, String)>,
    symbols: &Vec<IndexedSymbol>,
) -> (r: Vec<EdgeRow>)
    ensures
        edge_keys(r@).no_duplicates(),
        forall|k: (Seq<char>, Seq<char>, Seq<char>)|
            #[trigger] edge_keys(r@).contains(k) <==> derived_keys(calls@, imports@, files@, symbols@).contains(k),
{
    let mut out: Vec<EdgeRow> = Vec::new();
    let ghost a0: Seq<(Seq<char>, Seq<char>, Seq<char>)> = seq![];
    assert(edge_keys(out@) =~= a0);
    add_call_edges(&mut out, calls, Ghost(a0));
    let ghost a1 = a0 + call_keys(calls@);
    add_import_edges(&mut out, imports, files, symbols, Ghost(a1));
    let ghost a2 = a1 + import_keys(imports@, files@, symbols@);
    add_impl_edges(&mut out, symbols, Ghost(a2));
    let ghost a3 = a2 + impl_keys(symbols@, symbols@);
    add_test_edges(&mut out, symbols, files, Ghost(a3));
    assert(a3 + test_keys(symbols@, symbols@, files@) =~= derived_keys(calls@, imports@, files@, symbols@));
    out
}

} // verus!

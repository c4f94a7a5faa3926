//! Sacred-file policy and path arithmetic on `/`-separated paths: which
//! workspace-relative paths the sacred glob patterns protect, how pattern
//! files are read into pattern lists, lexical normalization of paths, and
//! whole-component containment in a project root.

use vstd::prelude::*;
use crate::diff::{opt_string_view, strings_view};
use crate::ident::CoreError;
use crate::text::{
    chars_of, has_prefix, has_suffix, line_ranges, lines_of, push_char, range_equals,
    range_has_prefix, range_has_suffix, ranges_cover, split_char, split_ranges, string_of,
    string_of_all, trim, trim_range,
};

verus! {

/// Built-in sacred patterns shipped with Yantra, always active.
pub open spec fn built_in_patterns() -> Seq<Seq<char>> {
    seq![
        "src/auth/**"@,
        "src/payments/**"@,
        "src/migrations/**"@,
        "src/crypto/**"@,
        "src/security/**"@,
        "configs/**"@,
        ".github/workflows/**"@,
        "**/Cargo.toml"@,
    ]
}

/// The built-in sacred patterns: auth, payments, migrations, crypto,
/// security, configs, CI workflows and every `Cargo.toml`.
pub fn built_in_sacred_patterns() -> (r: Vec<String>)
    ensures
        strings_view(r@) == built_in_patterns(),
{
    let r = vec![
        "src/auth/**".to_owned(),
        "src/payments/**".to_owned(),
        "src/migrations/**".to_owned(),
        "src/crypto/**".to_owned(),
        "src/security/**".to_owned(),
        "configs/**".to_owned(),
        ".github/workflows/**".to_owned(),
        "**/Cargo.toml".to_owned(),
    ];
    assert(strings_view(r@) =~= built_in_patterns());
    r
}

/// Whether a sacred glob pattern matches a workspace-relative path:
/// `dir/**` matches `dir` and everything below it, `**/name` matches `name`
/// at any depth, and any other pattern matches only itself.
pub open spec fn sacred_match_spec(pattern: Seq<char>, rel: Seq<char>) -> bool {
    if has_suffix(pattern, seq!['/', '*', '*']) {
        let dir = pattern.take(pattern.len() - 3);
        rel == dir || has_prefix(rel, dir.push('/'))
    } else if has_prefix(pattern, seq!['*', '*', '/']) {
        let suffix = pattern.skip(3);
        rel == suffix || has_suffix(rel, seq!['/'] + suffix)
    } else {
        pattern == rel
    }
}

/// A vector holding `v[lo..hi]` with `extra` added at the end.
fn chars_range_plus(v: &Vec<char>, lo: usize, hi: usize, extra: &Vec<char>) -> (r: Vec<char>)
    requires
        lo <= hi <= v@.len(),
    ensures
        r@ == v@.subrange(lo as int, hi as int) + extra@,
{
    let mut r: Vec<char> = Vec::new();
    let mut i = lo;
    while i < hi
        invariant
            lo <= i <= hi <= v@.len(),
            r@ == v@.subrange(lo as int, i as int),
        decreases hi - i,
    {
        r.push(v[i]);
        i = i + 1;
        assert(r@ =~= v@.subrange(lo as int, i as int));
    }
    let mut j: usize = 0;
    while j < extra.len()
        invariant
            j <= extra@.len(),
            r@ == v@.subrange(lo as int, hi as int) + extra@.take(j as int),
        decreases extra@.len() - j,
    {
        r.push(extra[j]);
        j = j + 1;
        assert(r@ =~= v@.subrange(lo as int, hi as int) + extra@.take(j as int));
    }
    assert(extra@.take(extra@.len() as int) =~= extra@);
    r
}

/// Whether `pattern` protects `relative_path`.
pub fn sacred_pattern_matches(pattern: &str, relative_path: &str) -> (r: bool)
    ensures
        r == sacred_match_spec(pattern@, relative_path@),
{
    let p = chars_of(pattern);
    let rel = chars_of(relative_path);
    let n = p.len();
    assert(p@.subrange(0, n as int) =~= p@);
    assert(rel@.subrange(0, rel@.len() as int) =~= rel@);
    let star_suffix = vec!['/', '*', '*'];
    let star_prefix = vec!['*', '*', '/'];
    assert(star_suffix@ =~= seq!['/', '*', '*']);
    assert(star_prefix@ =~= seq!['*', '*', '/']);
    if range_has_suffix(&p, 0, n, &star_suffix) {
        assert(p@.take(n - 3) =~= p@.subrange(0, n - 3));
        let dir = chars_range_plus(&p, 0, n - 3, &Vec::new());
        assert(dir@ =~= p@.take(n - 3));
        let slash = vec!['/'];
        let dir_slash = chars_range_plus(&p, 0, n - 3, &slash);
        assert(dir_slash@ =~= p@.take(n - 3).push('/'));
        range_equals(&rel, 0, rel.len(), &dir) || range_has_prefix(&rel, 0, rel.len(), &dir_slash)
    } else if range_has_prefix(&p, 0, n, &star_prefix) {
        assert(p@.skip(3) =~= p@.subrange(3, n as int));
        let suffix = chars_range_plus(&p, 3, n, &Vec::new());
        assert(suffix@ =~= p@.skip(3));
        let slash = vec!['/'];
        let slash_suffix = chars_range_plus(&slash, 0, 1, &suffix);
        assert(slash_suffix@ =~= seq!['/'] + p@.skip(3));
        range_equals(&rel, 0, rel.len(), &suffix) || range_has_suffix(&rel, 0, rel.len(), &slash_suffix)
    } else {
        range_equals(&rel, 0, rel.len(), &p)
    }
}

/// Whether some pattern protects the path.
pub open spec fn any_sacred_match(patterns: Seq<Seq<char>>, rel: Seq<char>) -> bool {
    exists|i: int| 0 <= i < patterns.len() && sacred_match_spec(#[trigger] patterns[i], rel)
}

/// Whether any of `patterns` protects `relative_path`.
pub fn matches_any_pattern(patterns: &Vec<String>, relative_path: &str) -> (r: bool)
    ensures
        r == any_sacred_match(strings_view(patterns@), relative_path@),
{
    let ghost ps = strings_view(patterns@);
    let mut i: usize = 0;
    while i < patterns.len()
        invariant
            i <= patterns@.len(),
            ps == strings_view(patterns@),
            forall|k: int| 0 <= k < i ==> !sacred_match_spec(#[trigger] ps[k], relative_path@),
        decreases patterns@.len() - i,
    {
        if sacred_pattern_matches(patterns[i].as_str(), relative_path) {
            assert(sacred_match_spec(ps[i as int], relative_path@));
            return true;
        }
        i = i + 1;
    }
    false
}

/// Pattern entries of a sacred file: each line trimmed; blank lines and
/// lines starting with `#` skipped.
pub open spec fn pattern_entries(ls: Seq<Seq<char>>) -> Seq<Seq<char>>
    decreases ls.len(),
{
    if ls.len() == 0 {
        seq![]
    } else {
        let t = trim(ls.last());
        let prev = pattern_entries(ls.drop_last());
        if t.len() > 0 && t[0] != '#' {
            prev.push(t)
        } else {
            prev
        }
    }
}

/// Appends the pattern entries of `text` to `patterns`.
pub fn extend_patterns_from_text(patterns: &mut Vec<String>, text: &str)
    ensures
        strings_view(final(patterns)@) == strings_view(old(patterns)@) + pattern_entries(
            lines_of(text@),
        ),
{
    let v = chars_of(text);
    let ranges = line_ranges(&v);
    let ghost ls = lines_of(v@);
    let ghost start = strings_view(patterns@);
    let mut i: usize = 0;
    assert(start + pattern_entries(ls.take(0)) =~= start);
    while i < ranges.len()
        invariant
            i <= ranges@.len(),
            ranges_cover(v@, ranges@, ls),
            ls == lines_of(v@),
            strings_view(patterns@) == start + pattern_entries(ls.take(i as int)),
        decreases ranges@.len() - i,
    {
        let (lo, hi) = ranges[i];
        assert(ls.take(i + 1).drop_last() =~= ls.take(i as int));
        assert(ls.take(i + 1).last() == v@.subrange(lo as int, hi as int));
        let (a, b) = trim_range(&v, lo, hi);
        if b > a && v[a] != '#' {
            let ghost before = strings_view(patterns@);
            patterns.push(string_of(&v, a, b));
            assert(strings_view(patterns@) =~= before.push(v@.subrange(a as int, b as int)));
            assert(v@.subrange(a as int, b as int)[0] == v@[a as int]);
            assert(start + pattern_entries(ls.take(i + 1)) =~= (start + pattern_entries(
                ls.take(i as int),
            )).push(v@.subrange(a as int, b as int)));
        } else {
            proof {
                if b > a {
                    assert(v@.subrange(a as int, b as int)[0] == v@[a as int]);
                }
            }
        }
        i = i + 1;
    }
    assert(ls.take(ranges@.len() as int) =~= ls);
}

/// `s` without consecutive repeats (`Vec::dedup`).
pub open spec fn dedup_spec(s: Seq<Seq<char>>) -> Seq<Seq<char>>
    decreases s.len(),
{
    if s.len() == 0 {
        seq![]
    } else {
        let d = dedup_spec(s.drop_last());
        if d.len() > 0 && d.last() == s.last() {
            d
        } else {
            d.push(s.last())
        }
    }
}

/// Removes consecutive repeated entries.
pub fn dedup_strings(items: Vec<String>) -> (r: Vec<String>)
    ensures
        strings_view(r@) == dedup_spec(strings_view(items@)),
{
    let ghost s = strings_view(items@);
    let mut r: Vec<String> = Vec::new();
    let mut i: usize = 0;
    assert(strings_view(r@) =~= dedup_spec(s.take(0)));
    while i < items.len()
        invariant
            i <= items@.len(),
            s == strings_view(items@),
            strings_view(r@) == dedup_spec(s.take(i as int)),
        decreases items@.len() - i,
    {
        assert(s.take(i + 1).drop_last() =~= s.take(i as int));
        assert(s.take(i + 1).last() == items@[i as int]@);
        let n = r.len();
        if n > 0 && r[n - 1] == items[i] {
        } else {
            let ghost before = strings_view(r@);
            r.push(items[i].clone());
            assert(strings_view(r@) =~= before.push(items@[i as int]@));
        }
        i = i + 1;
    }
    assert(s.take(s.len() as int) =~= s);
    r
}

/// No entry equals the one before it.
pub open spec fn no_adjacent_repeats(s: Seq<Seq<char>>) -> bool {
    forall|i: int| 0 < i < s.len() ==> #[trigger] s[i] != s[i - 1]
}

proof fn lemma_dedup_keeps_unrepeated(s: Seq<Seq<char>>)
    requires
        no_adjacent_repeats(s),
    ensures
        dedup_spec(s) == s,
    decreases s.len(),
{
    if s.len() > 0 {
        let t = s.drop_last();
        assert forall|i: int| 0 < i < t.len() implies #[trigger] t[i] != t[i - 1] by {
            assert(t[i] == s[i] && t[i - 1] == s[i - 1]);
        }
        lemma_dedup_keeps_unrepeated(t);
        if t.len() > 0 {
            assert(s[s.len() - 1] != s[s.len() - 2]);
        }
        assert(t.push(s.last()) =~= s);
    }
}

proof fn lemma_dedup_prefix(s: Seq<Seq<char>>, k: int)
    requires
        0 <= k <= s.len(),
        no_adjacent_repeats(s.take(k)),
    ensures
        k <= dedup_spec(s).len(),
        dedup_spec(s).take(k) == s.take(k),
    decreases s.len(),
{
    if s.len() == k {
        assert(s.take(k) =~= s);
        lemma_dedup_keeps_unrepeated(s);
    } else {
        let t = s.drop_last();
        assert(t.take(k) =~= s.take(k));
        lemma_dedup_prefix(t, k);
        let d = dedup_spec(t);
        if d.len() > 0 && d.last() == s.last() {
        } else {
            assert(d.push(s.last()).take(k) =~= d.take(k));
        }
    }
}

/// The built-in patterns stay in effect whatever the pattern files hold:
/// they lead the effective pattern list, so every path a built-in pattern
/// protects stays protected.
pub proof fn built_in_patterns_always_active(
    default_text: Option<Seq<char>>,
    user_text: Option<Seq<char>>,
    rel: Seq<char>,
)
    ensures
        built_in_patterns().len() <= sacred_patterns_spec(default_text, user_text).len(),
        sacred_patterns_spec(default_text, user_text).take(built_in_patterns().len() as int)
            == built_in_patterns(),
        any_sacred_match(built_in_patterns(), rel) ==> any_sacred_match(
            sacred_patterns_spec(default_text, user_text),
            rel,
        ),
{
    let d = match default_text {
        Some(t) => pattern_entries(lines_of(t)),
        None => seq![],
    };
    let u = match user_text {
        Some(t) => pattern_entries(lines_of(t)),
        None => seq![],
    };
    let b = built_in_patterns();
    let s = b + d + u;
    reveal_strlit("src/auth/**");
    reveal_strlit("src/payments/**");
    reveal_strlit("src/migrations/**");
    reveal_strlit("src/crypto/**");
    reveal_strlit("src/security/**");
    reveal_strlit("configs/**");
    reveal_strlit(".github/workflows/**");
    reveal_strlit("**/Cargo.toml");
    assert(b[1][4] != b[0][4]);
    assert(b[2][4] != b[1][4]);
    assert(b[3][4] != b[2][4]);
    assert(b[4][4] != b[3][4]);
    assert(b[5][0] != b[4][0]);
    assert(b[6][0] != b[5][0]);
    assert(b[7][0] != b[6][0]);
    assert(s.take(b.len() as int) =~= b);
    lemma_dedup_prefix(s, b.len() as int);
    let e = sacred_patterns_spec(default_text, user_text);
    if any_sacred_match(b, rel) {
        let i = choose|i: int| 0 <= i < b.len() && sacred_match_spec(#[trigger] b[i], rel);
        assert(e.take(b.len() as int)[i] == e[i]);
        assert(sacred_match_spec(e[i], rel));
    }
}

/// The sacred patterns in effect: the built-ins, then the entries of the
/// project's default pattern file, then those of the user's pattern file,
/// with consecutive repeats removed.
pub open spec fn sacred_patterns_spec(default_text: Option<Seq<char>>, user_text: Option<Seq<char>>) -> Seq<Seq<char>> {
    let d = match default_text {
        Some(t) => pattern_entries(lines_of(t)),
        None => seq![],
    };
    let u = match user_text {
        Some(t) => pattern_entries(lines_of(t)),
        None => seq![],
    };
    dedup_spec(built_in_patterns() + d + u)
}

/// Combines the built-in patterns with the texts of the project default
/// pattern file and the user pattern file, when they exist.
pub fn sacred_patterns_from_sources(default_text: Option<&str>, user_text: Option<&str>) -> (r: Vec<String>)
    ensures
        strings_view(r@) == sacred_patterns_spec(
            match default_text {
                Some(t) => Some(t@),
                None => None,
            },
            match user_text {
                Some(t) => Some(t@),
                None => None,
            },
        ),
{
    let mut all = built_in_sacred_patterns();
    let ghost b = strings_view(all@);
    match default_text {
        Some(t) => extend_patterns_from_text(&mut all, t),
        None => {},
    }
    let ghost after_default = strings_view(all@);
    match user_text {
        Some(t) => extend_patterns_from_text(&mut all, t),
        None => {},
    }
    proof {
        let d = match default_text {
            Some(t) => pattern_entries(lines_of(t@)),
            None => seq![],
        };
        let u = match user_text {
            Some(t) => pattern_entries(lines_of(t@)),
            None => seq![],
        };
        assert(after_default =~= b + d);
        assert(strings_view(all@) =~= b + d + u);
    }
    dedup_strings(all)
}

/// Pieces of a path that name directories or files: the pieces between `/`
/// separators, without empty pieces and without `.`.
pub open spec fn path_segments_of(pieces: Seq<Seq<char>>) -> Seq<Seq<char>>
    decreases pieces.len(),
{
    if pieces.len() == 0 {
        seq![]
    } else {
        let prev = path_segments_of(pieces.drop_last());
        let p = pieces.last();
        if p.len() == 0 || p == seq!['.'] {
            prev
        } else {
            prev.push(p)
        }
    }
}

/// Whole components of a `/`-separated path.
pub open spec fn components(path: Seq<char>) -> Seq<Seq<char>> {
    path_segments_of(split_char(path, '/'))
}

/// Whether the path is absolute.
pub open spec fn is_absolute(path: Seq<char>) -> bool {
    path.len() > 0 && path[0] == '/'
}

/// Lexical resolution of components: `..` drops the previous component (or
/// nothing, at the start), every other component is kept.
pub open spec fn resolve_components(cs: Seq<Seq<char>>) -> Seq<Seq<char>>
    decreases cs.len(),
{
    if cs.len() == 0 {
        seq![]
    } else {
        let prev = resolve_components(cs.drop_last());
        if cs.last() == seq!['.', '.'] {
            if prev.len() > 0 {
                prev.drop_last()
            } else {
                prev
            }
        } else {
            prev.push(cs.last())
        }
    }
}

/// Components joined by `/`.
pub open spec fn join_components(cs: Seq<Seq<char>>) -> Seq<char>
    decreases cs.len(),
{
    if cs.len() == 0 {
        seq![]
    } else if cs.len() == 1 {
        cs[0]
    } else {
        join_components(cs.drop_last()).push('/') + cs.last()
    }
}

/// Lexical normalization of a path: `.` dropped, `..` resolved against the
/// preceding component, a leading `/` kept.
pub open spec fn normalize_spec(path: Seq<char>) -> Seq<char> {
    let body = join_components(resolve_components(components(path)));
    if is_absolute(path) {
        seq!['/'] + body
    } else {
        body
    }
}

/// Component ranges of `v` (non-empty pieces between `/`, `.` skipped).
pub(crate) fn component_ranges(v: &Vec<char>) -> (r: Vec<(usize, usize)>)
    ensures
        ranges_cover(v@, r@, components(v@)),
{
    let pieces = split_ranges(v, 0, v.len(), '/');
    assert(v@.subrange(0, v@.len() as int) =~= v@);
    let ghost ps = split_char(v@, '/');
    let mut r: Vec<(usize, usize)> = Vec::new();
    let mut i: usize = 0;
    while i < pieces.len()
        invariant
            i <= pieces@.len(),
            ranges_cover(v@, pieces@, ps),
            ps == split_char(v@, '/'),
            ranges_cover(v@, r@, path_segments_of(ps.take(i as int))),
        decreases pieces@.len() - i,
    {
        let (a, b) = pieces[i];
        assert(ps.take(i + 1).drop_last() =~= ps.take(i as int));
        assert(ps.take(i + 1).last() == v@.subrange(a as int, b as int));
        let dot = vec!['.'];
        assert(dot@ =~= seq!['.']);
        if b > a && !range_equals(v, a, b, &dot) {
            r.push((a, b));
        }
        i = i + 1;
    }
    assert(ps.take(pieces@.len() as int) =~= ps);
    r
}

/// Lexically normalizes a `/`-separated path.
pub fn normalize_path(path: &str) -> (r: String)
    ensures
        r@ == normalize_spec(path@),
{
    let v = chars_of(path);
    let comps = component_ranges(&v);
    let ghost cs = components(v@);
    let mut stack: Vec<(usize, usize)> = Vec::new();
    let mut i: usize = 0;
    let dotdot = vec!['.', '.'];
    assert(dotdot@ =~= seq!['.', '.']);
    while i < comps.len()
        invariant
            i <= comps@.len(),
            dotdot@ == seq!['.', '.'],
            ranges_cover(v@, comps@, cs),
            cs == components(v@),
            ranges_cover(v@, stack@, resolve_components(cs.take(i as int))),
        decreases comps@.len() - i,
    {
        let (a, b) = comps[i];
        assert(cs.take(i + 1).drop_last() =~= cs.take(i as int));
        assert(cs.take(i + 1).last() == v@.subrange(a as int, b as int));
        if range_equals(&v, a, b, &dotdot) {
            if stack.len() > 0 {
                let ghost before = stack@;
                stack.pop();
                assert(stack@ =~= before.drop_last());
            }
        } else {
            stack.push((a, b));
        }
        i = i + 1;
    }
    assert(cs.take(comps@.len() as int) =~= cs);
    let ghost rs = resolve_components(cs);
    let mut out = String::new();
    if v.len() > 0 && v[0] == '/' {
        push_char(&mut out, '/');
    }
    let ghost prefix = out@;
    let mut k: usize = 0;
    while k < stack.len()
        invariant
            k <= stack@.len(),
            ranges_cover(v@, stack@, rs),
            out@ == prefix + join_components(rs.take(k as int)),
        decreases stack@.len() - k,
    {
        let (a, b) = stack[k];
        if k > 0 {
            push_char(&mut out, '/');
        }
        let piece = string_of(&v, a, b);
        out.append(piece.as_str());
        assert(rs.take(k + 1).drop_last() =~= rs.take(k as int));
        assert(rs.take(k + 1).last() == v@.subrange(a as int, b as int));
        proof {
            if k == 0 {
                assert(rs.take(1) =~= seq![rs[0]]);
            }
        }
        assert(out@ =~= prefix + join_components(rs.take(k + 1)));
        k = k + 1;
    }
    assert(rs.take(stack@.len() as int) =~= rs);
    out
}

/// Whole-component prefix test between paths (`Path::starts_with`): both
/// absolute or both relative, and the root's components lead the path's.
pub open spec fn starts_with_spec(path: Seq<char>, root: Seq<char>) -> bool {
    is_absolute(path) == is_absolute(root) && components(root).len() <= components(path).len()
        && components(path).take(components(root).len() as int) == components(root)
}

/// Whether `path` lies within `root`, component by component.
pub fn path_starts_with(path: &str, root: &str) -> (r: bool)
    ensures
        r == starts_with_spec(path@, root@),
{
    let pv = chars_of(path);
    let rv = chars_of(root);
    let p_abs = pv.len() > 0 && pv[0] == '/';
    let r_abs = rv.len() > 0 && rv[0] == '/';
    if p_abs != r_abs {
        return false;
    }
    let pc = component_ranges(&pv);
    let rc = component_ranges(&rv);
    let ghost pcs = components(pv@);
    let ghost rcs = components(rv@);
    if rc.len() > pc.len() {
        return false;
    }
    let mut i: usize = 0;
    while i < rc.len()
        invariant
            i <= rc@.len() <= pc@.len(),
            pv@ == path@,
            rv@ == root@,
            pcs == components(pv@),
            rcs == components(rv@),
            ranges_cover(pv@, pc@, pcs),
            ranges_cover(rv@, rc@, rcs),
            forall|k: int| 0 <= k < i ==> pcs[k] == rcs[k],
        decreases rc@.len() - i,
    {
        let (a, b) = rc[i];
        let (c, d) = pc[i];
        let piece = chars_range_plus(&rv, a, b, &Vec::new());
        assert(piece@ =~= rv@.subrange(a as int, b as int));
        if !range_equals(&pv, c, d, &piece) {
            assert(pcs.take(rcs.len() as int)[i as int] != rcs[i as int]);
            return false;
        }
        i = i + 1;
    }
    assert(pcs.take(rcs.len() as int) =~= rcs);
    true
}

/// `s` with every backslash turned into a slash.
pub open spec fn slashes(s: Seq<char>) -> Seq<char> {
    s.map_values(|c: char| if c == '\\' { '/' } else { c })
}

/// The workspace-relative form of a path: the components after the root's
/// when the path lies within the root, else the whole path; backslashes
/// become slashes.
pub open spec fn relative_spec(root: Seq<char>, path: Seq<char>) -> Seq<char> {
    if starts_with_spec(path, root) {
        slashes(join_components(components(path).skip(components(root).len() as int)))
    } else {
        slashes(path)
    }
}

/// `path` relative to `root`, with `/` separators.
pub fn relative_to_root(root: &str, path: &str) -> (r: String)
    ensures
        r@ == relative_spec(root@, path@),
{
    let inside = path_starts_with(path, root);
    let pv = chars_of(path);
    let body: Vec<char> = if inside {
        let rv = chars_of(root);
        let rc = component_ranges(&rv);
        let pc = component_ranges(&pv);
        let ghost pcs = components(pv@);
        let ghost rest = pcs.skip(rc@.len() as int);
        let mut out: Vec<char> = Vec::new();
        let mut k = rc.len();
        assert(rest.take(0) =~= Seq::<Seq<char>>::empty());
        while k < pc.len()
            invariant
                rc@.len() <= k <= pc@.len(),
                ranges_cover(pv@, pc@, pcs),
                rest == pcs.skip(rc@.len() as int),
                out@ == join_components(rest.take(k - rc@.len())),
            decreases pc@.len() - k,
        {
            let (a, b) = pc[k];
            let ghost before = out@;
            let ghost sep: Seq<char> = if k > rc@.len() { seq!['/'] } else { Seq::<char>::empty() };
            if k > rc.len() {
                out.push('/');
            }
            assert(out@ =~= before + sep + pv@.subrange(a as int, a as int));
            let mut j = a;
            while j < b
                invariant
                    a <= j <= b <= pv@.len(),
                    out@ == before + sep + pv@.subrange(a as int, j as int),
                decreases b - j,
            {
                out.push(pv[j]);
                j = j + 1;
                assert(out@ =~= before + sep + pv@.subrange(a as int, j as int));
            }
            let ghost t = rest.take(k + 1 - rc@.len());
            assert(t.drop_last() =~= rest.take(k - rc@.len()));
            assert(t.last() == pv@.subrange(a as int, b as int));
            proof {
                if k == rc@.len() {
                    assert(t =~= seq![t[0]]);
                    assert(out@ =~= pv@.subrange(a as int, b as int));
                } else {
                    assert(out@ =~= join_components(rest.take(k - rc@.len())).push('/') + pv@.subrange(
                        a as int,
                        b as int,
                    ));
                }
            }
            k = k + 1;
        }
        assert(rest.take(pc@.len() - rc@.len()) =~= rest);
        out
    } else {
        pv
    };
    let mut r = String::new();
    let mut i: usize = 0;
    while i < body.len()
        invariant
            i <= body@.len(),
            r@ == slashes(body@.take(i as int)),
        decreases body@.len() - i,
    {
        let c = if body[i] == '\\' { '/' } else { body[i] };
        push_char(&mut r, c);
        assert(r@ =~= slashes(body@.take(i + 1)));
        i = i + 1;
    }
    assert(body@.take(body@.len() as int) =~= body@);
    r
}

/// Whether the sacred patterns protect `path`, given the canonical project
/// root and the canonical form of the path.
pub fn is_sacred_within(patterns: &Vec<String>, root: &str, canonical_path: &str) -> (r: bool)
    ensures
        r == any_sacred_match(strings_view(patterns@), relative_spec(root@, canonical_path@)),
{
    let rel = relative_to_root(root, canonical_path);
    matches_any_pattern(patterns, rel.as_str())
}

/// `path` resolved against `root` (`Path::join`): an absolute path stands
/// for itself, a relative one is appended after a separator.
pub open spec fn join_spec(root: Seq<char>, path: Seq<char>) -> Seq<char> {
    if is_absolute(path) {
        path
    } else if root.len() == 0 || root.last() == '/' {
        root + path
    } else {
        root.push('/') + path
    }
}

/// Joins `path` onto `root`.
pub fn join_path(root: &str, path: &str) -> (r: String)
    ensures
        r@ == join_spec(root@, path@),
{
    let pv = chars_of(path);
    if pv.len() > 0 && pv[0] == '/' {
        return string_of_all(&pv);
    }
    let rv = chars_of(root);
    let mut r = string_of_all(&rv);
    if rv.len() > 0 && rv[rv.len() - 1] != '/' {
        push_char(&mut r, '/');
    }
    r.append(path);
    r
}


/// Canonical project root path.
#[derive(Debug, Clone)]
pub struct ProjectRoot(String);

impl View for ProjectRoot {
    type V = Seq<char>;

    closed spec fn view(&self) -> Seq<char> {
        self.0@
    }
}

impl ProjectRoot {
    /// Wraps a root path that has already been resolved on disk.
    pub fn new(canonical_root: String) -> (r: Self)
        ensures
            r@ == canonical_root@,
    {
        ProjectRoot(canonical_root)
    }

    /// Returns the root as a path.
    pub fn as_path(&self) -> (r: &str)
        ensures
            r@ == self@,
    {
        self.0.as_str()
    }
}

/// Whether a resolved path lies within a resolved root.
pub fn is_within_root(root: &str, canonical_path: &str) -> (r: bool)
    ensures
        r == starts_with_spec(canonical_path@, root@),
{
    path_starts_with(canonical_path, root)
}

/// The path a request settles on: its on-disk resolution when there is one,
/// else its lexical normalization.
pub open spec fn settled_spec(resolved: Option<Seq<char>>, joined: Seq<char>) -> Seq<char> {
    match resolved {
        Some(c) => c,
        None => normalize_spec(joined),
    }
}

/// What `canonicalize_within` decides for a request: the settled path when it
/// lies within the root; otherwise the escaping path that is reported (the
/// request itself when it was absolute, else the settled path).
pub open spec fn canonicalize_within_spec(root: Seq<char>, path: Seq<char>, resolved: Option<Seq<char>>) -> Result<
    Seq<char>,
    Seq<char>,
> {
    let settled = settled_spec(resolved, join_spec(root, path));
    if starts_with_spec(settled, root) {
        Ok(settled)
    } else if is_absolute(path) {
        Err(path)
    } else {
        Err(settled)
    }
}

/// Resolves `path` against the project root and rejects it when it escapes
/// the root. `resolved` is the on-disk resolution of the joined path
/// (`None` when it could not be resolved, e.g. because it does not exist);
/// the path is then normalized lexically.
///
/// # Errors
///
/// Returns `CoreError::PathEscapesRoot` when the settled path is outside the
/// project root.
pub fn canonicalize_within(root: &ProjectRoot, path: &str, resolved: Option<String>) -> (r: Result<
    String,
    CoreError,
>)
    ensures
        match canonicalize_within_spec(root@, path@, opt_string_view(resolved)) {
            Ok(p) => r matches Ok(s) && s@ == p,
            Err(q) => r matches Err(CoreError::PathEscapesRoot { root: rr, requested: rq }) && rr@
                == root@ && rq@ == q,
        },
{
    let settled = match resolved {
        Some(c) => c,
        None => {
            let joined = join_path(root.as_path(), path);
            normalize_path(joined.as_str())
        },
    };
    if is_within_root(root.as_path(), settled.as_str()) {
        return Ok(settled);
    }
    let pv = chars_of(path);
    let requested = if pv.len() > 0 && pv[0] == '/' {
        string_of_all(&pv)
    } else {
        settled
    };
    Err(CoreError::PathEscapesRoot { root: string_of_all(&chars_of(root.as_path())), requested })
}

/// Whatever the request and its resolution on disk, a path that
/// `canonicalize_within` accepts lies within the root, and one it rejects
/// does not.
pub proof fn canonicalized_paths_stay_within_root(root: Seq<char>, path: Seq<char>, resolved: Option<Seq<char>>)
    ensures
        canonicalize_within_spec(root, path, resolved) matches Ok(p) ==> starts_with_spec(p, root),
        canonicalize_within_spec(root, path, resolved) is Err ==> !starts_with_spec(
            settled_spec(resolved, join_spec(root, path)),
            root,
        ),
{
}

/// Whether the sacred patterns protect `path` under `root`; `resolved` is as
/// for `canonicalize_within`.
///
/// # Errors
///
/// Returns `CoreError::PathEscapesRoot` when the path escapes the root.
pub fn is_sacred(root: &ProjectRoot, path: &str, resolved: Option<String>, patterns: &Vec<String>) -> (r:
    Result<bool, CoreError>)
    ensures
        match canonicalize_within_spec(root@, path@, opt_string_view(resolved)) {
            Ok(p) => r == Ok::<bool, CoreError>(any_sacred_match(strings_view(patterns@), relative_spec(root@, p))),
            Err(q) => r matches Err(CoreError::PathEscapesRoot { root: rr, requested: rq }) && rr@
                == root@ && rq@ == q,
        },
{
    let canonical = canonicalize_within(root, path, resolved)?;
    Ok(is_sacred_within(patterns, root.as_path(), canonical.as_str()))
}


/// A `dir/**` pattern protects `dir` itself and the paths inside it, and
/// nothing else: a path protected by it that is not `dir` has the
/// characters of `dir` followed by a `/`.
pub proof fn directory_pattern_protects_exactly_its_tree(dir: Seq<char>, rel: Seq<char>)
    ensures
        sacred_match_spec(dir + seq!['/', '*', '*'], rel) == (rel == dir || (rel.len() > dir.len() && rel[dir.len() as int]
            == '/' && forall|i: int| 0 <= i < dir.len() ==> rel[i] == dir[i])),
{
    let pattern = dir + seq!['/', '*', '*'];
    assert(pattern.skip(pattern.len() - 3) =~= seq!['/', '*', '*']);
    assert(pattern.take(pattern.len() - 3) =~= dir);
    let ds = dir.push('/');
    if rel.len() > dir.len() && rel[dir.len() as int] == '/' && forall|i: int| 0 <= i < dir.len() ==> rel[i] == dir[i] {
        assert(rel.take(ds.len() as int) =~= ds);
    }
    if has_prefix(rel, ds) {
        assert forall|i: int| 0 <= i < dir.len() implies rel[i] == dir[i] by {
            assert(rel.take(ds.len() as int)[i] == ds[i]);
        }
        assert(rel.take(ds.len() as int)[dir.len() as int] == ds[dir.len() as int]);
    }
}

/// A `**/name` pattern protects `name` and any path whose last characters
/// are `/` followed by `name`, and nothing else.
pub proof fn name_pattern_protects_exactly_that_name(name: Seq<char>, rel: Seq<char>)
    requires
        !has_suffix(seq!['*', '*', '/'] + name, seq!['/', '*', '*']),
    ensures
        sacred_match_spec(seq!['*', '*', '/'] + name, rel) == (rel == name || (rel.len() > name.len() && rel[rel.len()
            - name.len() - 1] == '/' && forall|i: int| 0 <= i < name.len() ==> rel[rel.len() - name.len() + i] == name[i])),
{
    let pattern = seq!['*', '*', '/'] + name;
    assert(pattern.take(3) =~= seq!['*', '*', '/']);
    assert(pattern.skip(3) =~= name);
    let sn = seq!['/'] + name;
    let k = rel.len() - sn.len();
    if rel.len() > name.len() && rel[rel.len() - name.len() - 1] == '/' && forall|i: int|
        0 <= i < name.len() ==> rel[rel.len() - name.len() + i] == name[i] {
        assert forall|i: int| 0 <= i < sn.len() implies rel.skip(k)[i] == sn[i] by {
            if i > 0 {
                assert(rel[rel.len() - name.len() + (i - 1)] == name[i - 1]);
            }
        }
        assert(rel.skip(k) =~= sn);
    }
    if has_suffix(rel, sn) {
        assert forall|i: int| 0 <= i < name.len() implies rel[rel.len() - name.len() + i] == name[i] by {
            assert(rel.skip(k)[i + 1] == sn[i + 1]);
        }
        assert(rel.skip(k)[0] == sn[0]);
    }
}

/// A pattern that is neither `dir/**` nor `**/name` protects only the path
/// equal to it.
pub proof fn literal_pattern_protects_only_itself(pattern: Seq<char>, rel: Seq<char>)
    requires
        !has_suffix(pattern, seq!['/', '*', '*']),
        !has_prefix(pattern, seq!['*', '*', '/']),
    ensures
        sacred_match_spec(pattern, rel) == (pattern == rel),
{
}

} // verus!

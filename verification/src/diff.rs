//! Unified diff parsing and semantic additive merging.
//!
//! A unified diff is read line by line into per-file patches. Two diffs are
//! merged file by file: a file changed by only one diff passes through, a file
//! that both diffs only add to gets the union of the added blocks sorted by the
//! name of the function each block defines, and a file where either diff
//! removes lines is deferred for human review.

use vstd::prelude::*;
use crate::text::{
    before_first, chars_of, find_in_range, ident_prefix, ident_prefix_end, is_ident_char, lemma_lex_irreflexive, lemma_lex_total, lemma_lex_transitive, lex_less, lex_lt, trim,
    trim_range, find_seq, has_prefix, line_ranges, lines_of,
    parse_u32_range, parse_u32_spec, range_has_prefix, ranges_cover, string_of,
    strip_all_prefix, strip_all_prefix_range, word_ranges, words_of,
};

verus! {

/// Classification of a diff hunk line.
#[derive(Debug, Clone, Copy, PartialEq, Eq, Structural)]
pub enum HunkLineKind {
    /// Unmodified context line (prefix ` `).
    Context,
    /// Added line (prefix `+`).
    Added,
    /// Removed line (prefix `-`).
    Removed,
}

/// A single line within a unified diff hunk.
#[derive(Debug)]
pub struct HunkLine {
    /// Classification of this line.
    pub kind: HunkLineKind,
    /// Line content without the diff prefix character.
    pub content: String,
}

/// One contiguous region of changes within a file.
#[derive(Debug)]
pub struct DiffHunk {
    /// First line of the pre-patch region.
    pub old_start: u32,
    /// Number of lines in the pre-patch region.
    pub old_count: u32,
    /// First line of the post-patch region.
    pub new_start: u32,
    /// Number of lines in the post-patch region.
    pub new_count: u32,
    /// Lines in this hunk.
    pub lines: Vec<HunkLine>,
}

/// One file's worth of changes in a unified diff.
#[derive(Debug)]
pub struct FilePatch {
    /// Relative path of the file being patched.
    pub path: String,
    /// Ordered list of hunks.
    pub hunks: Vec<DiffHunk>,
}

/// Result of attempting to merge two unified diffs.
#[derive(Debug)]
pub struct MergeResult {
    /// Files where both diffs added non-conflicting content, merged and sorted.
    pub merged_patches: Vec<FilePatch>,
    /// Files where a removed-line collision was detected, deferred to human review.
    pub deferred_paths: Vec<String>,
}

/// Mathematical value of a hunk line.
pub struct LineV {
    pub kind: HunkLineKind,
    pub content: Seq<char>,
}

/// Mathematical value of a hunk.
pub struct HunkV {
    pub old_start: u32,
    pub old_count: u32,
    pub new_start: u32,
    pub new_count: u32,
    pub lines: Seq<LineV>,
}

/// Mathematical value of a file patch.
pub struct PatchV {
    pub path: Seq<char>,
    pub hunks: Seq<HunkV>,
}

impl View for HunkLine {
    type V = LineV;

    open spec fn view(&self) -> LineV {
        LineV { kind: self.kind, content: self.content@ }
    }
}

/// Values of a sequence of hunk lines.
pub open spec fn lines_view(ls: Seq<HunkLine>) -> Seq<LineV> {
    ls.map_values(|l: HunkLine| l@)
}

impl View for DiffHunk {
    type V = HunkV;

    open spec fn view(&self) -> HunkV {
        HunkV {
            old_start: self.old_start,
            old_count: self.old_count,
            new_start: self.new_start,
            new_count: self.new_count,
            lines: lines_view(self.lines@),
        }
    }
}

/// Values of a sequence of hunks.
pub open spec fn hunks_view(hs: Seq<DiffHunk>) -> Seq<HunkV> {
    hs.map_values(|h: DiffHunk| h@)
}

impl View for FilePatch {
    type V = PatchV;

    open spec fn view(&self) -> PatchV {
        PatchV { path: self.path@, hunks: hunks_view(self.hunks@) }
    }
}

/// Values of a sequence of file patches.
pub open spec fn patches_view(ps: Seq<FilePatch>) -> Seq<PatchV> {
    ps.map_values(|p: FilePatch| p@)
}

/// Values of a sequence of strings.
pub open spec fn strings_view(ss: Seq<String>) -> Seq<Seq<char>> {
    ss.map_values(|s: String| s@)
}

/// Value of an optional hunk.
pub open spec fn opt_hunk_view(h: Option<DiffHunk>) -> Option<HunkV> {
    match h {
        Some(x) => Some(x@),
        None => None,
    }
}

/// Value of an optional string.
pub open spec fn opt_string_view(s: Option<String>) -> Option<Seq<char>> {
    match s {
        Some(x) => Some(x@),
        None => None,
    }
}

pub open spec fn minus3() -> Seq<char> {
    seq!['-', '-', '-', ' ']
}

pub open spec fn plus3() -> Seq<char> {
    seq!['+', '+', '+', ' ']
}

pub open spec fn plus3_b() -> Seq<char> {
    seq!['+', '+', '+', ' ', 'b', '/']
}

pub open spec fn at2() -> Seq<char> {
    seq!['@', '@', ' ']
}

pub open spec fn space_at2() -> Seq<char> {
    seq![' ', '@', '@']
}

/// The `start,count` range of a hunk header; the count is 1 when absent.
pub open spec fn range_spec(r: Seq<char>) -> Option<(u32, u32)> {
    match find_seq(r, seq![',']) {
        Some(i) => match (parse_u32_spec(r.take(i)), parse_u32_spec(r.skip(i + 1))) {
            (Some(a), Some(b)) => Some((a, b)),
            _ => None,
        },
        None => match parse_u32_spec(r) {
            Some(a) => Some((a, 1u32)),
            None => None,
        },
    }
}

/// The empty hunk opened by an `@@ -a,b +c,d @@` header line, if it parses.
pub open spec fn header_spec(line: Seq<char>) -> Option<HunkV> {
    let inner = before_first(strip_all_prefix(line, at2()), space_at2());
    let w = words_of(inner);
    if w.len() < 2 {
        None
    } else {
        match (
            range_spec(strip_all_prefix(w[0], seq!['-'])),
            range_spec(strip_all_prefix(w[1], seq!['+'])),
        ) {
            (Some(o), Some(n)) => Some(
                HunkV {
                    old_start: o.0,
                    old_count: o.1,
                    new_start: n.0,
                    new_count: n.1,
                    lines: seq![],
                },
            ),
            _ => None,
        }
    }
}

/// The path named by a `+++ ` line.
pub open spec fn plus_path(line: Seq<char>) -> Seq<char> {
    strip_all_prefix(strip_all_prefix(line, plus3_b()), plus3())
}

/// State of the line-by-line diff reader.
pub struct ParseState {
    pub patches: Seq<PatchV>,
    pub path: Option<Seq<char>>,
    pub hunks: Seq<HunkV>,
    pub hunk: Option<HunkV>,
}

/// `hs` with the open hunk, if any, appended.
pub open spec fn close_hunk(hs: Seq<HunkV>, h: Option<HunkV>) -> Seq<HunkV> {
    match h {
        Some(x) => hs.push(x),
        None => hs,
    }
}

/// Closes the open hunk and, when a path is pending, emits the collected
/// hunks as a patch for it (a patch with no hunk is not emitted).
pub open spec fn flush_spec(st: ParseState) -> ParseState {
    let hs = close_hunk(st.hunks, st.hunk);
    match st.path {
        Some(p) => ParseState {
            patches: if hs.len() > 0 {
                st.patches.push(PatchV { path: p, hunks: hs })
            } else {
                st.patches
            },
            path: None,
            hunks: seq![],
            hunk: None,
        },
        None => ParseState { patches: st.patches, path: None, hunks: hs, hunk: None },
    }
}

/// The kind of a hunk body line, by its first character.
pub open spec fn line_kind(line: Seq<char>) -> Option<HunkLineKind> {
    if line.len() == 0 {
        None
    } else if line[0] == '+' {
        Some(HunkLineKind::Added)
    } else if line[0] == '-' {
        Some(HunkLineKind::Removed)
    } else if line[0] == ' ' {
        Some(HunkLineKind::Context)
    } else {
        None
    }
}

/// Effect of one diff line on the reader state.
pub open spec fn step_spec(st: ParseState, line: Seq<char>) -> ParseState {
    if has_prefix(line, minus3()) {
        flush_spec(st)
    } else if has_prefix(line, plus3()) {
        ParseState { path: Some(plus_path(line)), ..st }
    } else if has_prefix(line, at2()) {
        ParseState { hunks: close_hunk(st.hunks, st.hunk), hunk: header_spec(line), ..st }
    } else {
        match (st.hunk, line_kind(line)) {
            (Some(h), Some(k)) => ParseState {
                hunk: Some(
                    HunkV { lines: h.lines.push(LineV { kind: k, content: line.drop_first() }), ..h },
                ),
                ..st
            },
            _ => st,
        }
    }
}

/// Reader state after the given lines.
pub open spec fn read_lines(ls: Seq<Seq<char>>) -> ParseState
    decreases ls.len(),
{
    if ls.len() == 0 {
        ParseState { patches: seq![], path: None, hunks: seq![], hunk: None }
    } else {
        step_spec(read_lines(ls.drop_last()), ls.last())
    }
}

/// The per-file patches of a unified diff text.
pub open spec fn parse_diff_spec(text: Seq<char>) -> Seq<PatchV> {
    flush_spec(read_lines(lines_of(text))).patches
}

/// Parses `v[lo..hi]` as a `start[,count]` range.
fn parse_range(v: &Vec<char>, lo: usize, hi: usize) -> (r: Option<(u32, u32)>)
    requires
        lo <= hi <= v@.len(),
    ensures
        r == range_spec(v@.subrange(lo as int, hi as int)),
{
    let ghost s = v@.subrange(lo as int, hi as int);
    let comma = vec![','];
    assert(comma@ =~= seq![',']);
    match find_in_range(v, lo, hi, &comma) {
        Some(k) => {
            assert(s.take(k - lo) =~= v@.subrange(lo as int, k as int));
            assert(s.skip(k - lo + 1) =~= v@.subrange(k + 1, hi as int));
            let a = parse_u32_range(v, lo, k);
            let b = parse_u32_range(v, k + 1, hi);
            match (a, b) {
                (Some(x), Some(y)) => Some((x, y)),
                _ => None,
            }
        },
        None => {
            match parse_u32_range(v, lo, hi) {
                Some(x) => Some((x, 1)),
                None => None,
            }
        },
    }
}

/// Parses an `@@ -a,b +c,d @@` header line `v[lo..hi]` into an empty hunk.
fn parse_hunk_header(v: &Vec<char>, lo: usize, hi: usize) -> (r: Option<DiffHunk>)
    requires
        lo <= hi <= v@.len(),
    ensures
        opt_hunk_view(r) == header_spec(v@.subrange(lo as int, hi as int)),
{
    let ghost line = v@.subrange(lo as int, hi as int);
    let at = vec!['@', '@', ' '];
    assert(at@ =~= at2());
    let start = strip_all_prefix_range(v, lo, hi, &at);
    let close = vec![' ', '@', '@'];
    assert(close@ =~= space_at2());
    let found = find_in_range(v, start, hi, &close);
    let end = match found {
        Some(k) => k,
        None => hi,
    };
    assert(v@.subrange(start as int, end as int) == before_first(
        strip_all_prefix(line, at2()),
        space_at2(),
    )) by {
        let t = v@.subrange(start as int, hi as int);
        match find_seq(t, space_at2()) {
            Some(k) => {
                assert(t.take(k) =~= v@.subrange(start as int, end as int));
            },
            None => {},
        }
    }
    let words = word_ranges(v, start, end);
    if words.len() < 2 {
        return None;
    }
    let (w0lo, w0hi) = words[0];
    let (w1lo, w1hi) = words[1];
    let minus = vec!['-'];
    let plus = vec!['+'];
    assert(minus@ =~= seq!['-']);
    assert(plus@ =~= seq!['+']);
    let o_lo = strip_all_prefix_range(v, w0lo, w0hi, &minus);
    let n_lo = strip_all_prefix_range(v, w1lo, w1hi, &plus);
    let old_range = parse_range(v, o_lo, w0hi);
    let new_range = parse_range(v, n_lo, w1hi);
    match (old_range, new_range) {
        (Some(o), Some(n)) => {
            let h = DiffHunk {
                old_start: o.0,
                old_count: o.1,
                new_start: n.0,
                new_count: n.1,
                lines: Vec::new(),
            };
            assert(lines_view(h.lines@) =~= Seq::<LineV>::empty());
            Some(h)
        },
        _ => None,
    }
}

/// Closes the open hunk and, when a path is given, emits the collected hunks
/// as a patch for that path.
fn flush_patch(
    path: Option<String>,
    current_hunk: &mut Option<DiffHunk>,
    current_hunks: &mut Vec<DiffHunk>,
    patches: &mut Vec<FilePatch>,
)
    ensures
        ({
            let st = flush_spec(
                ParseState {
                    patches: patches_view(old(patches)@),
                    path: opt_string_view(path),
                    hunks: hunks_view(old(current_hunks)@),
                    hunk: opt_hunk_view(*old(current_hunk)),
                },
            );
            &&& patches_view(final(patches)@) == st.patches
            &&& hunks_view(final(current_hunks)@) == st.hunks
            &&& opt_hunk_view(*final(current_hunk)) == st.hunk
        }),
{
    let ghost old_hunks = current_hunks@;
    let ghost old_patches = patches@;
    match current_hunk.take() {
        Some(h) => {
            current_hunks.push(h);
            assert(hunks_view(current_hunks@) =~= hunks_view(old_hunks).push(h@));
        },
        None => {},
    }
    let ghost closed = current_hunks@;
    match path {
        Some(p) => {
            let mut collected: Vec<DiffHunk> = Vec::new();
            std::mem::swap(&mut collected, current_hunks);
            assert(hunks_view(current_hunks@) =~= Seq::<HunkV>::empty());
            if collected.len() > 0 {
                let ghost cv = hunks_view(collected@);
                let fp = FilePatch { path: p, hunks: collected };
                patches.push(fp);
                assert(patches_view(patches@) =~= patches_view(old_patches).push(
                    PatchV { path: p@, hunks: cv },
                ));
            } else {
                assert(hunks_view(collected@) =~= Seq::<HunkV>::empty());
            }
        },
        None => {},
    }
}

/// Parses unified diff text into a list of per-file patches.
pub fn parse_unified_diff(diff_text: &str) -> (patches: Vec<FilePatch>)
    ensures
        patches_view(patches@) == parse_diff_spec(diff_text@),
{
    let v = chars_of(diff_text);
    let ranges = line_ranges(&v);
    let ghost ls = lines_of(v@);
    let mut patches: Vec<FilePatch> = Vec::new();
    let mut current_path: Option<String> = None;
    let mut current_hunks: Vec<DiffHunk> = Vec::new();
    let mut current_hunk: Option<DiffHunk> = None;
    let minus = vec!['-', '-', '-', ' '];
    let plus = vec!['+', '+', '+', ' '];
    let plus_b = vec!['+', '+', '+', ' ', 'b', '/'];
    let at = vec!['@', '@', ' '];
    let mut i: usize = 0;
    assert(patches_view(patches@) =~= Seq::<PatchV>::empty());
    assert(hunks_view(current_hunks@) =~= Seq::<HunkV>::empty());
    while i < ranges.len()
        invariant
            i <= ranges@.len(),
            ranges_cover(v@, ranges@, ls),
            ls == lines_of(v@),
            minus@ == minus3(),
            plus@ == plus3(),
            plus_b@ == plus3_b(),
            at@ == at2(),
            read_lines(ls.take(i as int)) == (ParseState {
                patches: patches_view(patches@),
                path: opt_string_view(current_path),
                hunks: hunks_view(current_hunks@),
                hunk: opt_hunk_view(current_hunk),
            }),
        decreases ranges@.len() - i,
    {
        let (lo, hi) = ranges[i];
        let ghost line = v@.subrange(lo as int, hi as int);
        assert(ls.take(i + 1).drop_last() =~= ls.take(i as int));
        assert(ls.take(i + 1).last() == line);
        if range_has_prefix(&v, lo, hi, &minus) {
            let taken = current_path.take();
            flush_patch(taken, &mut current_hunk, &mut current_hunks, &mut patches);
        } else if range_has_prefix(&v, lo, hi, &plus) {
            let s1 = strip_all_prefix_range(&v, lo, hi, &plus_b);
            let s2 = strip_all_prefix_range(&v, s1, hi, &plus);
            current_path = Some(string_of(&v, s2, hi));
        } else if range_has_prefix(&v, lo, hi, &at) {
            match current_hunk.take() {
                Some(h) => {
                    let ghost before = current_hunks@;
                    current_hunks.push(h);
                    assert(hunks_view(current_hunks@) =~= hunks_view(before).push(h@));
                },
                None => {},
            }
            current_hunk = parse_hunk_header(&v, lo, hi);
        } else {
            match current_hunk.take() {
                Some(mut h) => {
                    if hi > lo && (v[lo] == '+' || v[lo] == '-' || v[lo] == ' ') {
                        let kind = if v[lo] == '+' {
                            HunkLineKind::Added
                        } else if v[lo] == '-' {
                            HunkLineKind::Removed
                        } else {
                            HunkLineKind::Context
                        };
                        let content = string_of(&v, lo + 1, hi);
                        assert(content@ == line.drop_first());
                        let ghost before = h.lines@;
                        h.lines.push(HunkLine { kind, content });
                        assert(lines_view(h.lines@) =~= lines_view(before).push(
                            LineV { kind, content: line.drop_first() },
                        ));
                    }
                    current_hunk = Some(h);
                },
                None => {},
            }
        }
        i = i + 1;
    }
    assert(ls.take(ranges@.len() as int) =~= ls);
    flush_patch(current_path, &mut current_hunk, &mut current_hunks, &mut patches);
    patches
}

// ---------------------------------------------------------------------------
// Merging
// ---------------------------------------------------------------------------

/// A run of consecutive added lines and the name of the function it defines.
pub struct BlockV {
    pub name: Seq<char>,
    pub lines: Seq<Seq<char>>,
}

/// Whether some line of the patch is a removal.
pub open spec fn has_removals(p: PatchV) -> bool {
    exists|i: int, j: int|
        0 <= i < p.hunks.len() && 0 <= j < p.hunks[i].lines.len() && (#[trigger] p.hunks[i].lines[j]).kind
            == HunkLineKind::Removed
}

/// Completed runs of added lines and the pending run after reading `ls`.
pub open spec fn runs_acc(ls: Seq<LineV>) -> (Seq<Seq<Seq<char>>>, Seq<Seq<char>>)
    decreases ls.len(),
{
    if ls.len() == 0 {
        (seq![], seq![])
    } else {
        let prev = runs_acc(ls.drop_last());
        if ls.last().kind == HunkLineKind::Added {
            (prev.0, prev.1.push(ls.last().content))
        } else if prev.1.len() > 0 {
            (prev.0.push(prev.1), seq![])
        } else {
            (prev.0, seq![])
        }
    }
}

/// Maximal runs of added lines within one hunk.
pub open spec fn runs_of(ls: Seq<LineV>) -> Seq<Seq<Seq<char>>> {
    let acc = runs_acc(ls);
    if acc.1.len() > 0 {
        acc.0.push(acc.1)
    } else {
        acc.0
    }
}

/// Runs of added lines over all hunks, in order.
pub open spec fn hunk_runs(hs: Seq<HunkV>) -> Seq<Seq<Seq<char>>>
    decreases hs.len(),
{
    if hs.len() == 0 {
        seq![]
    } else {
        hunk_runs(hs.drop_last()) + runs_of(hs.last().lines)
    }
}

pub open spec fn fn_prefix(k: int) -> Seq<char> {
    if k == 0 {
        seq!['p', 'u', 'b', ' ', 'a', 's', 'y', 'n', 'c', ' ', 'f', 'n', ' ']
    } else if k == 1 {
        seq!['p', 'u', 'b', ' ', 'f', 'n', ' ']
    } else if k == 2 {
        seq!['a', 's', 'y', 'n', 'c', ' ', 'f', 'n', ' ']
    } else {
        seq!['f', 'n', ' ']
    }
}

/// The function name declared by a trimmed line, trying the declaration
/// prefixes from index `k` on.
pub open spec fn name_from(t: Seq<char>, k: int) -> Option<Seq<char>>
    decreases 4 - k,
{
    if k >= 4 || k < 0 {
        None
    } else if has_prefix(t, fn_prefix(k)) && ident_prefix(t.skip(fn_prefix(k).len() as int)).len()
        > 0 {
        Some(ident_prefix(t.skip(fn_prefix(k).len() as int)))
    } else {
        name_from(t, k + 1)
    }
}

/// The first function name declared by any of `ls`.
pub open spec fn first_fn_name(ls: Seq<Seq<char>>) -> Option<Seq<char>>
    decreases ls.len(),
{
    if ls.len() == 0 {
        None
    } else {
        match name_from(trim(ls[0]), 0) {
            Some(n) => Some(n),
            None => first_fn_name(ls.drop_first()),
        }
    }
}

/// The first line that is not blank, or the empty string.
pub open spec fn first_nonblank(ls: Seq<Seq<char>>) -> Seq<char>
    decreases ls.len(),
{
    if ls.len() == 0 {
        seq![]
    } else if trim(ls[0]).len() > 0 {
        ls[0]
    } else {
        first_nonblank(ls.drop_first())
    }
}

/// Sort key of a block: its function name, else its first non-blank line.
pub open spec fn fn_name_spec(ls: Seq<Seq<char>>) -> Seq<char> {
    match first_fn_name(ls) {
        Some(n) => n,
        None => first_nonblank(ls),
    }
}

pub open spec fn block_of(ls: Seq<Seq<char>>) -> BlockV {
    BlockV { name: fn_name_spec(ls), lines: ls }
}

/// Added blocks of a patch, in order of appearance.
pub open spec fn blocks_of(p: PatchV) -> Seq<BlockV> {
    hunk_runs(p.hunks).map_values(|ls: Seq<Seq<char>>| block_of(ls))
}

/// Position at which a stable insertion places `x`: after every block whose
/// name is not greater than its name.
pub open spec fn insert_pos(s: Seq<BlockV>, x: BlockV) -> int
    decreases s.len(),
{
    if s.len() == 0 {
        0
    } else if lex_lt(x.name, s[0].name) {
        0
    } else {
        1 + insert_pos(s.drop_first(), x)
    }
}

/// Stable sort of blocks by name (equal names keep their input order).
pub open spec fn sort_blocks(s: Seq<BlockV>) -> Seq<BlockV>
    decreases s.len(),
{
    if s.len() == 0 {
        seq![]
    } else {
        let t = sort_blocks(s.drop_last());
        t.insert(insert_pos(t, s.last()), s.last())
    }
}

/// The lines of the blocks, concatenated.
pub open spec fn block_lines(bs: Seq<BlockV>) -> Seq<Seq<char>>
    decreases bs.len(),
{
    if bs.len() == 0 {
        seq![]
    } else {
        block_lines(bs.drop_last()) + bs.last().lines
    }
}

/// Context lines of a hunk, in order.
pub open spec fn context_lines(ls: Seq<LineV>) -> Seq<LineV>
    decreases ls.len(),
{
    if ls.len() == 0 {
        seq![]
    } else if ls.last().kind == HunkLineKind::Context {
        context_lines(ls.drop_last()).push(ls.last())
    } else {
        context_lines(ls.drop_last())
    }
}

/// Added lines carrying the given contents.
pub open spec fn as_added(cs: Seq<Seq<char>>) -> Seq<LineV> {
    cs.map_values(|c: Seq<char>| LineV { kind: HunkLineKind::Added, content: c })
}

/// The sorted blocks of both patches, for the file `a` describes.
pub open spec fn merged_blocks(a: PatchV, b: PatchV) -> Seq<BlockV> {
    sort_blocks(blocks_of(a) + blocks_of(b))
}

/// Whether the merged hunk's new line count fits in a `u32`.
pub open spec fn merge_fits(a: PatchV, b: PatchV) -> bool {
    a.hunks.len() > 0 ==> a.hunks[0].old_count + block_lines(merged_blocks(a, b)).len()
        <= u32::MAX
}

/// One hunk holding the base's first-hunk context lines followed by the lines
/// of the given blocks as added lines; a patch without hunks is kept as it is.
pub open spec fn build_spec(a: PatchV, blocks: Seq<BlockV>) -> PatchV {
    if a.hunks.len() == 0 {
        a
    } else {
        let first = a.hunks[0];
        let added = block_lines(blocks);
        PatchV {
            path: a.path,
            hunks: seq![
                HunkV {
                    old_start: first.old_start,
                    old_count: first.old_count,
                    new_start: first.old_start,
                    new_count: (first.old_count + added.len()) as u32,
                    lines: context_lines(first.lines) + as_added(added),
                },
            ],
        }
    }
}

/// Merge of two additive patches of one file: every added block of both,
/// sorted by name, after the first hunk's context of `a`.
pub open spec fn merge_two_spec(a: PatchV, b: PatchV) -> PatchV {
    build_spec(a, merged_blocks(a, b))
}

/// The last patch for `path` (a later patch for the same path replaces an
/// earlier one).
pub open spec fn last_patch(ps: Seq<PatchV>, path: Seq<char>) -> Option<PatchV>
    decreases ps.len(),
{
    if ps.len() == 0 {
        None
    } else if ps.last().path == path {
        Some(ps.last())
    } else {
        last_patch(ps.drop_last(), path)
    }
}

/// Whether the merge defers `path`: both sides patch it and one removes lines.
pub open spec fn deferred_for(pa: Seq<PatchV>, pb: Seq<PatchV>, path: Seq<char>) -> bool {
    match (last_patch(pa, path), last_patch(pb, path)) {
        (Some(x), Some(y)) => has_removals(x) || has_removals(y),
        _ => false,
    }
}

/// The merged patch for `path`, if the merge emits one.
pub open spec fn merged_for(pa: Seq<PatchV>, pb: Seq<PatchV>, path: Seq<char>) -> Option<PatchV> {
    match (last_patch(pa, path), last_patch(pb, path)) {
        (Some(x), None) => Some(x),
        (None, Some(y)) => Some(y),
        (Some(x), Some(y)) => if has_removals(x) || has_removals(y) {
            None
        } else {
            Some(merge_two_spec(x, y))
        },
        (None, None) => None,
    }
}

/// Every additive merge of a common path has a line count that fits a `u32`.
pub open spec fn merge_inputs_fit(pa: Seq<PatchV>, pb: Seq<PatchV>) -> bool {
    forall|path: Seq<char>|
        #![trigger last_patch(pa, path), last_patch(pb, path)]
        match (last_patch(pa, path), last_patch(pb, path)) {
            (Some(x), Some(y)) => !(has_removals(x) || has_removals(y)) ==> merge_fits(x, y),
            _ => true,
        }
}

/// Strictly increasing in code-point lexicographic order.
pub open spec fn strictly_sorted(s: Seq<Seq<char>>) -> bool {
    forall|i: int, j: int| 0 <= i < j < s.len() ==> lex_lt(#[trigger] s[i], #[trigger] s[j])
}

/// Paths of a sequence of patches.
pub open spec fn paths_of(ps: Seq<PatchV>) -> Seq<Seq<char>> {
    ps.map_values(|p: PatchV| p.path)
}

struct AddedBlock {
    fn_name: String,
    lines: Vec<String>,
}

spec fn added_block_view(b: AddedBlock) -> BlockV {
    BlockV { name: b.fn_name@, lines: strings_view(b.lines@) }
}

spec fn added_blocks_view(bs: Seq<AddedBlock>) -> Seq<BlockV> {
    bs.map_values(|b: AddedBlock| added_block_view(b))
}

/// A copy of `s`.
fn copy_string(s: &String) -> (r: String)
    ensures
        r@ == s@,
{
    s.clone()
}

/// A copy of a hunk.
fn copy_hunk(h: &DiffHunk) -> (r: DiffHunk)
    ensures
        r@ == h@,
{
    let mut lines: Vec<HunkLine> = Vec::new();
    let mut i: usize = 0;
    while i < h.lines.len()
        invariant
            i <= h.lines@.len(),
            lines_view(lines@) == lines_view(h.lines@.take(i as int)),
        decreases h.lines@.len() - i,
    {
        let ghost before = lines@;
        lines.push(HunkLine { kind: h.lines[i].kind, content: copy_string(&h.lines[i].content) });
        assert(lines_view(lines@) =~= lines_view(before).push(h.lines@[i as int]@));
        assert(h.lines@.take(i + 1) =~= h.lines@.take(i as int).push(h.lines@[i as int]));
        assert(lines_view(h.lines@.take(i + 1)) =~= lines_view(h.lines@.take(i as int)).push(
            h.lines@[i as int]@,
        ));
        i = i + 1;
    }
    assert(h.lines@.take(h.lines@.len() as int) =~= h.lines@);
    DiffHunk {
        old_start: h.old_start,
        old_count: h.old_count,
        new_start: h.new_start,
        new_count: h.new_count,
        lines,
    }
}

/// A copy of a file patch.
fn copy_patch(p: &FilePatch) -> (r: FilePatch)
    ensures
        r@ == p@,
{
    let mut hunks: Vec<DiffHunk> = Vec::new();
    let mut i: usize = 0;
    while i < p.hunks.len()
        invariant
            i <= p.hunks@.len(),
            hunks_view(hunks@) == hunks_view(p.hunks@.take(i as int)),
        decreases p.hunks@.len() - i,
    {
        let ghost before = hunks@;
        hunks.push(copy_hunk(&p.hunks[i]));
        assert(hunks_view(hunks@) =~= hunks_view(before).push(p.hunks@[i as int]@));
        assert(p.hunks@.take(i + 1) =~= p.hunks@.take(i as int).push(p.hunks@[i as int]));
        assert(hunks_view(p.hunks@.take(i + 1)) =~= hunks_view(p.hunks@.take(i as int)).push(
            p.hunks@[i as int]@,
        ));
        i = i + 1;
    }
    assert(p.hunks@.take(p.hunks@.len() as int) =~= p.hunks@);
    FilePatch { path: copy_string(&p.path), hunks }
}

/// Whether any hunk line of the patch is a removal.
fn patch_has_removals(patch: &FilePatch) -> (r: bool)
    ensures
        r == has_removals(patch@),
{
    let mut i: usize = 0;
    while i < patch.hunks.len()
        invariant
            i <= patch.hunks@.len(),
            forall|a: int, b: int|
                0 <= a < i && 0 <= b < patch@.hunks[a].lines.len() ==> (
                #[trigger] patch@.hunks[a].lines[b]).kind != HunkLineKind::Removed,
        decreases patch.hunks@.len() - i,
    {
        let mut j: usize = 0;
        while j < patch.hunks[i].lines.len()
            invariant
                i < patch.hunks@.len(),
                j <= patch.hunks@[i as int].lines@.len(),
                forall|b: int|
                    0 <= b < j ==> (#[trigger] patch@.hunks[i as int].lines[b]).kind
                        != HunkLineKind::Removed,
            decreases patch.hunks@[i as int].lines@.len() - j,
        {
            if patch.hunks[i].lines[j].kind == HunkLineKind::Removed {
                assert(patch@.hunks[i as int].lines[j as int].kind == HunkLineKind::Removed);
                return true;
            }
            j = j + 1;
        }
        i = i + 1;
    }
    false
}

/// The `k`-th function declaration prefix, as characters.
fn fn_prefix_chars(k: usize) -> (r: Vec<char>)
    requires
        k < 4,
    ensures
        r@ == fn_prefix(k as int),
{
    let r = if k == 0 {
        vec!['p', 'u', 'b', ' ', 'a', 's', 'y', 'n', 'c', ' ', 'f', 'n', ' ']
    } else if k == 1 {
        vec!['p', 'u', 'b', ' ', 'f', 'n', ' ']
    } else if k == 2 {
        vec!['a', 's', 'y', 'n', 'c', ' ', 'f', 'n', ' ']
    } else {
        vec!['f', 'n', ' ']
    };
    assert(r@ =~= fn_prefix(k as int));
    r
}

/// The name of the function that a block of added lines defines, else its
/// first non-blank line, else the empty string.
fn extract_fn_name_from_block(lines: &Vec<String>) -> (r: String)
    ensures
        r@ == fn_name_spec(strings_view(lines@)),
{
    let ghost ls = strings_view(lines@);
    let mut i: usize = 0;
    assert(ls.skip(0) =~= ls);
    while i < lines.len()
        invariant
            i <= lines@.len(),
            ls == strings_view(lines@),
            first_fn_name(ls) == first_fn_name(ls.skip(i as int)),
        decreases lines@.len() - i,
    {
        let v = chars_of(lines[i].as_str());
        let (a, b) = trim_range(&v, 0, v.len());
        assert(v@.subrange(0, v@.len() as int) =~= v@);
        let ghost t = v@.subrange(a as int, b as int);
        assert(t == trim(ls[i as int]));
        let mut k: usize = 0;
        while k < 4
            invariant
                k <= 4,
                i < lines@.len(),
                ls == strings_view(lines@),
                first_fn_name(ls) == first_fn_name(ls.skip(i as int)),
                t == trim(ls[i as int]),
                a <= b <= v@.len(),
                t == v@.subrange(a as int, b as int),
                name_from(t, 0) == name_from(t, k as int),
            decreases 4 - k,
        {
            let p = fn_prefix_chars(k);
            if range_has_prefix(&v, a, b, &p) {
                let start = a + p.len();
                let e = ident_prefix_end(&v, start, b);
                assert(t.skip(p@.len() as int) =~= v@.subrange(start as int, b as int));
                if e > start {
                    let name = string_of(&v, start, e);
                    proof {
                        let rest = ls.skip(i as int);
                        assert(rest[0] == ls[i as int]);
                        assert(rest.len() > 0);
                    }
                    return name;
                }
            }
            k = k + 1;
        }
        proof {
            let rest = ls.skip(i as int);
            assert(rest[0] == ls[i as int]);
            assert(rest.drop_first() =~= ls.skip(i + 1));
        }
        i = i + 1;
    }
    assert(first_fn_name(ls) is None);
    let mut j: usize = 0;
    while j < lines.len()
        invariant
            j <= lines@.len(),
            ls == strings_view(lines@),
            first_fn_name(ls) is None,
            first_nonblank(ls) == first_nonblank(ls.skip(j as int)),
        decreases lines@.len() - j,
    {
        let v = chars_of(lines[j].as_str());
        let (a, b) = trim_range(&v, 0, v.len());
        assert(v@.subrange(0, v@.len() as int) =~= v@);
        let ghost rest = ls.skip(j as int);
        assert(rest[0] == ls[j as int]);
        if b > a {
            return copy_string(&lines[j]);
        }
        assert(rest.drop_first() =~= ls.skip(j + 1));
        j = j + 1;
    }
    String::new()
}

/// Splits the added lines of every hunk into maximal runs, each named by
/// the function it defines.
fn collect_added_blocks(patch: &FilePatch) -> (blocks: Vec<AddedBlock>)
    ensures
        added_blocks_view(blocks@) == blocks_of(patch@),
{
    let ghost hs = patch@.hunks;
    let mut blocks: Vec<AddedBlock> = Vec::new();
    let mut h: usize = 0;
    assert(added_blocks_view(blocks@) =~= hunk_runs(hs.take(0)).map_values(
        |ls: Seq<Seq<char>>| block_of(ls),
    ));
    while h < patch.hunks.len()
        invariant
            h <= patch.hunks@.len(),
            hs == patch@.hunks,
            added_blocks_view(blocks@) == hunk_runs(hs.take(h as int)).map_values(
                |ls: Seq<Seq<char>>| block_of(ls),
            ),
        decreases patch.hunks@.len() - h,
    {
        let ghost lsv = hs[h as int].lines;
        let ghost base = hunk_runs(hs.take(h as int));
        let mut cur: Vec<String> = Vec::new();
        let mut l: usize = 0;
        assert(lsv.take(0) =~= Seq::<LineV>::empty());
        assert(strings_view(cur@) =~= Seq::<Seq<char>>::empty());
        assert(base + runs_acc(lsv.take(0)).0 =~= base);
        while l < patch.hunks[h].lines.len()
            invariant
                h < patch.hunks@.len(),
                hs == patch@.hunks,
                lsv == hs[h as int].lines,
                base == hunk_runs(hs.take(h as int)),
                l <= lsv.len(),
                added_blocks_view(blocks@) == (base + runs_acc(lsv.take(l as int)).0).map_values(
                    |ls: Seq<Seq<char>>| block_of(ls),
                ),
                strings_view(cur@) == runs_acc(lsv.take(l as int)).1,
            decreases lsv.len() - l,
        {
            assert(lsv.take(l + 1).drop_last() =~= lsv.take(l as int));
            assert(lsv.take(l + 1).last() == lsv[l as int]);
            let line = &patch.hunks[h].lines[l];
            assert(line@ == lsv[l as int]);
            if line.kind == HunkLineKind::Added {
                let ghost before = cur@;
                cur.push(copy_string(&line.content));
                assert(strings_view(cur@) =~= strings_view(before).push(line.content@));
            } else if cur.len() > 0 {
                let name = extract_fn_name_from_block(&cur);
                let ghost cv = strings_view(cur@);
                let mut taken: Vec<String> = Vec::new();
                std::mem::swap(&mut taken, &mut cur);
                let ghost before = blocks@;
                blocks.push(AddedBlock { fn_name: name, lines: taken });
                assert(added_blocks_view(blocks@) =~= added_blocks_view(before).push(block_of(cv)));
                assert((base + runs_acc(lsv.take(l as int)).0.push(cv)) =~= (base + runs_acc(
                    lsv.take(l as int),
                ).0).push(cv));
                assert(strings_view(cur@) =~= Seq::<Seq<char>>::empty());
            } else {
                assert(strings_view(cur@) =~= Seq::<Seq<char>>::empty());
            }
            l = l + 1;
        }
        assert(lsv.take(lsv.len() as int) =~= lsv);
        assert(hs.take(h + 1).drop_last() =~= hs.take(h as int));
        assert(hs.take(h + 1).last() == hs[h as int]);
        if cur.len() > 0 {
            let name = extract_fn_name_from_block(&cur);
            let ghost cv = strings_view(cur@);
            let ghost before = blocks@;
            blocks.push(AddedBlock { fn_name: name, lines: cur });
            assert(added_blocks_view(blocks@) =~= added_blocks_view(before).push(block_of(cv)));
            assert(runs_of(lsv) == runs_acc(lsv).0.push(cv));
            assert((base + runs_acc(lsv).0.push(cv)) =~= (base + runs_acc(lsv).0).push(cv));
            assert(hunk_runs(hs.take(h + 1)) == base + runs_of(lsv));
            assert(added_blocks_view(blocks@) =~= hunk_runs(hs.take(h + 1)).map_values(
                |ls: Seq<Seq<char>>| block_of(ls),
            ));
        } else {
            assert(runs_of(lsv) == runs_acc(lsv).0);
            assert(added_blocks_view(blocks@) =~= hunk_runs(hs.take(h + 1)).map_values(
                |ls: Seq<Seq<char>>| block_of(ls),
            ));
        }
        h = h + 1;
    }
    assert(hs.take(hs.len() as int) =~= hs);
    blocks
}

/// Stable sort of blocks by name.
fn sort_added_blocks(input: Vec<AddedBlock>) -> (out: Vec<AddedBlock>)
    ensures
        added_blocks_view(out@) == sort_blocks(added_blocks_view(input@)),
{
    let ghost orig = added_blocks_view(input@);
    let mut rest = input;
    let n = rest.len();
    let mut out: Vec<AddedBlock> = Vec::new();
    let mut i: usize = 0;
    assert(orig.take(0) =~= Seq::<BlockV>::empty());
    assert(added_blocks_view(out@) =~= Seq::<BlockV>::empty());
    assert(added_blocks_view(rest@) =~= orig.skip(0));
    while rest.len() > 0
        invariant
            i <= orig.len(),
            orig.len() == n,
            rest@.len() == orig.len() - i,
            added_blocks_view(rest@) == orig.skip(i as int),
            added_blocks_view(out@) == sort_blocks(orig.take(i as int)),
        decreases rest@.len(),
    {
        let ghost before_rest = rest@;
        let x = rest.remove(0);
        assert(added_blocks_view(rest@) =~= added_blocks_view(before_rest).drop_first());
        assert(orig.skip(i as int).drop_first() =~= orig.skip(i + 1));
        let ghost xv = added_block_view(x);
        assert(x == before_rest[0]);
        assert(added_blocks_view(before_rest)[0] == xv);
        assert(orig.skip(i as int)[0] == orig[i as int]);
        assert(xv == orig[i as int]);
        let ghost t = added_blocks_view(out@);
        let key = chars_of(x.fn_name.as_str());
        let mut j: usize = 0;
        let mut done = false;
        assert(t.skip(0) =~= t);
        while !done && j < out.len()
            invariant
                j <= out@.len(),
                t == added_blocks_view(out@),
                key@ == xv.name,
                insert_pos(t, xv) == j + insert_pos(t.skip(j as int), xv),
                done ==> insert_pos(t.skip(j as int), xv) == 0,
            decreases out@.len() - j + (if done { 0int } else { 1int }),
        {
            let other = chars_of(out[j].fn_name.as_str());
            assert(t[j as int].name == other@);
            assert(t.skip(j as int)[0] == t[j as int]);
            if lex_less(&key, &other) {
                done = true;
            } else {
                assert(t.skip(j as int).drop_first() =~= t.skip(j + 1));
                j = j + 1;
            }
        }
        proof {
            if !done {
                assert(t.skip(j as int) =~= Seq::<BlockV>::empty());
            }
        }
        assert(insert_pos(t, xv) == j);
        let ghost before_out = out@;
        out.insert(j, x);
        assert(added_blocks_view(out@) =~= t.insert(j as int, xv));
        assert(orig.take(i + 1).drop_last() =~= orig.take(i as int));
        assert(orig.take(i + 1).last() == xv);
        i = i + 1;
    }
    assert(orig.skip(i as int).len() == 0);
    assert(orig.take(i as int) =~= orig);
    out
}

/// Builds the single merged hunk from the base patch and the sorted blocks.
fn build_merged_file_patch(base_patch: &FilePatch, sorted_blocks: &Vec<AddedBlock>) -> (r: FilePatch)
    requires
        base_patch@.hunks.len() > 0 ==> base_patch@.hunks[0].old_count + block_lines(
            added_blocks_view(sorted_blocks@),
        ).len() <= u32::MAX,
    ensures
        r@ == build_spec(base_patch@, added_blocks_view(sorted_blocks@)),
{
    if base_patch.hunks.len() == 0 {
        return copy_patch(base_patch);
    }
    let first_hunk = &base_patch.hunks[0];
    let ghost fl = first_hunk@.lines;
    let ghost bv = added_blocks_view(sorted_blocks@);
    let mut merged_lines: Vec<HunkLine> = Vec::new();
    let mut k: usize = 0;
    assert(lines_view(merged_lines@) =~= context_lines(fl.take(0)));
    while k < first_hunk.lines.len()
        invariant
            k <= fl.len(),
            fl == first_hunk@.lines,
            lines_view(merged_lines@) == context_lines(fl.take(k as int)),
        decreases fl.len() - k,
    {
        assert(fl.take(k + 1).drop_last() =~= fl.take(k as int));
        assert(fl.take(k + 1).last() == fl[k as int]);
        if first_hunk.lines[k].kind == HunkLineKind::Context {
            let ghost before = merged_lines@;
            merged_lines.push(
                HunkLine {
                    kind: HunkLineKind::Context,
                    content: copy_string(&first_hunk.lines[k].content),
                },
            );
            assert(lines_view(merged_lines@) =~= lines_view(before).push(fl[k as int]));
        }
        k = k + 1;
    }
    assert(fl.take(fl.len() as int) =~= fl);
    let ghost ctx = context_lines(fl);
    let mut added_count: u64 = 0;
    let mut bi: usize = 0;
    assert(bv.take(0) =~= Seq::<BlockV>::empty());
    assert(ctx + as_added(block_lines(bv.take(0))) =~= ctx);
    while bi < sorted_blocks.len()
        invariant
            bi <= bv.len(),
            bv == added_blocks_view(sorted_blocks@),
            base_patch@.hunks[0].old_count + block_lines(bv).len() <= u32::MAX,
            lines_view(merged_lines@) == ctx + as_added(block_lines(bv.take(bi as int))),
            added_count == block_lines(bv.take(bi as int)).len(),
            block_lines(bv.take(bi as int)).len() <= block_lines(bv).len(),
        decreases bv.len() - bi,
    {
        let block = &sorted_blocks[bi];
        let ghost bl = bv[bi as int].lines;
        let ghost pre = block_lines(bv.take(bi as int));
        assert(bv.take(bi + 1).drop_last() =~= bv.take(bi as int));
        assert(bv.take(bi + 1).last() == bv[bi as int]);
        assert(block_lines(bv.take(bi + 1)) == pre + bl);
        proof {
            lemma_block_lines_prefix(bv, bi as int + 1);
        }
        let mut li: usize = 0;
        assert(pre + bl.take(0) =~= pre);
        while li < block.lines.len()
            invariant
                li <= bl.len(),
                bl == strings_view(block.lines@),
                lines_view(merged_lines@) == ctx + as_added(pre + bl.take(li as int)),
                added_count == (pre + bl.take(li as int)).len(),
                pre.len() + bl.len() <= u32::MAX,
            decreases bl.len() - li,
        {
            let ghost before = merged_lines@;
            merged_lines.push(
                HunkLine { kind: HunkLineKind::Added, content: copy_string(&block.lines[li]) },
            );
            assert(pre + bl.take(li + 1) =~= (pre + bl.take(li as int)).push(bl[li as int]));
            assert(as_added(pre + bl.take(li + 1)) =~= as_added(pre + bl.take(li as int)).push(
                LineV { kind: HunkLineKind::Added, content: bl[li as int] },
            ));
            assert(lines_view(merged_lines@) =~= lines_view(before).push(
                LineV { kind: HunkLineKind::Added, content: bl[li as int] },
            ));
            added_count = added_count + 1;
            li = li + 1;
        }
        assert(bl.take(bl.len() as int) =~= bl);
        bi = bi + 1;
    }
    assert(bv.take(bv.len() as int) =~= bv);
    let new_count = (first_hunk.old_count as u64 + added_count) as u32;
    let mut hunks: Vec<DiffHunk> = Vec::new();
    let merged_hunk = DiffHunk {
        old_start: first_hunk.old_start,
        old_count: first_hunk.old_count,
        new_start: first_hunk.old_start,
        new_count,
        lines: merged_lines,
    };
    let ghost hv = merged_hunk@;
    hunks.push(merged_hunk);
    assert(hunks_view(hunks@) =~= seq![hv]);
    FilePatch { path: copy_string(&base_patch.path), hunks }
}

proof fn lemma_block_lines_prefix(bs: Seq<BlockV>, k: int)
    requires
        0 <= k <= bs.len(),
    ensures
        block_lines(bs.take(k)).len() <= block_lines(bs).len(),
    decreases bs.len() - k,
{
    if k < bs.len() {
        lemma_block_lines_prefix(bs, k + 1);
        assert(bs.take(k + 1).drop_last() =~= bs.take(k));
    } else {
        assert(bs.take(k) =~= bs);
    }
}

/// Merges two additive patches of the same file.
fn merge_two_additive_file_patches(patch_a: &FilePatch, patch_b: &FilePatch) -> (r: FilePatch)
    requires
        merge_fits(patch_a@, patch_b@),
    ensures
        r@ == merge_two_spec(patch_a@, patch_b@),
{
    let mut blocks_a = collect_added_blocks(patch_a);
    let mut blocks_b = collect_added_blocks(patch_b);
    let ghost va = added_blocks_view(blocks_a@);
    let ghost vb = added_blocks_view(blocks_b@);
    let mut all_blocks: Vec<AddedBlock> = Vec::new();
    all_blocks.append(&mut blocks_a);
    all_blocks.append(&mut blocks_b);
    assert(added_blocks_view(all_blocks@) =~= va + vb);
    let sorted = sort_added_blocks(all_blocks);
    build_merged_file_patch(patch_a, &sorted)
}

/// Index of the last patch for `path`.
fn find_last(patches: &Vec<FilePatch>, path: &String) -> (r: Option<usize>)
    ensures
        match last_patch(patches_view(patches@), path@) {
            Some(x) => r matches Some(i) && i < patches@.len() && patches@[i as int]@ == x,
            None => r is None,
        },
{
    let ghost ps = patches_view(patches@);
    let mut j = patches.len();
    assert(ps.take(j as int) =~= ps);
    while j > 0
        invariant
            j <= patches@.len(),
            ps == patches_view(patches@),
            last_patch(ps, path@) == last_patch(ps.take(j as int), path@),
        decreases j,
    {
        assert(ps.take(j as int).last() == patches@[j - 1]@);
        if patches[j - 1].path == *path {
            return Some(j - 1);
        }
        assert(ps.take(j as int).drop_last() =~= ps.take(j - 1));
        j = j - 1;
    }
    None
}

/// A `last_patch` result is one of the patches, with the requested path.
proof fn lemma_last_patch_member(ps: Seq<PatchV>, path: Seq<char>)
    ensures
        last_patch(ps, path) matches Some(x) ==> x.path == path && paths_of(ps).contains(path),
    decreases ps.len(),
{
    if ps.len() > 0 {
        lemma_last_patch_member(ps.drop_last(), path);
        if ps.last().path == path {
            assert(paths_of(ps)[ps.len() - 1] == path);
        } else if let Some(x) = last_patch(ps.drop_last(), path) {
            let k = choose|k: int| 0 <= k < paths_of(ps.drop_last()).len() && paths_of(ps.drop_last())[k] == path;
            assert(paths_of(ps)[k] == path);
        }
    }
}

/// Membership after appending one element.
proof fn lemma_push_contains(s: Seq<Seq<char>>, x: Seq<char>)
    ensures
        forall|q: Seq<char>| #[trigger] s.push(x).contains(q) <==> (s.contains(q) || q == x),
{
    assert forall|q: Seq<char>| #[trigger] s.push(x).contains(q) <==> (s.contains(q) || q == x) by {
        if s.push(x).contains(q) {
            let k = choose|k: int| 0 <= k < s.push(x).len() && s.push(x)[k] == q;
            if k < s.len() {
                assert(s[k] == q);
            }
        }
        if s.contains(q) {
            let k = choose|k: int| 0 <= k < s.len() && s[k] == q;
            assert(s.push(x)[k] == q);
        }
        if q == x {
            assert(s.push(x)[s.len() as int] == q);
        }
    }
}

/// Inserts `p` into a strictly sorted list of paths unless it is present.
pub(crate) fn insert_path_sorted(list: &mut Vec<String>, p: String)
    requires
        strictly_sorted(strings_view(old(list)@)),
    ensures
        strictly_sorted(strings_view(final(list)@)),
        forall|q: Seq<char>|
            strings_view(final(list)@).contains(q) <==> (strings_view(old(list)@).contains(q)
                || q == p@),
{
    let ghost s = strings_view(list@);
    let key = chars_of(p.as_str());
    let mut j: usize = 0;
    let mut done = false;
    while !done && j < list.len()
        invariant
            j <= list@.len(),
            s == strings_view(list@),
            key@ == p@,
            forall|k: int| 0 <= k < j ==> lex_lt(#[trigger] s[k], p@),
            done ==> j < list@.len() && !lex_lt(s[j as int], p@),
        decreases list@.len() - j + (if done { 0int } else { 1int }),
    {
        let other = chars_of(list[j].as_str());
        if lex_less(&other, &key) {
            j = j + 1;
        } else {
            done = true;
        }
    }
    if done && list[j] == p {
        assert(s[j as int] == p@);
        return;
    }
    proof {
        if done {
            lemma_lex_total(s[j as int], p@);
            assert(lex_lt(p@, s[j as int]));
            assert forall|k: int| j <= k < s.len() implies lex_lt(p@, #[trigger] s[k]) by {
                if k > j {
                    lemma_lex_transitive(p@, s[j as int], s[k]);
                }
            }
        }
    }
    list.insert(j, p);
    let ghost t = strings_view(list@);
    assert(t =~= s.insert(j as int, p@));
    assert forall|a: int, c: int| 0 <= a < c < t.len() implies lex_lt(#[trigger] t[a], #[trigger] t[c]) by {
        if c < j {
        } else if c == j {
        } else if a < j {
            lemma_lex_transitive(t[a], p@, t[c]);
        } else if a == j {
        } else {
        }
    }
    assert forall|q: Seq<char>| t.contains(q) <==> (s.contains(q) || q == p@) by {
        if t.contains(q) {
            let k = choose|k: int| 0 <= k < t.len() && t[k] == q;
            if k < j {
                assert(s[k] == q);
            } else if k > j {
                assert(s[k - 1] == q);
            }
        }
        if s.contains(q) {
            let k = choose|k: int| 0 <= k < s.len() && s[k] == q;
            if k < j {
                assert(t[k] == q);
            } else {
                assert(t[k + 1] == q);
            }
        }
        if q == p@ {
            assert(t[j as int] == q);
        }
    }
}

/// Merges two unified diffs semantically.
///
/// For each file present in both diffs: if both are purely additive (no removed
/// lines), added function blocks are unioned and sorted alphabetically by symbol
/// name. If either diff has removed lines, the file path is added to
/// `deferred_paths`. Files appearing in only one diff pass through unmodified.
/// Both lists are ordered by path.
pub fn merge_additive_patches(diff_a: &str, diff_b: &str) -> (r: MergeResult)
    requires
        merge_inputs_fit(parse_diff_spec(diff_a@), parse_diff_spec(diff_b@)),
    ensures
        ({
            let pa = parse_diff_spec(diff_a@);
            let pb = parse_diff_spec(diff_b@);
            let merged = patches_view(r.merged_patches@);
            let deferred = strings_view(r.deferred_paths@);
            &&& strictly_sorted(deferred)
            &&& forall|path: Seq<char>| deferred.contains(path) <==> deferred_for(pa, pb, path)
            &&& strictly_sorted(paths_of(merged))
            &&& forall|i: int|
                0 <= i < merged.len() ==> merged_for(pa, pb, (#[trigger] merged[i]).path) == Some(
                    merged[i],
                )
            &&& forall|path: Seq<char>|
                (#[trigger] merged_for(pa, pb, path)) is Some ==> paths_of(merged).contains(path)
        }),
{
    let patches_a = parse_unified_diff(diff_a);
    let patches_b = parse_unified_diff(diff_b);
    let ghost pa = patches_view(patches_a@);
    let ghost pb = patches_view(patches_b@);
    let mut all_paths: Vec<String> = Vec::new();
    let mut i: usize = 0;
    assert(strings_view(all_paths@) =~= Seq::<Seq<char>>::empty());
    while i < patches_a.len()
        invariant
            i <= patches_a@.len(),
            pa == patches_view(patches_a@),
            strictly_sorted(strings_view(all_paths@)),
            forall|q: Seq<char>|
                strings_view(all_paths@).contains(q) <==> paths_of(pa.take(i as int)).contains(q),
        decreases patches_a@.len() - i,
    {
        insert_path_sorted(&mut all_paths, copy_string(&patches_a[i].path));
        assert(paths_of(pa.take(i + 1)) =~= paths_of(pa.take(i as int)).push(pa[i as int].path));
        proof {
            lemma_push_contains(paths_of(pa.take(i as int)), pa[i as int].path);
        }
        i = i + 1;
    }
    assert(pa.take(pa.len() as int) =~= pa);
    let mut i: usize = 0;
    while i < patches_b.len()
        invariant
            i <= patches_b@.len(),
            pb == patches_view(patches_b@),
            strictly_sorted(strings_view(all_paths@)),
            forall|q: Seq<char>|
                #![trigger strings_view(all_paths@).contains(q)]
                strings_view(all_paths@).contains(q) <==> (paths_of(pa).contains(q) || paths_of(
                    pb.take(i as int),
                ).contains(q)),
        decreases patches_b@.len() - i,
    {
        let ghost before = strings_view(all_paths@);
        let cp = copy_string(&patches_b[i].path);
        assert(cp@ == pb[i as int].path);
        insert_path_sorted(&mut all_paths, cp);
        assert(paths_of(pb.take(i + 1)) =~= paths_of(pb.take(i as int)).push(pb[i as int].path));
        proof {
            lemma_push_contains(paths_of(pb.take(i as int)), pb[i as int].path);
            assert forall|q: Seq<char>|
                strings_view(all_paths@).contains(q) <==> (paths_of(pa).contains(q) || paths_of(
                    pb.take(i + 1),
                ).contains(q)) by {
                assert(paths_of(pb.take(i + 1)).contains(q) <==> (paths_of(pb.take(i as int)).contains(q)
                    || q == pb[i as int].path));
                assert(before.contains(q) <==> (paths_of(pa).contains(q) || paths_of(pb.take(i as int)).contains(q)));
            }
        }
        i = i + 1;
    }
    assert(pb.take(pb.len() as int) =~= pb);
    let ghost ap = strings_view(all_paths@);
    let mut merged_patches: Vec<FilePatch> = Vec::new();
    let mut deferred_paths: Vec<String> = Vec::new();
    let mut k: usize = 0;
    while k < all_paths.len()
        invariant
            k <= ap.len(),
            ap == strings_view(all_paths@),
            pa == patches_view(patches_a@),
            pb == patches_view(patches_b@),
            merge_inputs_fit(pa, pb),
            strictly_sorted(ap),
            forall|q: Seq<char>| ap.contains(q) <==> (paths_of(pa).contains(q) || paths_of(pb).contains(q)),
            strictly_sorted(strings_view(deferred_paths@)),
            strictly_sorted(paths_of(patches_view(merged_patches@))),
            forall|d: int|
                0 <= d < deferred_paths@.len() ==> exists|t: int|
                    0 <= t < k && ap[t] == (#[trigger] deferred_paths@[d])@,
            forall|d: int|
                0 <= d < merged_patches@.len() ==> exists|t: int|
                    0 <= t < k && ap[t] == (#[trigger] merged_patches@[d])@.path,
            forall|d: int|
                0 <= d < deferred_paths@.len() ==> deferred_for(pa, pb, (#[trigger] deferred_paths@[d])@),
            forall|d: int|
                0 <= d < merged_patches@.len() ==> merged_for(
                    pa,
                    pb,
                    (#[trigger] merged_patches@[d])@.path,
                ) == Some(merged_patches@[d]@),
            forall|t: int|
                0 <= t < k && deferred_for(pa, pb, #[trigger] ap[t]) ==> strings_view(
                    deferred_paths@,
                ).contains(ap[t]),
            forall|t: int|
                0 <= t < k && merged_for(pa, pb, #[trigger] ap[t]) is Some ==> paths_of(
                    patches_view(merged_patches@),
                ).contains(ap[t]),
        decreases ap.len() - k,
    {
        let path = &all_paths[k];
        let ga = find_last(&patches_a, path);
        let gb = find_last(&patches_b, path);
        let ghost before_m = patches_view(merged_patches@);
        let ghost before_d = strings_view(deferred_paths@);
        proof {
            lemma_last_patch_member(pa, ap[k as int]);
            lemma_last_patch_member(pb, ap[k as int]);
        }
        match (ga, gb) {
            (Some(ia), None) => {
                merged_patches.push(copy_patch(&patches_a[ia]));
            },
            (None, Some(ib)) => {
                merged_patches.push(copy_patch(&patches_b[ib]));
            },
            (Some(ia), Some(ib)) => {
                if patch_has_removals(&patches_a[ia]) || patch_has_removals(&patches_b[ib]) {
                    deferred_paths.push(copy_string(path));
                } else {
                    assert(merge_fits(patches_a@[ia as int]@, patches_b@[ib as int]@)) by {
                        let q = ap[k as int];
                        assert(last_patch(pa, q) == Some(patches_a@[ia as int]@));
                        assert(last_patch(pb, q) == Some(patches_b@[ib as int]@));
                    }
                    merged_patches.push(
                        merge_two_additive_file_patches(&patches_a[ia], &patches_b[ib]),
                    );
                }
            },
            (None, None) => {},
        }
        let ghost after_m = patches_view(merged_patches@);
        let ghost after_d = strings_view(deferred_paths@);
        proof {
            let q = ap[k as int];
            assert forall|d: int| 0 <= d < before_d.len() implies lex_lt(before_d[d], q) by {
                let t = choose|t: int| 0 <= t < k && ap[t] == (#[trigger] deferred_paths@[d])@;
                assert(deferred_paths@[d]@ == before_d[d]);
            }
            assert forall|d: int| 0 <= d < before_m.len() implies lex_lt(before_m[d].path, q) by {
                let t = choose|t: int| 0 <= t < k && ap[t] == (#[trigger] merged_patches@[d])@.path;
                assert(merged_patches@[d]@ == before_m[d]);
            }
            if after_m.len() > before_m.len() {
                assert(after_m =~= before_m.push(after_m.last()));
                assert(after_m.last().path == q);
                assert(paths_of(after_m) =~= paths_of(before_m).push(q));
                lemma_push_contains(paths_of(before_m), q);
            } else {
                assert(after_m =~= before_m);
            }
            if after_d.len() > before_d.len() {
                assert(after_d =~= before_d.push(q));
                lemma_push_contains(before_d, q);
            } else {
                assert(after_d =~= before_d);
            }
        }
        k = k + 1;
    }
    proof {
        let merged = patches_view(merged_patches@);
        let deferred = strings_view(deferred_paths@);
        assert forall|path: Seq<char>| deferred.contains(path) <==> deferred_for(pa, pb, path) by {
            if deferred.contains(path) {
                let d = choose|d: int| 0 <= d < deferred.len() && deferred[d] == path;
                assert(deferred_paths@[d]@ == path);
            }
            if deferred_for(pa, pb, path) {
                lemma_last_patch_member(pa, path);
                assert(ap.contains(path));
                let t = choose|t: int| 0 <= t < ap.len() && ap[t] == path;
                assert(deferred_for(pa, pb, ap[t]));
            }
        }
        assert forall|i: int| 0 <= i < merged.len() implies merged_for(pa, pb, (#[trigger] merged[i]).path)
            == Some(merged[i]) by {
            assert(merged_patches@[i]@ == merged[i]);
        }
        assert forall|path: Seq<char>| (#[trigger] merged_for(pa, pb, path)) is Some implies paths_of(
            merged,
        ).contains(path) by {
            lemma_last_patch_member(pa, path);
            lemma_last_patch_member(pb, path);
            assert(ap.contains(path));
            let t = choose|t: int| 0 <= t < ap.len() && ap[t] == path;
            assert(merged_for(pa, pb, ap[t]) is Some);
        }
    }
    MergeResult { merged_patches, deferred_paths }
}

// ---------------------------------------------------------------------------
// Laws
// ---------------------------------------------------------------------------

/// Names in order: no later block's name precedes an earlier one's.
pub open spec fn names_ordered(s: Seq<BlockV>) -> bool {
    forall|i: int, j: int| 0 <= i < j < s.len() ==> !lex_lt(#[trigger] s[j].name, #[trigger] s[i].name)
}

proof fn lemma_insert_pos(t: Seq<BlockV>, x: BlockV)
    ensures
        0 <= insert_pos(t, x) <= t.len(),
        forall|k: int| 0 <= k < insert_pos(t, x) ==> !lex_lt(x.name, #[trigger] t[k].name),
        insert_pos(t, x) < t.len() ==> lex_lt(x.name, t[insert_pos(t, x)].name),
    decreases t.len(),
{
    if t.len() > 0 && !lex_lt(x.name, t[0].name) {
        lemma_insert_pos(t.drop_first(), x);
        assert forall|k: int| 0 <= k < insert_pos(t, x) implies !lex_lt(x.name, #[trigger] t[k].name) by {
            if k > 0 {
                assert(t[k] == t.drop_first()[k - 1]);
            }
        }
    }
}

/// Sorting blocks orders them by name.
pub proof fn lemma_sort_blocks_ordered(s: Seq<BlockV>)
    ensures
        names_ordered(sort_blocks(s)),
    decreases s.len(),
{
    if s.len() > 0 {
        let t = sort_blocks(s.drop_last());
        let x = s.last();
        lemma_sort_blocks_ordered(s.drop_last());
        lemma_insert_pos(t, x);
        let pos = insert_pos(t, x);
        let u = t.insert(pos, x);
        assert forall|i: int, j: int| 0 <= i < j < u.len() implies !lex_lt(#[trigger] u[j].name, #[trigger] u[i].name) by {
            if j < pos {
                assert(u[i] == t[i] && u[j] == t[j]);
            } else if j == pos {
                assert(u[i] == t[i]);
                assert(u[j] == x);
            } else if i < pos {
                assert(u[i] == t[i] && u[j] == t[j - 1]);
            } else if i == pos {
                assert(u[i] == x);
                assert(u[j] == t[j - 1]);
                if lex_lt(t[j - 1].name, x.name) {
                    lemma_lex_transitive(t[j - 1].name, x.name, t[pos].name);
                    if j - 1 == pos {
                        lemma_lex_irreflexive(t[pos].name);
                    }
                }
            } else {
                assert(u[i] == t[i - 1] && u[j] == t[j - 1]);
            }
        }
    }
}

/// Sorting blocks keeps exactly the blocks it was given.
pub proof fn lemma_sort_blocks_permutes(s: Seq<BlockV>)
    ensures
        sort_blocks(s).to_multiset() == s.to_multiset(),
    decreases s.len(),
{
    if s.len() > 0 {
        let t = sort_blocks(s.drop_last());
        lemma_sort_blocks_permutes(s.drop_last());
        lemma_insert_pos(t, s.last());
        vstd::seq_lib::to_multiset_insert(t, insert_pos(t, s.last()), s.last());
        vstd::seq_lib::to_multiset_build(s.drop_last(), s.last());
        assert(s.drop_last().push(s.last()) =~= s);
        assert(sort_blocks(s) == t.insert(insert_pos(t, s.last()), s.last()));
        assert(sort_blocks(s).to_multiset() == t.to_multiset().insert(s.last()));
        assert(s.to_multiset() == s.drop_last().to_multiset().insert(s.last()));
    } else {
        assert(s =~= sort_blocks(s));
    }
}

/// The additive merge of two patches of one file holds every added block of
/// both, each once, ordered alphabetically by the function it defines.
pub proof fn merged_blocks_are_sorted_union(a: PatchV, b: PatchV)
    ensures
        names_ordered(merged_blocks(a, b)),
        merged_blocks(a, b).to_multiset() == (blocks_of(a) + blocks_of(b)).to_multiset(),
{
    lemma_sort_blocks_ordered(blocks_of(a) + blocks_of(b));
    lemma_sort_blocks_permutes(blocks_of(a) + blocks_of(b));
}

/// Every path that either diff patches is either merged or deferred, never
/// both; no other path appears in the result.
pub proof fn merge_partitions_paths(pa: Seq<PatchV>, pb: Seq<PatchV>, path: Seq<char>)
    ensures
        !(deferred_for(pa, pb, path) && merged_for(pa, pb, path) is Some),
        (paths_of(pa).contains(path) || paths_of(pb).contains(path)) <==> (deferred_for(
            pa,
            pb,
            path,
        ) || merged_for(pa, pb, path) is Some),
{
    lemma_last_patch_member(pa, path);
    lemma_last_patch_member(pb, path);
    lemma_last_patch_present(pa, path);
    lemma_last_patch_present(pb, path);
}

proof fn lemma_last_patch_present(ps: Seq<PatchV>, path: Seq<char>)
    ensures
        paths_of(ps).contains(path) ==> last_patch(ps, path) is Some,
    decreases ps.len(),
{
    if ps.len() > 0 {
        lemma_last_patch_present(ps.drop_last(), path);
        if paths_of(ps).contains(path) && ps.last().path != path {
            let k = choose|k: int| 0 <= k < paths_of(ps).len() && paths_of(ps)[k] == path;
            assert(k < ps.len() - 1);
            assert(paths_of(ps.drop_last())[k] == path);
        }
    }
}

/// Merging with a diff that patches nothing passes every patch through
/// unchanged (the last patch of a path standing for it) and defers nothing.
pub proof fn merge_with_empty_passes_through(pa: Seq<PatchV>, path: Seq<char>)
    ensures
        merged_for(pa, seq![], path) == last_patch(pa, path),
        !deferred_for(pa, seq![], path),
{
}

/// The empty text holds no patch.
pub proof fn parse_of_empty_text()
    ensures
        parse_diff_spec(seq![]) == Seq::<PatchV>::empty(),
{
    assert(lines_of(seq![]) =~= Seq::<Seq<char>>::empty());
}

/// Patches whose hunk lists are all non-empty.
pub open spec fn all_have_hunks(ps: Seq<PatchV>) -> bool {
    forall|i: int| 0 <= i < ps.len() ==> (#[trigger] ps[i]).hunks.len() > 0
}

proof fn lemma_read_lines_have_hunks(ls: Seq<Seq<char>>)
    ensures
        all_have_hunks(read_lines(ls).patches),
    decreases ls.len(),
{
    if ls.len() > 0 {
        lemma_read_lines_have_hunks(ls.drop_last());
    }
}

/// A parsed patch always carries at least one hunk.
pub proof fn parsed_patches_have_hunks(text: Seq<char>)
    ensures
        all_have_hunks(parse_diff_spec(text)),
{
    lemma_read_lines_have_hunks(lines_of(text));
}


proof fn lemma_last_patch_distinct(ps: Seq<PatchV>, path: Seq<char>)
    requires
        paths_of(ps).no_duplicates(),
    ensures
        last_patch(ps, path) matches Some(x) ==> ps.contains(x) && x.path == path,
        forall|i: int| 0 <= i < ps.len() && ps[i].path == path ==> last_patch(ps, path) == Some(ps[i]),
    decreases ps.len(),
{
    if ps.len() > 0 {
        let init = ps.drop_last();
        assert(paths_of(init) =~= paths_of(ps).drop_last());
        lemma_last_patch_distinct(init, path);
        if let Some(x) = last_patch(init, path) {
            let k = choose|k: int| 0 <= k < init.len() && init[k] == x;
            assert(ps[k] == x);
        }
        assert forall|i: int| 0 <= i < ps.len() && ps[i].path == path implies last_patch(ps, path) == Some(ps[i]) by {
            if i < ps.len() - 1 && ps.last().path == path {
                assert(paths_of(ps)[i] == paths_of(ps)[ps.len() - 1]);
            }
            if i < ps.len() - 1 {
                assert(init[i] == ps[i]);
            }
        }
    }
}

proof fn lemma_sorted_paths_distinct(s: Seq<Seq<char>>)
    requires
        strictly_sorted(s),
    ensures
        s.no_duplicates(),
{
    assert forall|i: int, j: int| 0 <= i < s.len() && 0 <= j < s.len() && i != j implies s[i] != s[j] by {
        if i < j {
            lemma_lex_irreflexive(s[i]);
            assert(lex_lt(s[i], s[j]));
        } else {
            lemma_lex_irreflexive(s[j]);
            assert(lex_lt(s[j], s[i]));
        }
    }
}

/// A merge against nothing passes one side through: when the patches of
/// `pa` name distinct paths, any merge result that meets the merge
/// contract with the other side empty (paths ascending, each patch the
/// merge of its path, every merged path present) holds exactly the patches
/// of `pa`, each unchanged, and defers nothing. The same holds with the
/// sides swapped.
pub proof fn merge_with_empty_side_keeps_the_patches(pa: Seq<PatchV>, merged: Seq<PatchV>, empty_first: bool)
    requires
        paths_of(pa).no_duplicates(),
        strictly_sorted(paths_of(merged)),
        forall|i: int|
            0 <= i < merged.len() ==> (if empty_first {
                merged_for(seq![], pa, (#[trigger] merged[i]).path)
            } else {
                merged_for(pa, seq![], merged[i].path)
            }) == Some(merged[i]),
        forall|path: Seq<char>|
            (if empty_first {
                #[trigger] merged_for(seq![], pa, path)
            } else {
                merged_for(pa, seq![], path)
            }) is Some ==> paths_of(merged).contains(path),
    ensures
        merged.len() == pa.len(),
        forall|i: int| 0 <= i < pa.len() ==> merged.contains(#[trigger] pa[i]),
        forall|k: int| 0 <= k < merged.len() ==> pa.contains(#[trigger] merged[k]),
        forall|path: Seq<char>| !deferred_for(pa, seq![], path) && !deferred_for(seq![], pa, path),
{
    lemma_sorted_paths_distinct(paths_of(merged));
    assert forall|path: Seq<char>| #[trigger] last_patch(Seq::<PatchV>::empty(), path) is None by {}
    assert forall|k: int| 0 <= k < merged.len() implies pa.contains(#[trigger] merged[k]) by {
        lemma_last_patch_distinct(pa, merged[k].path);
        assert(last_patch(Seq::<PatchV>::empty(), merged[k].path) is None);
    }
    assert forall|i: int| 0 <= i < pa.len() implies merged.contains(#[trigger] pa[i]) by {
        lemma_last_patch_distinct(pa, pa[i].path);
        assert(last_patch(Seq::<PatchV>::empty(), pa[i].path) is None);
        let p = pa[i].path;
        if empty_first {
            assert(merged_for(seq![], pa, p) is Some);
        } else {
            assert(merged_for(pa, seq![], p) is Some);
        }
        assert(paths_of(merged).contains(p));
        let k = choose|k: int| 0 <= k < paths_of(merged).len() && paths_of(merged)[k] == p;
        assert(merged[k].path == p);
        if empty_first {
            assert(merged_for(seq![], pa, merged[k].path) == Some(merged[k]));
        } else {
            assert(merged_for(pa, seq![], merged[k].path) == Some(merged[k]));
        }
        assert(merged[k] == pa[i]);
    }
    assert(paths_of(merged).to_set() =~= paths_of(pa).to_set()) by {
        assert forall|p: Seq<char>| paths_of(merged).to_set().contains(p) implies paths_of(pa).to_set().contains(p) by {
            let k = choose|k: int| 0 <= k < paths_of(merged).len() && paths_of(merged)[k] == p;
            assert(pa.contains(merged[k]));
            let i = choose|i: int| 0 <= i < pa.len() && pa[i] == merged[k];
            assert(paths_of(pa)[i] == p);
        }
        assert forall|p: Seq<char>| paths_of(pa).to_set().contains(p) implies paths_of(merged).to_set().contains(p) by {
            let i = choose|i: int| 0 <= i < paths_of(pa).len() && paths_of(pa)[i] == p;
            assert(merged.contains(pa[i]));
            let k = choose|k: int| 0 <= k < merged.len() && merged[k] == pa[i];
            assert(paths_of(merged)[k] == p);
        }
    }
    paths_of(merged).unique_seq_to_set();
    paths_of(pa).unique_seq_to_set();
    assert forall|path: Seq<char>| !deferred_for(pa, seq![], path) && !deferred_for(seq![], pa, path) by {
        assert(last_patch(Seq::<PatchV>::empty(), path) is None);
    }
}


proof fn lemma_ident_prefix_stops(name: Seq<char>, rest: Seq<char>)
    requires
        forall|i: int| 0 <= i < name.len() ==> is_ident_char(#[trigger] name[i]),
        rest.len() == 0 || !is_ident_char(rest[0]),
    ensures
        ident_prefix(name + rest) == name,
    decreases name.len(),
{
    if name.len() == 0 {
        assert(name + rest =~= rest);
    } else {
        lemma_ident_prefix_stops(name.drop_first(), rest);
        assert((name + rest).drop_first() =~= name.drop_first() + rest);
        assert((name + rest)[0] == name[0]);
        assert(seq![name[0]] + name.drop_first() =~= name);
    }
}

/// The sort key of an added block is the function its first line declares:
/// when that line, trimmed, reads `fn`, `pub fn`, `async fn` or
/// `pub async fn`, a space, then an identifier `name` not followed by
/// another identifier character, the block is ordered by `name`, for
/// private and public functions alike.
pub proof fn block_key_is_the_declared_function_name(
    ls: Seq<Seq<char>>,
    qualifier: Seq<char>,
    name: Seq<char>,
    rest: Seq<char>,
)
    requires
        ls.len() > 0,
        qualifier == Seq::<char>::empty() || qualifier == seq!['p', 'u', 'b', ' '] || qualifier == seq![
            'a',
            's',
            'y',
            'n',
            'c',
            ' ',
        ] || qualifier == seq!['p', 'u', 'b', ' ', 'a', 's', 'y', 'n', 'c', ' '],
        trim(ls[0]) == qualifier + seq!['f', 'n', ' '] + name + rest,
        name.len() > 0,
        forall|i: int| 0 <= i < name.len() ==> is_ident_char(#[trigger] name[i]),
        rest.len() == 0 || !is_ident_char(rest[0]),
    ensures
        fn_name_spec(ls) == name,
        block_of(ls).name == name,
{
    let t = trim(ls[0]);
    let decl = qualifier + seq!['f', 'n', ' '];
    lemma_ident_prefix_stops(name, rest);
    assert(t.skip(decl.len() as int) =~= name + rest);
    assert(t.take(decl.len() as int) =~= decl);
    assert(t[0] == decl[0]);
    let k: int = if qualifier.len() == 10 {
        0
    } else if qualifier.len() == 4 {
        1
    } else if qualifier.len() == 6 {
        2
    } else {
        3
    };
    assert(fn_prefix(k) =~= decl);
    if k >= 1 {
        assert(!has_prefix(t, fn_prefix(0))) by {
            if has_prefix(t, fn_prefix(0)) {
                assert(t.take(13)[0] == t[0]);
                assert(t.take(13)[4] == t[4]);
            }
        }
    }
    if k >= 2 {
        assert(!has_prefix(t, fn_prefix(1))) by {
            if has_prefix(t, fn_prefix(1)) {
                assert(t.take(7)[0] == t[0]);
            }
        }
    }
    if k >= 3 {
        assert(!has_prefix(t, fn_prefix(2))) by {
            if has_prefix(t, fn_prefix(2)) {
                assert(t.take(9)[0] == t[0]);
            }
        }
    }
    assert(name_from(t, k) == Some(name));
    if k == 3 {
        assert(name_from(t, 2) == Some(name));
        assert(name_from(t, 1) == Some(name));
    } else if k == 2 {
        assert(name_from(t, 1) == Some(name));
    }
    assert(name_from(t, 0) == Some(name));
}


/// A line that sits inside a hunk: it starts with `+`, `-` or a space and
/// is not a `--- `, `+++ ` or `@@ ` line.
pub open spec fn is_body_line(l: Seq<char>) -> bool {
    line_kind(l) is Some && !has_prefix(l, minus3()) && !has_prefix(l, plus3()) && !has_prefix(l, at2())
}

/// The hunk line a body line stands for: its kind and the rest of it.
pub open spec fn body_line_view(l: Seq<char>) -> LineV {
    LineV {
        kind: match line_kind(l) {
            Some(k) => k,
            None => HunkLineKind::Context,
        },
        content: l.drop_first(),
    }
}

/// The hunk lines of a run of body lines.
pub open spec fn body_view(b: Seq<Seq<char>>) -> Seq<LineV> {
    b.map_values(|l: Seq<char>| body_line_view(l))
}

/// The hunk a header line and its body lines describe.
pub open spec fn section_hunk(sec: (Seq<char>, Seq<Seq<char>>)) -> HunkV {
    HunkV { lines: body_view(sec.1), ..header_spec(sec.0)->0 }
}

/// The hunks of hunk sections, in order.
pub open spec fn section_hunks(secs: Seq<(Seq<char>, Seq<Seq<char>>)>) -> Seq<HunkV> {
    secs.map_values(|sec: (Seq<char>, Seq<Seq<char>>)| section_hunk(sec))
}

/// The lines of hunk sections: each header line followed by its body.
pub open spec fn section_lines(secs: Seq<(Seq<char>, Seq<Seq<char>>)>) -> Seq<Seq<char>>
    decreases secs.len(),
{
    if secs.len() == 0 {
        seq![]
    } else {
        section_lines(secs.drop_last()) + seq![secs.last().0] + secs.last().1
    }
}

proof fn lemma_read_push(ls: Seq<Seq<char>>, x: Seq<char>)
    ensures
        read_lines(ls.push(x)) == step_spec(read_lines(ls), x),
{
    assert(ls.push(x).drop_last() =~= ls);
}

proof fn lemma_read_body(pre: Seq<Seq<char>>, body: Seq<Seq<char>>, h: HunkV, m: int)
    requires
        read_lines(pre).hunk == Some(h),
        forall|j: int| 0 <= j < body.len() ==> is_body_line(#[trigger] body[j]),
        0 <= m <= body.len(),
    ensures
        read_lines(pre + body.take(m)) == (ParseState {
            hunk: Some(HunkV { lines: h.lines + body_view(body.take(m)), ..h }),
            ..read_lines(pre)
        }),
    decreases m,
{
    if m == 0 {
        assert(pre + body.take(0) =~= pre);
        assert(h.lines + body_view(body.take(0)) =~= h.lines);
    } else {
        lemma_read_body(pre, body, h, m - 1);
        let l = body[m - 1];
        assert(is_body_line(l));
        assert(pre + body.take(m) =~= (pre + body.take(m - 1)).push(l));
        lemma_read_push(pre + body.take(m - 1), l);
        assert(body_view(body.take(m)) =~= body_view(body.take(m - 1)).push(body_line_view(l)));
        assert(h.lines + body_view(body.take(m)) =~= (h.lines + body_view(body.take(m - 1))).push(body_line_view(l)));
    }
}

proof fn lemma_at_line_is_no_file_line(l: Seq<char>)
    requires
        has_prefix(l, at2()),
    ensures
        !has_prefix(l, minus3()),
        !has_prefix(l, plus3()),
{
    assert(l.take(3)[0] == l[0]);
    if has_prefix(l, minus3()) {
        assert(l.take(4)[0] == l[0]);
    }
    if has_prefix(l, plus3()) {
        assert(l.take(4)[0] == l[0]);
    }
}

proof fn lemma_header_step(head: Seq<Seq<char>>, l: Seq<char>)
    requires
        has_prefix(l, at2()),
    ensures
        read_lines(head.push(l)) == (ParseState {
            hunks: close_hunk(read_lines(head).hunks, read_lines(head).hunk),
            hunk: header_spec(l),
            ..read_lines(head)
        }),
{
    lemma_at_line_is_no_file_line(l);
    lemma_read_push(head, l);
}

proof fn lemma_section_lines_last(secs: Seq<(Seq<char>, Seq<Seq<char>>)>)
    requires
        secs.len() > 0,
    ensures
        section_lines(secs) == section_lines(secs.drop_last()).push(secs.last().0) + secs.last().1,
        section_hunks(secs) == section_hunks(secs.drop_last()).push(section_hunk(secs.last())),
{
    assert(section_lines(secs.drop_last()) + seq![secs.last().0] =~= section_lines(secs.drop_last()).push(secs.last().0));
    assert(section_hunks(secs) =~= section_hunks(secs.drop_last()).push(section_hunk(secs.last())));
}

#[verifier::rlimit(40)]
proof fn lemma_read_sections(pre: Seq<Seq<char>>, p: Seq<char>, secs: Seq<(Seq<char>, Seq<Seq<char>>)>)
    requires
        read_lines(pre) == (ParseState { patches: seq![], path: Some(p), hunks: seq![], hunk: None }),
        secs.len() > 0,
        forall|i: int| 0 <= i < secs.len() ==> has_prefix((#[trigger] secs[i]).0, at2()) && (header_spec(secs[i].0) is Some),
        forall|i: int, j: int| 0 <= i < secs.len() && 0 <= j < secs[i].1.len() ==> is_body_line(#[trigger] secs[i].1[j]),
    ensures
        read_lines(pre + section_lines(secs)) == (ParseState {
            patches: seq![],
            path: Some(p),
            hunks: section_hunks(secs.drop_last()),
            hunk: Some(section_hunk(secs.last())),
        }),
    decreases secs.len(),
{
    let d = secs.drop_last();
    let last = secs.last();
    let head = pre + section_lines(d);
    assert(secs[secs.len() - 1] == last);
    if d.len() == 0 {
        assert(section_lines(d) =~= Seq::<Seq<char>>::empty());
        assert(head =~= pre);
        assert(section_hunks(d) =~= Seq::<HunkV>::empty());
        assert(close_hunk(read_lines(head).hunks, read_lines(head).hunk) == section_hunks(d));
    } else {
        assert forall|i: int| 0 <= i < d.len() implies has_prefix((#[trigger] d[i]).0, at2()) && (header_spec(d[i].0) is Some) by {
            assert(d[i] == secs[i]);
        }
        assert forall|i: int, j: int| 0 <= i < d.len() && 0 <= j < d[i].1.len() implies is_body_line(#[trigger] d[i].1[j]) by {
            assert(d[i] == secs[i]);
        }
        lemma_read_sections(pre, p, d);
        lemma_section_lines_last(d);
        assert(close_hunk(read_lines(head).hunks, read_lines(head).hunk) == section_hunks(d));
    }
    assert(has_prefix(last.0, at2()));
    lemma_header_step(head, last.0);
    let hdr = header_spec(last.0)->0;
    let pre2 = head.push(last.0);
    assert forall|j: int| 0 <= j < last.1.len() implies is_body_line(#[trigger] last.1[j]) by {
        assert(secs[secs.len() - 1].1[j] == last.1[j]);
    }
    lemma_read_body(pre2, last.1, hdr, last.1.len() as int);
    assert(last.1.take(last.1.len() as int) =~= last.1);
    lemma_section_lines_last(secs);
    assert(pre2 + last.1 =~= pre + section_lines(secs));
    assert(hdr.lines + body_view(last.1) =~= body_view(last.1));
}

/// Every hunk header of a file section opens a hunk of that file's patch:
/// a diff made of a `--- ` line, a `+++ ` line naming the file and then
/// hunk sections, each a parseable `@@ ` header followed by `+`, `-` and
/// space lines, parses to one patch of that file with one hunk per
/// header, in order, each with the header's ranges and its section's
/// lines.
pub proof fn each_hunk_header_opens_a_hunk(
    text: Seq<char>,
    minus: Seq<char>,
    plus: Seq<char>,
    secs: Seq<(Seq<char>, Seq<Seq<char>>)>,
)
    requires
        has_prefix(minus, seq!['-', '-', '-', ' ']),
        has_prefix(plus, seq!['+', '+', '+', ' ']),
        secs.len() > 0,
        forall|i: int|
            0 <= i < secs.len() ==> has_prefix((#[trigger] secs[i]).0, seq!['@', '@', ' ']) && (header_spec(secs[i].0) is Some),
        forall|i: int, j: int| 0 <= i < secs.len() && 0 <= j < secs[i].1.len() ==> is_body_line(#[trigger] secs[i].1[j]),
        lines_of(text) == seq![minus, plus] + section_lines(secs),
    ensures
        parse_diff_spec(text).len() == 1,
        parse_diff_spec(text)[0].path == plus_path(plus),
        parse_diff_spec(text)[0].hunks.len() == secs.len(),
        forall|i: int| 0 <= i < secs.len() ==> parse_diff_spec(text)[0].hunks[i] == section_hunk(#[trigger] secs[i]),
{
    let init = ParseState { patches: seq![], path: None, hunks: seq![], hunk: None };
    assert(read_lines(Seq::<Seq<char>>::empty()) == init);
    lemma_read_push(Seq::<Seq<char>>::empty(), minus);
    assert(Seq::<Seq<char>>::empty().push(minus) =~= seq![minus]);
    assert(read_lines(seq![minus]) == init);
    if has_prefix(plus, minus3()) {
        assert(plus.take(4)[0] == plus[0]);
    }
    lemma_read_push(seq![minus], plus);
    assert(seq![minus].push(plus) =~= seq![minus, plus]);
    let p = plus_path(plus);
    assert(read_lines(seq![minus, plus]) == (ParseState { patches: seq![], path: Some(p), hunks: seq![], hunk: None }));
    lemma_read_sections(seq![minus, plus], p, secs);
    let st = read_lines(lines_of(text));
    assert(close_hunk(st.hunks, st.hunk) =~= section_hunks(secs));
}

} // verus!

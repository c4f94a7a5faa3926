//! Hunk-by-hunk preview of a unified diff: the diff is split into `@@` hunks
//! whose lines are classified as added, removed or context, and the key a
//! user presses on each hunk becomes an accept/reject decision.

use vstd::prelude::*;
use crate::diff::{HunkLineKind, LineV};
use crate::text::{chars_of, has_prefix, line_ranges, lines_of, range_has_prefix, ranges_cover, string_of};

verus! {

/// A line within a diff hunk.
#[derive(Debug, Clone)]
pub enum HunkLine {
    /// An unchanged context line (space-prefixed in the diff).
    Context(String),
    /// A line added in the new version (`+`-prefixed in the diff).
    Added(String),
    /// A line removed from the old version (`-`-prefixed in the diff).
    Removed(String),
}

impl View for HunkLine {
    type V = LineV;

    open spec fn view(&self) -> LineV {
        match self {
            HunkLine::Context(s) => LineV { kind: HunkLineKind::Context, content: s@ },
            HunkLine::Added(s) => LineV { kind: HunkLineKind::Added, content: s@ },
            HunkLine::Removed(s) => LineV { kind: HunkLineKind::Removed, content: s@ },
        }
    }
}

/// A single `@@` hunk extracted from a unified diff.
#[derive(Debug, Clone)]
pub struct Hunk {
    /// The raw `@@ -a,b +c,d @@` header line.
    pub header: String,
    /// All content lines belonging to this hunk.
    pub lines: Vec<HunkLine>,
}

/// Mathematical value of a previewed hunk.
pub struct PreviewHunkV {
    pub header: Seq<char>,
    pub lines: Seq<LineV>,
}

/// Values of a sequence of preview lines.
pub open spec fn preview_lines_view(ls: Seq<HunkLine>) -> Seq<LineV> {
    ls.map_values(|l: HunkLine| l@)
}

impl View for Hunk {
    type V = PreviewHunkV;

    open spec fn view(&self) -> PreviewHunkV {
        PreviewHunkV { header: self.header@, lines: preview_lines_view(self.lines@) }
    }
}

/// Values of a sequence of previewed hunks.
pub open spec fn preview_hunks_view(hs: Seq<Hunk>) -> Seq<PreviewHunkV> {
    hs.map_values(|h: Hunk| h@)
}

/// Per-hunk decision made by the user.
#[derive(Debug, Clone, Copy, PartialEq, Eq, Structural)]
pub struct HunkDecision {
    /// Zero-based index of the hunk within the parsed hunk list.
    pub hunk_index: usize,
    /// `true` when the user accepted or chose to edit this hunk; `false` when rejected.
    pub accepted: bool,
}

/// A unified diff shown for interactive approval.
pub struct DiffPreview {
    /// The file path label displayed in the preview header.
    pub file_path: String,
    /// The raw unified diff text to parse and display.
    pub unified_diff: String,
}

/// The text of a context line: the line without its first character when
/// that character is ASCII (a one-byte prefix), else the whole line.
pub open spec fn context_text(l: Seq<char>) -> Seq<char> {
    if l.len() > 0 && l[0] <= '\x7f' {
        l.skip(1)
    } else {
        l
    }
}

/// Classification of a hunk body line by its first character.
pub open spec fn preview_line_spec(l: Seq<char>) -> LineV {
    if l.len() > 0 && l[0] == '+' {
        LineV { kind: HunkLineKind::Added, content: l.skip(1) }
    } else if l.len() > 0 && l[0] == '-' {
        LineV { kind: HunkLineKind::Removed, content: l.skip(1) }
    } else {
        LineV { kind: HunkLineKind::Context, content: context_text(l) }
    }
}

/// Hunks completed so far and the hunk still open.
pub struct PreviewState {
    pub done: Seq<PreviewHunkV>,
    pub open: Option<PreviewHunkV>,
}

/// Effect of one diff line on the preview parse.
pub open spec fn preview_step(st: PreviewState, l: Seq<char>) -> PreviewState {
    if has_prefix(l, seq!['-', '-', '-', ' ']) || has_prefix(l, seq!['+', '+', '+', ' ']) {
        st
    } else if has_prefix(l, seq!['@', '@', ' ']) {
        PreviewState {
            done: match st.open {
                Some(h) => st.done.push(h),
                None => st.done,
            },
            open: Some(PreviewHunkV { header: l, lines: seq![] }),
        }
    } else {
        match st.open {
            Some(h) => PreviewState {
                done: st.done,
                open: Some(PreviewHunkV { header: h.header, lines: h.lines.push(preview_line_spec(l)) }),
            },
            None => st,
        }
    }
}

/// The preview parse after reading `ls` in order.
pub open spec fn preview_read(ls: Seq<Seq<char>>) -> PreviewState
    decreases ls.len(),
{
    if ls.len() == 0 {
        PreviewState { done: seq![], open: None }
    } else {
        preview_step(preview_read(ls.drop_last()), ls.last())
    }
}

/// The hunks of a unified diff: file headers skipped, each `@@ ` line opens
/// a hunk, lines before the first hunk ignored.
pub open spec fn parse_hunks_spec(diff: Seq<char>) -> Seq<PreviewHunkV> {
    let st = preview_read(lines_of(diff));
    match st.open {
        Some(h) => st.done.push(h),
        None => st.done,
    }
}

/// The hunk line for `v[lo..hi]`.
fn classify_line(v: &Vec<char>, lo: usize, hi: usize) -> (r: HunkLine)
    requires
        lo <= hi <= v@.len(),
    ensures
        r@ == preview_line_spec(v@.subrange(lo as int, hi as int)),
{
    let ghost l = v@.subrange(lo as int, hi as int);
    if hi > lo && v[lo] == '+' {
        let s = string_of(v, lo + 1, hi);
        assert(s@ =~= l.skip(1));
        HunkLine::Added(s)
    } else if hi > lo && v[lo] == '-' {
        let s = string_of(v, lo + 1, hi);
        assert(s@ =~= l.skip(1));
        HunkLine::Removed(s)
    } else if hi > lo && v[lo] <= '\x7f' {
        let s = string_of(v, lo + 1, hi);
        assert(s@ =~= l.skip(1));
        HunkLine::Context(s)
    } else {
        let s = string_of(v, lo, hi);
        HunkLine::Context(s)
    }
}

impl DiffPreview {
    /// Creates a new `DiffPreview` from a file path label and raw unified diff text.
    pub fn new(file_path: String, unified_diff: String) -> (r: Self)
        ensures
            r.file_path@ == file_path@,
            r.unified_diff@ == unified_diff@,
    {
        DiffPreview { file_path, unified_diff }
    }

    /// Parses the unified diff into a list of hunks.
    ///
    /// Lines beginning with `"--- "` or `"+++ "` (file headers) are skipped.
    /// Lines beginning with `"@@ "` open a new hunk. Each subsequent line is
    /// classified as `Added`, `Removed`, or `Context` by its first character.
    pub fn parse_hunks(&self) -> (r: Vec<Hunk>)
        ensures
            preview_hunks_view(r@) == parse_hunks_spec(self.unified_diff@),
    {
        let v = chars_of(self.unified_diff.as_str());
        let ranges = line_ranges(&v);
        let ghost ls = lines_of(v@);
        let minus = vec!['-', '-', '-', ' '];
        let plus = vec!['+', '+', '+', ' '];
        let at = vec!['@', '@', ' '];
        let mut completed: Vec<Hunk> = Vec::new();
        let mut current: Option<Hunk> = None;
        let mut i: usize = 0;
        assert(preview_hunks_view(completed@) =~= Seq::<PreviewHunkV>::empty());
        while i < ranges.len()
            invariant
                i <= ranges@.len(),
                ranges_cover(v@, ranges@, ls),
                ls == lines_of(v@),
                minus@ == seq!['-', '-', '-', ' '],
                plus@ == seq!['+', '+', '+', ' '],
                at@ == seq!['@', '@', ' '],
                preview_read(ls.take(i as int)) == (PreviewState {
                    done: preview_hunks_view(completed@),
                    open: match current {
                        Some(h) => Some(h@),
                        None => None,
                    },
                }),
            decreases ranges@.len() - i,
        {
            let (lo, hi) = ranges[i];
            let ghost line = v@.subrange(lo as int, hi as int);
            assert(ls.take(i + 1).drop_last() =~= ls.take(i as int));
            assert(ls.take(i + 1).last() == line);
            if range_has_prefix(&v, lo, hi, &minus) || range_has_prefix(&v, lo, hi, &plus) {
            } else if range_has_prefix(&v, lo, hi, &at) {
                match current.take() {
                    Some(h) => {
                        let ghost before = completed@;
                        completed.push(h);
                        assert(preview_hunks_view(completed@) =~= preview_hunks_view(before).push(h@));
                    },
                    None => {},
                }
                let header = string_of(&v, lo, hi);
                let fresh = Hunk { header, lines: Vec::new() };
                assert(preview_lines_view(fresh.lines@) =~= Seq::<LineV>::empty());
                current = Some(fresh);
            } else {
                match current.take() {
                    Some(mut h) => {
                        let ghost before = h.lines@;
                        let hl = classify_line(&v, lo, hi);
                        h.lines.push(hl);
                        assert(preview_lines_view(h.lines@) =~= preview_lines_view(before).push(
                            preview_line_spec(line),
                        ));
                        current = Some(h);
                    },
                    None => {},
                }
            }
            i = i + 1;
        }
        assert(ls.take(ranges@.len() as int) =~= ls);
        match current {
            Some(h) => {
                let ghost before = completed@;
                completed.push(h);
                assert(preview_hunks_view(completed@) =~= preview_hunks_view(before).push(h@));
            },
            None => {},
        }
        completed
    }
}

/// A key pressed while a hunk is on screen.
#[derive(Debug, Clone, Copy, PartialEq, Eq, Structural)]
pub enum ReviewKey {
    /// A character key.
    Char(char),
    /// The escape key.
    Esc,
    /// Any other key.
    Other,
}

/// What a key press means for the hunk on screen.
#[derive(Debug, Clone, Copy, PartialEq, Eq, Structural)]
pub enum HunkReview {
    /// Accept the hunk (`y`, or `e` to edit it).
    Accept,
    /// Reject the hunk (`n`).
    Reject,
    /// Stop reviewing; the remaining hunks are rejected (`q` or escape).
    Quit,
    /// The key means nothing here; keep waiting.
    Ignore,
}

/// The meaning of a key in the hunk review, case-insensitive.
pub open spec fn review_key_spec(key: ReviewKey) -> HunkReview {
    match key {
        ReviewKey::Char(c) => if c == 'y' || c == 'Y' || c == 'e' || c == 'E' {
            HunkReview::Accept
        } else if c == 'n' || c == 'N' {
            HunkReview::Reject
        } else if c == 'q' || c == 'Q' {
            HunkReview::Quit
        } else {
            HunkReview::Ignore
        },
        ReviewKey::Esc => HunkReview::Quit,
        ReviewKey::Other => HunkReview::Ignore,
    }
}

/// Interprets a key pressed while a hunk is shown.
pub fn review_key(key: ReviewKey) -> (r: HunkReview)
    ensures
        r == review_key_spec(key),
{
    match key {
        ReviewKey::Char(c) => if c == 'y' || c == 'Y' || c == 'e' || c == 'E' {
            HunkReview::Accept
        } else if c == 'n' || c == 'N' {
            HunkReview::Reject
        } else if c == 'q' || c == 'Q' {
            HunkReview::Quit
        } else {
            HunkReview::Ignore
        },
        ReviewKey::Esc => HunkReview::Quit,
        ReviewKey::Other => HunkReview::Ignore,
    }
}

} // verus!

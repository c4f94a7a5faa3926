//! State of the interactive console: the input line and its cursor, the
//! bounded scrollback, the command language typed at the prompt, and the
//! decisions the console takes on keys, commands and streamed answers. The
//! terminal, the background tasks and the commands themselves run outside.

use vstd::prelude::*;
use std::collections::VecDeque;
use crate::metrics::{GraphStats, HubEntry};
use crate::text::{
    ascii_lower, chars_of, find_in_range, find_seq, has_prefix, range_has_prefix, ranges_cover,
    split_char, split_ranges, string_of, string_of_all, to_ascii_lower, trim, trim_range,
};

verus! {

/// Maximum number of output lines retained in the scrollback buffer.
pub const SCROLLBACK_CAPACITY: usize = 1000;

/// Visual category of a line in the conversation scrollback.
#[derive(Debug, Clone, Copy, PartialEq, Eq, Structural)]
pub enum OutputKind {
    /// A prompt echo of what the user typed.
    UserInput,
    /// A streamed model output token or assembled answer line.
    AskToken,
    /// A system message (boot notices, index progress, command output).
    System,
    /// A grounding or cross-role warning from the verifier.
    Warning,
    /// An error that occurred during a command.
    Error,
    /// The CRG subgraph preamble preceding the model answer.
    Subgraph,
}

/// A single line in the conversation scrollback.
#[derive(Debug, Clone)]
pub struct OutputLine {
    pub text: String,
    pub kind: OutputKind,
}

/// Mathematical value of a scrollback line.
pub struct OutputLineV {
    pub text: Seq<char>,
    pub kind: OutputKind,
}

impl View for OutputLine {
    type V = OutputLineV;

    open spec fn view(&self) -> OutputLineV {
        OutputLineV { text: self.text@, kind: self.kind }
    }
}

/// The current operational mode of the console.
#[derive(Debug, Clone, Copy, PartialEq, Eq, Structural)]
pub enum ConsoleMode {
    /// Ready for input.
    Idle,
    /// An ask is streaming tokens; input is disabled.
    AskInFlight,
    /// A blocking subcommand has suspended the console and runs in the foreground.
    Suspended,
}

/// A parsed console command derived from the user's input line.
#[derive(Debug, Clone, PartialEq, Eq)]
pub enum ConsoleCommand {
    /// Send a natural-language question through the ask pipeline.
    Ask(String),
    /// Run the validation and multi-agent pipeline for a task description.
    Run(String),
    /// Build or rebuild the CRG index for an optional path (defaults to `.`).
    Index(Option<String>),
    /// Start Night Mode with optional comma-separated task descriptions.
    Night(Vec<String>),
    /// Open the visual canvas editor, optionally cloning a URL.
    Canvas(Option<String>),
    /// Open the live observability view.
    Observe,
    /// Run preflight health checks.
    Doctor,
    /// Print the help text into the scrollback.
    Help,
    /// Exit the console.
    Quit,
    /// The user typed nothing (blank line).
    Empty,
}

/// Mathematical value of a console command.
pub enum CommandV {
    Ask(Seq<char>),
    Run(Seq<char>),
    Index(Option<Seq<char>>),
    Night(Seq<Seq<char>>),
    Canvas(Option<Seq<char>>),
    Observe,
    Doctor,
    Help,
    Quit,
    Empty,
}

/// Value of an optional string.
pub open spec fn opt_text(s: Option<String>) -> Option<Seq<char>> {
    match s {
        Some(x) => Some(x@),
        None => None,
    }
}

/// Values of a sequence of strings.
pub open spec fn texts(ss: Seq<String>) -> Seq<Seq<char>> {
    ss.map_values(|s: String| s@)
}

impl View for ConsoleCommand {
    type V = CommandV;

    open spec fn view(&self) -> CommandV {
        match self {
            ConsoleCommand::Ask(s) => CommandV::Ask(s@),
            ConsoleCommand::Run(s) => CommandV::Run(s@),
            ConsoleCommand::Index(p) => CommandV::Index(opt_text(*p)),
            ConsoleCommand::Night(ts) => CommandV::Night(texts(ts@)),
            ConsoleCommand::Canvas(u) => CommandV::Canvas(opt_text(*u)),
            ConsoleCommand::Observe => CommandV::Observe,
            ConsoleCommand::Doctor => CommandV::Doctor,
            ConsoleCommand::Help => CommandV::Help,
            ConsoleCommand::Quit => CommandV::Quit,
            ConsoleCommand::Empty => CommandV::Empty,
        }
    }
}

/// ASCII lowercase of every character of `s`.
pub open spec fn lower_seq(s: Seq<char>) -> Seq<char> {
    s.map_values(|c: char| ascii_lower(c))
}

/// The leading word of a trimmed input line and the trimmed rest after the
/// first space (`split_once(' ')`).
pub open spec fn word_and_rest(t: Seq<char>) -> (Seq<char>, Seq<char>) {
    match find_seq(t, seq![' ']) {
        Some(k) => (t.take(k), trim(t.skip(k + 1))),
        None => (t, seq![]),
    }
}

/// The trimmed, non-empty pieces of `ps`, in order.
pub open spec fn trimmed_nonempty(ps: Seq<Seq<char>>) -> Seq<Seq<char>>
    decreases ps.len(),
{
    if ps.len() == 0 {
        seq![]
    } else {
        let prev = trimmed_nonempty(ps.drop_last());
        let t = trim(ps.last());
        if t.len() > 0 {
            prev.push(t)
        } else {
            prev
        }
    }
}

/// An optional argument: absent when empty.
pub open spec fn optional_arg(rest: Seq<char>) -> Option<Seq<char>> {
    if rest.len() == 0 {
        None
    } else {
        Some(rest)
    }
}

/// The console command language. The leading word is matched without
/// regard to ASCII case:
/// - empty or whitespace-only → `Empty`;
/// - `exit` / `quit` / `q` → `Quit`; `help` / `?` → `Help`;
/// - `index [path]`, `canvas [url]` → the optional argument;
/// - `run <task>` → `Run` (bare `run` asks about "run");
/// - `ask <question>` → `Ask` (bare `ask` is `Empty`);
/// - `night [task,task,...]` → the trimmed non-empty comma-separated tasks;
/// - `observe`, `doctor`;
/// - anything else → `Ask` with the whole trimmed input.
pub open spec fn parse_command_spec(raw: Seq<char>) -> CommandV {
    let t = trim(raw);
    let (word, rest) = word_and_rest(t);
    let w = lower_seq(word);
    if t.len() == 0 {
        CommandV::Empty
    } else if w == seq!['e', 'x', 'i', 't'] || w == seq!['q', 'u', 'i', 't'] || w == seq!['q'] {
        CommandV::Quit
    } else if w == seq!['h', 'e', 'l', 'p'] || w == seq!['?'] {
        CommandV::Help
    } else if w == seq!['i', 'n', 'd', 'e', 'x'] {
        CommandV::Index(optional_arg(rest))
    } else if w == seq!['r', 'u', 'n'] {
        if rest.len() == 0 {
            CommandV::Ask(seq!['r', 'u', 'n'])
        } else {
            CommandV::Run(rest)
        }
    } else if w == seq!['a', 's', 'k'] {
        if rest.len() == 0 {
            CommandV::Empty
        } else {
            CommandV::Ask(rest)
        }
    } else if w == seq!['n', 'i', 'g', 'h', 't'] {
        CommandV::Night(
            if rest.len() == 0 {
                seq![]
            } else {
                trimmed_nonempty(split_char(rest, ','))
            },
        )
    } else if w == seq!['c', 'a', 'n', 'v', 'a', 's'] {
        CommandV::Canvas(optional_arg(rest))
    } else if w == seq!['o', 'b', 's', 'e', 'r', 'v', 'e'] {
        CommandV::Observe
    } else if w == seq!['d', 'o', 'c', 't', 'o', 'r'] {
        CommandV::Doctor
    } else {
        CommandV::Ask(t)
    }
}

/// Whether `v[lo..hi]`, lowercased, equals `kw`.
fn word_is(v: &Vec<char>, lo: usize, hi: usize, kw: &Vec<char>) -> (b: bool)
    requires
        lo <= hi <= v@.len(),
    ensures
        b == (lower_seq(v@.subrange(lo as int, hi as int)) == kw@),
{
    let ghost w = lower_seq(v@.subrange(lo as int, hi as int));
    if hi - lo != kw.len() {
        assert(w.len() != kw@.len());
        return false;
    }
    let mut i: usize = 0;
    while i < kw.len()
        invariant
            i <= kw@.len() == hi - lo,
            lo <= hi <= v@.len(),
            w == lower_seq(v@.subrange(lo as int, hi as int)),
            forall|k: int| 0 <= k < i ==> w[k] == kw@[k],
        decreases kw@.len() - i,
    {
        if to_ascii_lower(v[lo + i]) != kw[i] {
            assert(w[i as int] != kw@[i as int]);
            return false;
        }
        i = i + 1;
    }
    assert(w =~= kw@);
    true
}

/// The trimmed, non-empty comma-separated pieces of `v[lo..hi]`.
fn night_tasks(v: &Vec<char>, lo: usize, hi: usize) -> (r: Vec<String>)
    requires
        lo <= hi <= v@.len(),
    ensures
        texts(r@) == trimmed_nonempty(split_char(v@.subrange(lo as int, hi as int), ',')),
{
    let ranges = split_ranges(v, lo, hi, ',');
    let ghost ps = split_char(v@.subrange(lo as int, hi as int), ',');
    let mut r: Vec<String> = Vec::new();
    let mut i: usize = 0;
    assert(texts(r@) =~= trimmed_nonempty(ps.take(0)));
    while i < ranges.len()
        invariant
            i <= ranges@.len(),
            ranges_cover(v@, ranges@, ps),
            texts(r@) == trimmed_nonempty(ps.take(i as int)),
        decreases ranges@.len() - i,
    {
        let (a, b) = ranges[i];
        assert(ps.take(i + 1).drop_last() =~= ps.take(i as int));
        assert(ps.take(i + 1).last() == v@.subrange(a as int, b as int));
        let (c, d) = trim_range(v, a, b);
        if c < d {
            let ghost before = texts(r@);
            r.push(string_of(v, c, d));
            assert(texts(r@) =~= before.push(v@.subrange(c as int, d as int)));
        }
        i = i + 1;
    }
    assert(ps.take(ranges@.len() as int) =~= ps);
    r
}

/// `v[lo..hi]` as an optional argument.
fn optional_string(v: &Vec<char>, lo: usize, hi: usize) -> (r: Option<String>)
    requires
        lo <= hi <= v@.len(),
    ensures
        opt_text(r) == optional_arg(v@.subrange(lo as int, hi as int)),
{
    if lo == hi {
        None
    } else {
        Some(string_of(v, lo, hi))
    }
}

impl ConsoleApp {
    /// Parses a raw input line into a console command (see `parse_command_spec`).
    pub fn parse_command(raw_input: &str) -> (r: ConsoleCommand)
        ensures
            r@ == parse_command_spec(raw_input@),
    {
        let v = chars_of(raw_input);
        let (lo, hi) = trim_range(&v, 0, v.len());
        let ghost t = v@.subrange(lo as int, hi as int);
        assert(v@.subrange(0, v@.len() as int) =~= v@);
        if lo == hi {
            return ConsoleCommand::Empty;
        }
        let space = vec![' '];
        assert(space@ =~= seq![' ']);
        let (wlo, whi, rlo, rhi) = match find_in_range(&v, lo, hi, &space) {
            Some(k) => {
                let (a, b) = trim_range(&v, k + 1, hi);
                assert(t.take(k - lo) =~= v@.subrange(lo as int, k as int));
                assert(t.skip(k - lo + 1) =~= v@.subrange(k + 1, hi as int));
                assert(word_and_rest(t).0 == v@.subrange(lo as int, k as int));
                assert(word_and_rest(t).1 =~= v@.subrange(a as int, b as int));
                (lo, k, a, b)
            },
            None => {
                assert(word_and_rest(t).1 =~= v@.subrange(hi as int, hi as int));
                (lo, hi, hi, hi)
            },
        };
        assert(word_and_rest(t).0 == v@.subrange(wlo as int, whi as int));
        assert(word_and_rest(t).1 == v@.subrange(rlo as int, rhi as int));
        let kw_exit = vec!['e', 'x', 'i', 't'];
        assert(kw_exit@ =~= seq!['e', 'x', 'i', 't']);
        let kw_quit = vec!['q', 'u', 'i', 't'];
        assert(kw_quit@ =~= seq!['q', 'u', 'i', 't']);
        let kw_q = vec!['q'];
        assert(kw_q@ =~= seq!['q']);
        let kw_help = vec!['h', 'e', 'l', 'p'];
        assert(kw_help@ =~= seq!['h', 'e', 'l', 'p']);
        let kw_qmark = vec!['?'];
        assert(kw_qmark@ =~= seq!['?']);
        let kw_index = vec!['i', 'n', 'd', 'e', 'x'];
        assert(kw_index@ =~= seq!['i', 'n', 'd', 'e', 'x']);
        let kw_run = vec!['r', 'u', 'n'];
        assert(kw_run@ =~= seq!['r', 'u', 'n']);
        let kw_ask = vec!['a', 's', 'k'];
        assert(kw_ask@ =~= seq!['a', 's', 'k']);
        let kw_night = vec!['n', 'i', 'g', 'h', 't'];
        assert(kw_night@ =~= seq!['n', 'i', 'g', 'h', 't']);
        let kw_canvas = vec!['c', 'a', 'n', 'v', 'a', 's'];
        assert(kw_canvas@ =~= seq!['c', 'a', 'n', 'v', 'a', 's']);
        let kw_observe = vec!['o', 'b', 's', 'e', 'r', 'v', 'e'];
        assert(kw_observe@ =~= seq!['o', 'b', 's', 'e', 'r', 'v', 'e']);
        let kw_doctor = vec!['d', 'o', 'c', 't', 'o', 'r'];
        assert(kw_doctor@ =~= seq!['d', 'o', 'c', 't', 'o', 'r']);
        if word_is(&v, wlo, whi, &kw_exit) || word_is(&v, wlo, whi, &kw_quit)
            || word_is(&v, wlo, whi, &kw_q) {
            ConsoleCommand::Quit
        } else if word_is(&v, wlo, whi, &kw_help) || word_is(&v, wlo, whi, &kw_qmark) {
            ConsoleCommand::Help
        } else if word_is(&v, wlo, whi, &kw_index) {
            ConsoleCommand::Index(optional_string(&v, rlo, rhi))
        } else if word_is(&v, wlo, whi, &kw_run) {
            if rlo == rhi {
                let w = vec!['r', 'u', 'n'];
                ConsoleCommand::Ask(string_of_all(&w))
            } else {
                ConsoleCommand::Run(string_of(&v, rlo, rhi))
            }
        } else if word_is(&v, wlo, whi, &kw_ask) {
            if rlo == rhi {
                ConsoleCommand::Empty
            } else {
                ConsoleCommand::Ask(string_of(&v, rlo, rhi))
            }
        } else if word_is(&v, wlo, whi, &kw_night) {
            if rlo == rhi {
                let empty: Vec<String> = Vec::new();
                assert(texts(empty@) =~= Seq::<Seq<char>>::empty());
                ConsoleCommand::Night(empty)
            } else {
                ConsoleCommand::Night(night_tasks(&v, rlo, rhi))
            }
        } else if word_is(&v, wlo, whi, &kw_canvas) {
            ConsoleCommand::Canvas(optional_string(&v, rlo, rhi))
        } else if word_is(&v, wlo, whi, &kw_observe) {
            ConsoleCommand::Observe
        } else if word_is(&v, wlo, whi, &kw_doctor) {
            ConsoleCommand::Doctor
        } else {
            ConsoleCommand::Ask(string_of(&v, lo, hi))
        }
    }
}

/// A snapshot of the graph state for the console side panel.
pub struct GraphSnapshot {
    /// `true` when the graph index is present and was loaded successfully.
    pub available: bool,
    /// Top-line statistics, `None` when unavailable.
    pub stats: Option<GraphStats>,
    /// Community list sorted by symbol count descending.
    pub communities: Vec<(String, usize)>,
    /// Top hub symbols by connectivity score.
    pub hubs: Vec<HubEntry>,
}

impl GraphSnapshot {
    /// Returns an unavailable snapshot for use before the first successful load.
    pub fn unavailable() -> (r: Self)
        ensures
            !r.available,
            r.stats is None,
            r.communities@.len() == 0,
            r.hubs@.len() == 0,
    {
        GraphSnapshot { available: false, stats: None, communities: Vec::new(), hubs: Vec::new() }
    }
}

/// The scrollback after appending `l`: the oldest line is evicted when the
/// buffer is at capacity.
pub open spec fn push_line_spec(lines: Seq<OutputLineV>, l: OutputLineV) -> Seq<OutputLineV> {
    if lines.len() >= SCROLLBACK_CAPACITY {
        lines.skip(1).push(l)
    } else {
        lines.push(l)
    }
}

/// The scrollback after appending each of `ls` in turn.
pub open spec fn push_all_spec(lines: Seq<OutputLineV>, ls: Seq<OutputLineV>) -> Seq<OutputLineV>
    decreases ls.len(),
{
    if ls.len() == 0 {
        lines
    } else {
        push_line_spec(push_all_spec(lines, ls.drop_last()), ls.last())
    }
}

/// An answer line holding `text`.
pub open spec fn ask_line(text: Seq<char>) -> OutputLineV {
    OutputLineV { text, kind: OutputKind::AskToken }
}

/// The scrollback after a streamed answer token: its first fragment extends
/// a trailing answer line (or starts one), and every fragment after a
/// newline starts a new answer line.
pub open spec fn append_token_spec(lines: Seq<OutputLineV>, token: Seq<char>) -> Seq<OutputLineV> {
    let frags = split_char(token, '\n');
    let first = if lines.len() > 0 && lines.last().kind == OutputKind::AskToken {
        lines.update(lines.len() - 1, ask_line(lines.last().text + frags[0]))
    } else {
        push_line_spec(lines, ask_line(frags[0]))
    };
    push_all_spec(first, frags.skip(1).map_values(|f: Seq<char>| ask_line(f)))
}

/// The full mutable state of the console.
pub struct ConsoleApp {
    /// Current content of the input box, one entry per character.
    input_buffer: Vec<char>,
    /// Cursor position within the input buffer (character index).
    cursor_position: usize,
    /// Scrollback output buffer, capped at `SCROLLBACK_CAPACITY`.
    output_lines: VecDeque<OutputLine>,
    /// Number of lines scrolled up from the bottom.
    scroll_offset: usize,
    /// Latest graph snapshot for the side panel.
    graph_snapshot: GraphSnapshot,
    /// Current operational mode.
    mode: ConsoleMode,
    /// Whether the console should exit on the next loop iteration.
    should_quit: bool,
}

/// Values of a sequence of scrollback lines.
pub open spec fn lines_of_output(ls: Seq<OutputLine>) -> Seq<OutputLineV> {
    ls.map_values(|l: OutputLine| l@)
}

impl ConsoleApp {
    /// The characters of the input box.
    pub closed spec fn input(&self) -> Seq<char> {
        self.input_buffer@
    }

    /// The cursor position within the input box.
    pub closed spec fn cursor(&self) -> nat {
        self.cursor_position as nat
    }

    /// The scrollback, oldest line first.
    pub closed spec fn lines(&self) -> Seq<OutputLineV> {
        lines_of_output(self.output_lines@)
    }

    /// Lines scrolled up from the bottom.
    pub closed spec fn scroll(&self) -> nat {
        self.scroll_offset as nat
    }

    /// The operational mode.
    pub closed spec fn mode_spec(&self) -> ConsoleMode {
        self.mode
    }

    /// Whether the console is to exit.
    pub closed spec fn quitting(&self) -> bool {
        self.should_quit
    }

    /// The graph snapshot the side panel shows.
    pub closed spec fn snapshot_spec(&self) -> GraphSnapshot {
        self.graph_snapshot
    }

    /// Whether the side panel holds a loaded graph snapshot.
    pub open spec fn graph_available(&self) -> bool {
        self.snapshot_spec().available
    }

    /// The cursor stays within the input, the scrollback within its
    /// capacity, and the scroll offset within the scrollback.
    pub open spec fn wf(&self) -> bool {
        &&& self.cursor() <= self.input().len()
        &&& self.lines().len() <= SCROLLBACK_CAPACITY
        &&& (self.scroll() == 0 || self.scroll() < self.lines().len())
    }

    /// Creates a console with empty state and an unavailable graph snapshot.
    pub fn new() -> (r: Self)
        ensures
            r.wf(),
            r.input().len() == 0,
            r.cursor() == 0,
            r.lines().len() == 0,
            r.scroll() == 0,
            r.mode_spec() == ConsoleMode::Idle,
            !r.quitting(),
            !r.graph_available(),
            r.snapshot_spec().stats is None,
            r.snapshot_spec().communities@.len() == 0,
            r.snapshot_spec().hubs@.len() == 0,
    {
        let r = ConsoleApp {
            input_buffer: Vec::new(),
            cursor_position: 0,
            output_lines: VecDeque::new(),
            scroll_offset: 0,
            graph_snapshot: GraphSnapshot::unavailable(),
            mode: ConsoleMode::Idle,
            should_quit: false,
        };
        assert(r.lines() =~= Seq::<OutputLineV>::empty());
        r
    }

    /// Pushes a new line onto the scrollback, evicting the oldest line when the
    /// capacity cap is reached.
    pub fn push_output(&mut self, text: String, kind: OutputKind)
        requires
            old(self).wf(),
        ensures
            final(self).wf(),
            final(self).snapshot_spec() == old(self).snapshot_spec(),
            final(self).lines() == push_line_spec(old(self).lines(), OutputLineV { text: text@, kind }),
            final(self).input() == old(self).input(),
            final(self).cursor() == old(self).cursor(),
            final(self).scroll() == old(self).scroll(),
            final(self).mode_spec() == old(self).mode_spec(),
            final(self).quitting() == old(self).quitting(),
    {
        broadcast use vstd::std_specs::vecdeque::axiom_spec_len;
        let ghost before = self.output_lines@;
        if self.output_lines.len() >= SCROLLBACK_CAPACITY {
            self.output_lines.pop_front();
            assert(lines_of_output(self.output_lines@) =~= lines_of_output(before).skip(1));
        }
        let ghost mid = self.output_lines@;
        let line = OutputLine { text, kind };
        self.output_lines.push_back(line);
        assert(lines_of_output(self.output_lines@) =~= lines_of_output(mid).push(line@));
    }

    /// Appends a streamed answer token to the scrollback. The token's text up
    /// to its first newline extends the last line when that is an answer line;
    /// each newline starts a new answer line.
    pub fn append_ask_token(&mut self, token: &str)
        requires
            old(self).wf(),
        ensures
            final(self).wf(),
            final(self).snapshot_spec() == old(self).snapshot_spec(),
            final(self).lines() == append_token_spec(old(self).lines(), token@),
            final(self).input() == old(self).input(),
            final(self).cursor() == old(self).cursor(),
            final(self).scroll() == old(self).scroll(),
            final(self).mode_spec() == old(self).mode_spec(),
            final(self).quitting() == old(self).quitting(),
    {
        broadcast use vstd::std_specs::vecdeque::axiom_spec_len;
        let v = chars_of(token);
        let ranges = split_ranges(&v, 0, v.len(), '\n');
        let ghost frags = split_char(token@, '\n');
        assert(v@.subrange(0, v@.len() as int) =~= token@);
        let ghost before = self.lines();
        let (a0, b0) = ranges[0];
        let first = string_of(&v, a0, b0);
        let n = self.output_lines.len();
        if n > 0 && self.output_lines[n - 1].kind == OutputKind::AskToken {
            let ghost prev = self.output_lines@;
            let last = self.output_lines.pop_back();
            match last {
                Some(mut l) => {
                    l.text.append(first.as_str());
                    self.output_lines.push_back(l);
                    assert(lines_of_output(self.output_lines@) =~= before.update(
                        before.len() - 1,
                        ask_line(before.last().text + frags[0]),
                    ));
                },
                None => {},
            }
        } else {
            self.push_output(first, OutputKind::AskToken);
        }
        let ghost start = self.lines();
        let ghost rest = frags.skip(1).map_values(|f: Seq<char>| ask_line(f));
        let mut i: usize = 1;
        assert(rest.take(0) =~= Seq::<OutputLineV>::empty());
        while i < ranges.len()
            invariant
                1 <= i <= ranges@.len(),
                ranges_cover(v@, ranges@, frags),
                rest == frags.skip(1).map_values(|f: Seq<char>| ask_line(f)),
                self.wf(),
                self.lines() == push_all_spec(start, rest.take(i - 1)),
                self.snapshot_spec() == old(self).snapshot_spec(),
                self.input() == old(self).input(),
                self.cursor() == old(self).cursor(),
                self.scroll() == old(self).scroll(),
                self.mode_spec() == old(self).mode_spec(),
                self.quitting() == old(self).quitting(),
            decreases ranges@.len() - i,
        {
            let (a, b) = ranges[i];
            let piece = string_of(&v, a, b);
            assert(rest.take(i as int).drop_last() =~= rest.take(i - 1));
            assert(rest.take(i as int).last() == ask_line(v@.subrange(a as int, b as int)));
            self.push_output(piece, OutputKind::AskToken);
            i = i + 1;
        }
        assert(rest.take(ranges@.len() - 1) =~= rest);
    }

    /// Inserts `character` at the current cursor position in the input buffer.
    pub fn insert_char(&mut self, character: char)
        requires
            old(self).wf(),
            old(self).input().len() < usize::MAX,
        ensures
            final(self).wf(),
            final(self).snapshot_spec() == old(self).snapshot_spec(),
            final(self).input() == old(self).input().insert(old(self).cursor() as int, character),
            final(self).cursor() == old(self).cursor() + 1,
            final(self).lines() == old(self).lines(),
            final(self).scroll() == old(self).scroll(),
            final(self).mode_spec() == old(self).mode_spec(),
            final(self).quitting() == old(self).quitting(),
    {
        self.input_buffer.insert(self.cursor_position, character);
        self.cursor_position = self.cursor_position + 1;
    }

    /// Removes the character immediately before the cursor (backspace behaviour).
    pub fn backspace(&mut self)
        requires
            old(self).wf(),
        ensures
            final(self).wf(),
            final(self).snapshot_spec() == old(self).snapshot_spec(),
            old(self).cursor() == 0 ==> final(self).input() == old(self).input() && final(self).cursor() == 0,
            old(self).cursor() > 0 ==> final(self).input() == old(self).input().remove(
                old(self).cursor() - 1,
            ) && final(self).cursor() == old(self).cursor() - 1,
            final(self).lines() == old(self).lines(),
            final(self).scroll() == old(self).scroll(),
            final(self).mode_spec() == old(self).mode_spec(),
            final(self).quitting() == old(self).quitting(),
    {
        if self.cursor_position > 0 {
            self.cursor_position = self.cursor_position - 1;
            self.input_buffer.remove(self.cursor_position);
        }
    }

    /// Moves the cursor one position to the left (bounded at zero).
    pub fn move_cursor_left(&mut self)
        requires
            old(self).wf(),
        ensures
            final(self).wf(),
            final(self).snapshot_spec() == old(self).snapshot_spec(),
            final(self).cursor() == if old(self).cursor() > 0 { old(self).cursor() - 1 } else { 0 },
            final(self).input() == old(self).input(),
            final(self).lines() == old(self).lines(),
            final(self).scroll() == old(self).scroll(),
            final(self).mode_spec() == old(self).mode_spec(),
            final(self).quitting() == old(self).quitting(),
    {
        if self.cursor_position > 0 {
            self.cursor_position = self.cursor_position - 1;
        }
    }

    /// Moves the cursor one position to the right (bounded at the buffer length).
    pub fn move_cursor_right(&mut self)
        requires
            old(self).wf(),
        ensures
            final(self).wf(),
            final(self).snapshot_spec() == old(self).snapshot_spec(),
            final(self).cursor() == if old(self).cursor() < old(self).input().len() {
                old(self).cursor() + 1
            } else {
                old(self).input().len()
            },
            final(self).input() == old(self).input(),
            final(self).lines() == old(self).lines(),
            final(self).scroll() == old(self).scroll(),
            final(self).mode_spec() == old(self).mode_spec(),
            final(self).quitting() == old(self).quitting(),
    {
        if self.cursor_position < self.input_buffer.len() {
            self.cursor_position = self.cursor_position + 1;
        }
    }

    /// Takes the current input buffer contents, leaving it empty, and resets
    /// the cursor. Returns the previous contents.
    pub fn take_input(&mut self) -> (r: String)
        requires
            old(self).wf(),
        ensures
            final(self).wf(),
            final(self).snapshot_spec() == old(self).snapshot_spec(),
            r@ == old(self).input(),
            final(self).input().len() == 0,
            final(self).cursor() == 0,
            final(self).lines() == old(self).lines(),
            final(self).scroll() == old(self).scroll(),
            final(self).mode_spec() == old(self).mode_spec(),
            final(self).quitting() == old(self).quitting(),
    {
        let r = string_of_all(&self.input_buffer);
        self.input_buffer = Vec::new();
        self.cursor_position = 0;
        r
    }

    /// Returns the current input buffer.
    pub fn input_buffer(&self) -> (r: String)
        ensures
            r@ == self.input(),
    {
        string_of_all(&self.input_buffer)
    }

    /// Returns the current cursor position within the input buffer.
    pub fn cursor_position(&self) -> (r: usize)
        ensures
            r == self.cursor(),
    {
        self.cursor_position
    }

    /// Returns all output lines in order (oldest first).
    pub fn output_lines(&self) -> (r: &VecDeque<OutputLine>)
        ensures
            lines_of_output(r@) == self.lines(),
    {
        &self.output_lines
    }

    /// Returns the current scroll offset (lines from the bottom).
    pub fn scroll_offset(&self) -> (r: usize)
        ensures
            r == self.scroll(),
    {
        self.scroll_offset
    }

    /// Scrolls the conversation pane up by one line, no further than the
    /// oldest line.
    pub fn scroll_up(&mut self)
        requires
            old(self).wf(),
        ensures
            final(self).wf(),
            final(self).snapshot_spec() == old(self).snapshot_spec(),
            final(self).scroll() == if old(self).scroll() + 1 < old(self).lines().len() {
                old(self).scroll() + 1
            } else if old(self).lines().len() > 0 {
                (old(self).lines().len() - 1) as nat
            } else {
                0
            },
            final(self).input() == old(self).input(),
            final(self).cursor() == old(self).cursor(),
            final(self).lines() == old(self).lines(),
            final(self).mode_spec() == old(self).mode_spec(),
            final(self).quitting() == old(self).quitting(),
    {
        broadcast use vstd::std_specs::vecdeque::axiom_spec_len;
        let len = self.output_lines.len();
        let max_offset = if len > 0 { len - 1 } else { 0 };
        self.scroll_offset = if self.scroll_offset + 1 < max_offset { self.scroll_offset + 1 } else { max_offset };
    }

    /// Scrolls the conversation pane down by one line (bounded at zero).
    pub fn scroll_down(&mut self)
        requires
            old(self).wf(),
        ensures
            final(self).wf(),
            final(self).snapshot_spec() == old(self).snapshot_spec(),
            final(self).scroll() == if old(self).scroll() > 0 { old(self).scroll() - 1 } else { 0 },
            final(self).input() == old(self).input(),
            final(self).cursor() == old(self).cursor(),
            final(self).lines() == old(self).lines(),
            final(self).mode_spec() == old(self).mode_spec(),
            final(self).quitting() == old(self).quitting(),
    {
        if self.scroll_offset > 0 {
            self.scroll_offset = self.scroll_offset - 1;
        }
    }

    /// The current operational mode.
    pub fn mode(&self) -> (r: ConsoleMode)
        ensures
            r == self.mode_spec(),
    {
        self.mode
    }

    /// Whether the console should exit on the next loop iteration.
    pub fn should_quit(&self) -> (r: bool)
        ensures
            r == self.quitting(),
    {
        self.should_quit
    }

    /// The latest graph snapshot.
    pub fn graph_snapshot(&self) -> (r: &GraphSnapshot)
        ensures
            *r == self.snapshot_spec(),
    {
        &self.graph_snapshot
    }

    /// Replaces the current graph snapshot with the given one.
    pub fn apply_graph_snapshot(&mut self, snapshot: GraphSnapshot)
        requires
            old(self).wf(),
        ensures
            final(self).wf(),
            final(self).snapshot_spec() == snapshot,
            final(self).input() == old(self).input(),
            final(self).cursor() == old(self).cursor(),
            final(self).lines() == old(self).lines(),
            final(self).scroll() == old(self).scroll(),
            final(self).mode_spec() == old(self).mode_spec(),
            final(self).quitting() == old(self).quitting(),
    {
        self.graph_snapshot = snapshot;
    }
}

/// The help text pushed into the scrollback on `help`.
pub open spec fn help_text_spec() -> Seq<char> {
    "Commands:
  <question>           Ask the codebase anything (default — just type prose)
  ask <question>       Same as above, explicit form
  run <task>           Run the full STVP + multi-agent pipeline
  index [path]         Build/refresh the CRG symbol index
  night [task,...]     Start autonomous Night Mode (Dawn Digest on completion)
  canvas [url]         Open the visual canvas editor (optionally cloning a URL)
  observe              Open the live telemetry TUI
  doctor               Run preflight health checks
  help / ?             Show this help
  quit / exit / q      Exit the Yantra Console

  Graph panel (right): auto-refreshes every 5 s + after index/run.
  Telemetry footer:    updates every 1 s from .yantra/traces.sqlite.
  PageUp/PageDown:     scroll conversation."@
}

/// Returns the help text that is pushed into the scrollback on `help`.
pub fn help_text() -> (r: &'static str)
    ensures
        r@ == help_text_spec(),
{
    "Commands:
  <question>           Ask the codebase anything (default — just type prose)
  ask <question>       Same as above, explicit form
  run <task>           Run the full STVP + multi-agent pipeline
  index [path]         Build/refresh the CRG symbol index
  night [task,...]     Start autonomous Night Mode (Dawn Digest on completion)
  canvas [url]         Open the visual canvas editor (optionally cloning a URL)
  observe              Open the live telemetry TUI
  doctor               Run preflight health checks
  help / ?             Show this help
  quit / exit / q      Exit the Yantra Console

  Graph panel (right): auto-refreshes every 5 s + after index/run.
  Telemetry footer:    updates every 1 s from .yantra/traces.sqlite.
  PageUp/PageDown:     scroll conversation."
}

/// A command that takes over the terminal while it runs.
#[derive(Debug, Clone, PartialEq, Eq)]
pub enum ForegroundJob {
    /// The validation and multi-agent pipeline for a task.
    Run(String),
    /// Night Mode over the given tasks.
    Night(Vec<String>),
    /// The canvas editor, optionally cloning a URL.
    Canvas(Option<String>),
    /// The observability view.
    Observe,
    /// The preflight checks.
    Doctor,
}

/// What the console asks its host to do after a key or a command.
#[derive(Debug, Clone, PartialEq, Eq)]
pub enum ConsoleAction {
    /// Nothing beyond the state change.
    Nothing,
    /// Start streaming an answer to the question.
    StartAsk(String),
    /// Abort the answer being streamed.
    CancelAsk,
    /// Build the graph index for the path.
    BuildIndex(String),
    /// Suspend the console and run the job in the foreground.
    Foreground(ForegroundJob),
}

/// Mathematical value of a host action.
pub enum ActionV {
    Nothing,
    StartAsk(Seq<char>),
    CancelAsk,
    BuildIndex(Seq<char>),
    Run(Seq<char>),
    Night(Seq<Seq<char>>),
    Canvas(Option<Seq<char>>),
    Observe,
    Doctor,
}

impl View for ConsoleAction {
    type V = ActionV;

    open spec fn view(&self) -> ActionV {
        match self {
            ConsoleAction::Nothing => ActionV::Nothing,
            ConsoleAction::StartAsk(q) => ActionV::StartAsk(q@),
            ConsoleAction::CancelAsk => ActionV::CancelAsk,
            ConsoleAction::BuildIndex(p) => ActionV::BuildIndex(p@),
            ConsoleAction::Foreground(ForegroundJob::Run(t)) => ActionV::Run(t@),
            ConsoleAction::Foreground(ForegroundJob::Night(ts)) => ActionV::Night(texts(ts@)),
            ConsoleAction::Foreground(ForegroundJob::Canvas(u)) => ActionV::Canvas(opt_text(*u)),
            ConsoleAction::Foreground(ForegroundJob::Observe) => ActionV::Observe,
            ConsoleAction::Foreground(ForegroundJob::Doctor) => ActionV::Doctor,
        }
    }
}

/// The part of the console state that commands change.
pub struct StepV {
    pub mode: ConsoleMode,
    pub lines: Seq<OutputLineV>,
    pub quit: bool,
    pub action: ActionV,
}

/// A system line.
pub open spec fn system_line(text: Seq<char>) -> OutputLineV {
    OutputLineV { text, kind: OutputKind::System }
}

/// What a command does to the console: help and progress lines, the mode,
/// the quit flag, and the work handed to the host. An ask while another
/// is streaming is refused with a warning; foreground jobs suspend the
/// console.
pub open spec fn dispatch_spec(mode: ConsoleMode, lines: Seq<OutputLineV>, quit: bool, cmd: CommandV) -> StepV {
    match cmd {
        CommandV::Empty => StepV { mode, lines, quit, action: ActionV::Nothing },
        CommandV::Help => StepV {
            mode,
            lines: push_line_spec(lines, system_line(help_text_spec())),
            quit,
            action: ActionV::Nothing,
        },
        CommandV::Quit => StepV { mode, lines, quit: true, action: ActionV::Nothing },
        CommandV::Ask(q) => if mode != ConsoleMode::Idle {
            StepV {
                mode,
                lines: push_line_spec(
                    lines,
                    OutputLineV {
                        text: "(busy — wait for the current ask to finish)"@,
                        kind: OutputKind::Warning,
                    },
                ),
                quit,
                action: ActionV::Nothing,
            }
        } else {
            StepV { mode: ConsoleMode::AskInFlight, lines, quit, action: ActionV::StartAsk(q) }
        },
        CommandV::Index(p) => {
            let target = match p {
                Some(x) => x,
                None => "."@,
            };
            StepV {
                mode,
                lines: push_line_spec(lines, system_line("Building CRG index for "@ + target + "…"@)),
                quit,
                action: ActionV::BuildIndex(target),
            }
        },
        CommandV::Run(t) => StepV { mode: ConsoleMode::Suspended, lines, quit, action: ActionV::Run(t) },
        CommandV::Night(ts) => StepV { mode: ConsoleMode::Suspended, lines, quit, action: ActionV::Night(ts) },
        CommandV::Canvas(u) => StepV { mode: ConsoleMode::Suspended, lines, quit, action: ActionV::Canvas(u) },
        CommandV::Observe => StepV { mode: ConsoleMode::Suspended, lines, quit, action: ActionV::Observe },
        CommandV::Doctor => StepV { mode: ConsoleMode::Suspended, lines, quit, action: ActionV::Doctor },
    }
}

/// A key as the console sees it.
#[derive(Debug, Clone, Copy, PartialEq, Eq, Structural)]
pub enum ConsoleKey {
    /// A character, with whether Control was held.
    Char { ch: char, control: bool },
    Esc,
    Enter,
    Backspace,
    Left,
    Right,
    Up,
    Down,
    PageUp,
    PageDown,
    /// Any other key.
    Other,
}

/// How a foreground job ended.
#[derive(Debug, Clone, PartialEq, Eq)]
pub enum ForegroundOutcome {
    /// The terminal could not be handed over; the job did not run.
    SuspendFailed(String),
    /// The job ran but the terminal could not be taken back.
    ResumeFailed,
    /// The job finished, with its error message if it failed.
    Finished(Option<String>),
}

/// An event of a streamed answer.
#[derive(Debug, Clone, PartialEq, Eq)]
pub enum AskUpdate {
    /// The graph context of the answer, or the notice that there is none.
    Subgraph(String),
    /// A piece of the answer.
    Token(String),
    /// A warning about the answer's grounding.
    GroundingWarning(String),
    /// The answer is complete; the line reports what it cost.
    Finished(String),
}

impl ConsoleApp {
    /// Creates the console with its start-up lines: the banner, whether the
    /// graph index was found, and a blank line.
    pub fn start(index_present: bool) -> (r: Self)
        ensures
            r.wf(),
            r.input().len() == 0,
            r.cursor() == 0,
            r.scroll() == 0,
            r.mode_spec() == ConsoleMode::Idle,
            !r.quitting(),
            !r.graph_available(),
            r.snapshot_spec().stats is None,
            r.snapshot_spec().communities@.len() == 0,
            r.snapshot_spec().hubs@.len() == 0,
            r.lines() == seq![
                system_line("◉  Yantra Console  —  type a question or command; `help` for guidance"@),
                if index_present {
                    system_line("  [✓] CRG index found — graph panel will populate shortly"@)
                } else {
                    OutputLineV {
                        text: "  [!] CRG index missing — type `index` or `index <path>` to build it"@,
                        kind: OutputKind::Warning,
                    }
                },
                system_line(Seq::<char>::empty()),
            ],
    {
        let mut app = ConsoleApp::new();
        app.push_output(
            String::from_str("◉  Yantra Console  —  type a question or command; `help` for guidance"),
            OutputKind::System,
        );
        if index_present {
            app.push_output(
                String::from_str("  [✓] CRG index found — graph panel will populate shortly"),
                OutputKind::System,
            );
        } else {
            app.push_output(
                String::from_str("  [!] CRG index missing — type `index` or `index <path>` to build it"),
                OutputKind::Warning,
            );
        }
        app.push_output(String::new(), OutputKind::System);
        assert(app.lines() =~= seq![
            system_line("◉  Yantra Console  —  type a question or command; `help` for guidance"@),
            if index_present {
                system_line("  [✓] CRG index found — graph panel will populate shortly"@)
            } else {
                OutputLineV {
                    text: "  [!] CRG index missing — type `index` or `index <path>` to build it"@,
                    kind: OutputKind::Warning,
                }
            },
            system_line(Seq::<char>::empty()),
        ]);
        app
    }

    /// Carries out a parsed command on the console state and returns the
    /// work for the host (see `dispatch_spec`).
    pub fn dispatch(&mut self, command: ConsoleCommand) -> (action: ConsoleAction)
        requires
            old(self).wf(),
        ensures
            final(self).wf(),
            final(self).snapshot_spec() == old(self).snapshot_spec(),
            (StepV {
                mode: final(self).mode_spec(),
                lines: final(self).lines(),
                quit: final(self).quitting(),
                action: action@,
            }) == dispatch_spec(old(self).mode_spec(), old(self).lines(), old(self).quitting(), command@),
            final(self).input() == old(self).input(),
            final(self).cursor() == old(self).cursor(),
            final(self).scroll() == old(self).scroll(),
    {
        match command {
            ConsoleCommand::Empty => ConsoleAction::Nothing,
            ConsoleCommand::Help => {
                self.push_output(String::from_str(help_text()), OutputKind::System);
                ConsoleAction::Nothing
            },
            ConsoleCommand::Quit => {
                self.should_quit = true;
                ConsoleAction::Nothing
            },
            ConsoleCommand::Ask(question) => {
                if self.mode != ConsoleMode::Idle {
                    self.push_output(
                        String::from_str("(busy — wait for the current ask to finish)"),
                        OutputKind::Warning,
                    );
                    ConsoleAction::Nothing
                } else {
                    self.mode = ConsoleMode::AskInFlight;
                    ConsoleAction::StartAsk(question)
                }
            },
            ConsoleCommand::Index(optional_path) => {
                let target = match optional_path {
                    Some(p) => p,
                    None => String::from_str("."),
                };
                let mut message = String::from_str("Building CRG index for ");
                message.append(target.as_str());
                message.append("…");
                self.push_output(message, OutputKind::System);
                ConsoleAction::BuildIndex(target)
            },
            ConsoleCommand::Run(task) => {
                self.mode = ConsoleMode::Suspended;
                ConsoleAction::Foreground(ForegroundJob::Run(task))
            },
            ConsoleCommand::Night(tasks) => {
                self.mode = ConsoleMode::Suspended;
                ConsoleAction::Foreground(ForegroundJob::Night(tasks))
            },
            ConsoleCommand::Canvas(url) => {
                self.mode = ConsoleMode::Suspended;
                ConsoleAction::Foreground(ForegroundJob::Canvas(url))
            },
            ConsoleCommand::Observe => {
                self.mode = ConsoleMode::Suspended;
                ConsoleAction::Foreground(ForegroundJob::Observe)
            },
            ConsoleCommand::Doctor => {
                self.mode = ConsoleMode::Suspended;
                ConsoleAction::Foreground(ForegroundJob::Doctor)
            },
        }
    }
}

/// Mathematical value of the console state.
pub struct ConsoleV {
    pub input: Seq<char>,
    pub cursor: nat,
    pub lines: Seq<OutputLineV>,
    pub scroll: nat,
    pub mode: ConsoleMode,
    pub quit: bool,
}

/// The scroll offset after scrolling up once over `len` lines.
pub open spec fn scroll_up_spec(scroll: nat, len: nat) -> nat {
    if scroll + 1 < len {
        scroll + 1
    } else if len > 0 {
        (len - 1) as nat
    } else {
        0
    }
}

/// Escape, or Control and `c`.
pub open spec fn is_cancel_key(key: ConsoleKey) -> bool {
    key == ConsoleKey::Esc || key == (ConsoleKey::Char { ch: 'c', control: true })
}

/// What a key does to the console. Escape or Control-C cancels a streaming
/// answer, or else quits. While the console is idle, Enter submits the
/// input line (echoed when not blank) as a command, characters and
/// Backspace edit the line and the arrows move the cursor. Up, Down and
/// the page keys scroll in any mode.
pub open spec fn key_spec(st: ConsoleV, key: ConsoleKey) -> (ConsoleV, ActionV) {
    let idle = st.mode == ConsoleMode::Idle;
    if is_cancel_key(key) {
        if st.mode == ConsoleMode::AskInFlight {
            (
                ConsoleV {
                    mode: ConsoleMode::Idle,
                    lines: push_line_spec(st.lines, system_line("(ask cancelled)"@)),
                    ..st
                },
                ActionV::CancelAsk,
            )
        } else {
            (ConsoleV { quit: true, ..st }, ActionV::Nothing)
        }
    } else {
        match key {
            ConsoleKey::Enter => if idle {
                let raw = st.input;
                let echoed = if trim(raw).len() > 0 {
                    push_line_spec(st.lines, OutputLineV { text: "› "@ + raw, kind: OutputKind::UserInput })
                } else {
                    st.lines
                };
                let step = dispatch_spec(st.mode, echoed, st.quit, parse_command_spec(raw));
                (
                    ConsoleV {
                        input: seq![],
                        cursor: 0,
                        lines: step.lines,
                        scroll: st.scroll,
                        mode: step.mode,
                        quit: step.quit,
                    },
                    step.action,
                )
            } else {
                (st, ActionV::Nothing)
            },
            ConsoleKey::Char { ch, control } => if idle && st.input.len() < usize::MAX {
                (ConsoleV { input: st.input.insert(st.cursor as int, ch), cursor: st.cursor + 1, ..st }, ActionV::Nothing)
            } else {
                (st, ActionV::Nothing)
            },
            ConsoleKey::Backspace => if idle && st.cursor > 0 {
                (ConsoleV { input: st.input.remove(st.cursor - 1), cursor: (st.cursor - 1) as nat, ..st }, ActionV::Nothing)
            } else {
                (st, ActionV::Nothing)
            },
            ConsoleKey::Left => if idle && st.cursor > 0 {
                (ConsoleV { cursor: (st.cursor - 1) as nat, ..st }, ActionV::Nothing)
            } else {
                (st, ActionV::Nothing)
            },
            ConsoleKey::Right => if idle && st.cursor < st.input.len() {
                (ConsoleV { cursor: st.cursor + 1, ..st }, ActionV::Nothing)
            } else {
                (st, ActionV::Nothing)
            },
            ConsoleKey::Up | ConsoleKey::PageUp => (
                ConsoleV { scroll: scroll_up_spec(st.scroll, st.lines.len()), ..st },
                ActionV::Nothing,
            ),
            ConsoleKey::Down | ConsoleKey::PageDown => (
                ConsoleV { scroll: if st.scroll > 0 { (st.scroll - 1) as nat } else { 0 }, ..st },
                ActionV::Nothing,
            ),
            _ => (st, ActionV::Nothing),
        }
    }
}

/// The notice a streamed answer carries when there is no graph context.
pub open spec fn no_crg_prefix() -> Seq<char> {
    seq!['(', 'N', 'o', ' ', 'C', 'R', 'G']
}

impl ForegroundJob {
    /// The job's name as shown in the console.
    pub fn label(&self) -> (r: &'static str)
        ensures
            r@ == match self {
                ForegroundJob::Run(_) => "run"@,
                ForegroundJob::Night(_) => "night"@,
                ForegroundJob::Canvas(_) => "canvas"@,
                ForegroundJob::Observe => "observe"@,
                ForegroundJob::Doctor => "doctor"@,
            },
    {
        match self {
            ForegroundJob::Run(_) => "run",
            ForegroundJob::Night(_) => "night",
            ForegroundJob::Canvas(_) => "canvas",
            ForegroundJob::Observe => "observe",
            ForegroundJob::Doctor => "doctor",
        }
    }
}

/// The command a task given at start-up is submitted as (`run <task>`).
pub fn auto_submit_command(task_text: &str) -> (r: ConsoleCommand)
    ensures
        r@ == parse_command_spec("run "@ + task_text@),
{
    let mut line = String::from_str("run ");
    line.append(task_text);
    ConsoleApp::parse_command(line.as_str())
}

impl ConsoleApp {
    /// The whole console state as a value.
    pub open spec fn state(&self) -> ConsoleV {
        ConsoleV {
            input: self.input(),
            cursor: self.cursor(),
            lines: self.lines(),
            scroll: self.scroll(),
            mode: self.mode_spec(),
            quit: self.quitting(),
        }
    }

    /// Handles a key press (see `key_spec`) and returns the work for the host.
    pub fn handle_key(&mut self, key: ConsoleKey) -> (action: ConsoleAction)
        requires
            old(self).wf(),
        ensures
            final(self).wf(),
            final(self).snapshot_spec() == old(self).snapshot_spec(),
            (final(self).state(), action@) == key_spec(old(self).state(), key),
    {
        let idle = self.mode == ConsoleMode::Idle;
        if key == ConsoleKey::Esc || key == (ConsoleKey::Char { ch: 'c', control: true }) {
            if self.mode == ConsoleMode::AskInFlight {
                self.mode = ConsoleMode::Idle;
                self.push_output(String::from_str("(ask cancelled)"), OutputKind::System);
                return ConsoleAction::CancelAsk;
            } else {
                self.should_quit = true;
                return ConsoleAction::Nothing;
            }
        }
        match key {
            ConsoleKey::Enter => {
                if !idle {
                    return ConsoleAction::Nothing;
                }
                let raw_input = self.take_input();
                assert(self.input() =~= Seq::<char>::empty());
                let rv = chars_of(raw_input.as_str());
                let (lo, hi) = trim_range(&rv, 0, rv.len());
                assert(rv@.subrange(0, rv@.len() as int) =~= rv@);
                if lo < hi {
                    let mut echo = String::from_str("› ");
                    echo.append(raw_input.as_str());
                    self.push_output(echo, OutputKind::UserInput);
                }
                let command = ConsoleApp::parse_command(raw_input.as_str());
                let action = self.dispatch(command);
                assert(self.state().input =~= seq![]);
                action
            },
            ConsoleKey::Char { ch, control } => {
                if idle && self.input_buffer.len() < usize::MAX {
                    self.insert_char(ch);
                }
                ConsoleAction::Nothing
            },
            ConsoleKey::Backspace => {
                if idle {
                    self.backspace();
                }
                ConsoleAction::Nothing
            },
            ConsoleKey::Left => {
                if idle {
                    self.move_cursor_left();
                }
                ConsoleAction::Nothing
            },
            ConsoleKey::Right => {
                if idle {
                    self.move_cursor_right();
                }
                ConsoleAction::Nothing
            },
            ConsoleKey::Up | ConsoleKey::PageUp => {
                self.scroll_up();
                ConsoleAction::Nothing
            },
            ConsoleKey::Down | ConsoleKey::PageDown => {
                self.scroll_down();
                ConsoleAction::Nothing
            },
            _ => ConsoleAction::Nothing,
        }
    }

    /// Shows an event of the streamed answer; returns whether the answer is
    /// complete.
    pub fn on_ask_update(&mut self, update: AskUpdate) -> (finished: bool)
        requires
            old(self).wf(),
        ensures
            final(self).wf(),
            final(self).snapshot_spec() == old(self).snapshot_spec(),
            final(self).lines() == match update {
                AskUpdate::Subgraph(t) => push_line_spec(
                    old(self).lines(),
                    OutputLineV {
                        text: if has_prefix(t@, no_crg_prefix()) { t@ } else { "── CRG context extracted ──"@ },
                        kind: OutputKind::Subgraph,
                    },
                ),
                AskUpdate::Token(t) => append_token_spec(old(self).lines(), t@),
                AskUpdate::GroundingWarning(w) => push_line_spec(
                    old(self).lines(),
                    OutputLineV { text: "⚠ "@ + w@, kind: OutputKind::Warning },
                ),
                AskUpdate::Finished(l) => push_line_spec(old(self).lines(), system_line(l@)),
            },
            finished == (update is Finished),
            final(self).input() == old(self).input(),
            final(self).cursor() == old(self).cursor(),
            final(self).scroll() == old(self).scroll(),
            final(self).mode_spec() == old(self).mode_spec(),
            final(self).quitting() == old(self).quitting(),
    {
        match update {
            AskUpdate::Subgraph(text) => {
                let v = chars_of(text.as_str());
                let prefix = vec!['(', 'N', 'o', ' ', 'C', 'R', 'G'];
                assert(prefix@ =~= no_crg_prefix());
                if range_has_prefix(&v, 0, v.len(), &prefix) {
                    assert(v@.subrange(0, v@.len() as int) =~= text@);
                    self.push_output(text, OutputKind::Subgraph);
                } else {
                    assert(v@.subrange(0, v@.len() as int) =~= text@);
                    self.push_output(String::from_str("── CRG context extracted ──"), OutputKind::Subgraph);
                }
                false
            },
            AskUpdate::Token(token) => {
                self.append_ask_token(token.as_str());
                false
            },
            AskUpdate::GroundingWarning(warning) => {
                let mut line = String::from_str("⚠ ");
                line.append(warning.as_str());
                self.push_output(line, OutputKind::Warning);
                false
            },
            AskUpdate::Finished(cost_line) => {
                self.push_output(cost_line, OutputKind::System);
                true
            },
        }
    }

    /// Closes a streamed answer, reporting its error if it failed.
    pub fn ask_finished(&mut self, error: Option<String>)
        requires
            old(self).wf(),
        ensures
            final(self).wf(),
            final(self).snapshot_spec() == old(self).snapshot_spec(),
            final(self).lines() == match error {
                Some(e) => push_line_spec(
                    old(self).lines(),
                    OutputLineV { text: "ask error: "@ + e@, kind: OutputKind::Error },
                ),
                None => old(self).lines(),
            },
            final(self).mode_spec() == ConsoleMode::Idle,
            final(self).input() == old(self).input(),
            final(self).cursor() == old(self).cursor(),
            final(self).scroll() == old(self).scroll(),
            final(self).quitting() == old(self).quitting(),
    {
        match error {
            Some(e) => {
                let mut line = String::from_str("ask error: ");
                line.append(e.as_str());
                self.push_output(line, OutputKind::Error);
            },
            None => {},
        }
        self.mode = ConsoleMode::Idle;
    }

    /// Reports the end of an index build; returns whether the graph panel
    /// should be refreshed.
    pub fn index_finished(&mut self, error: Option<String>) -> (refresh: bool)
        requires
            old(self).wf(),
        ensures
            final(self).wf(),
            final(self).snapshot_spec() == old(self).snapshot_spec(),
            final(self).lines() == match error {
                Some(e) => push_line_spec(
                    old(self).lines(),
                    OutputLineV { text: "  [✗] index error: "@ + e@, kind: OutputKind::Error },
                ),
                None => push_line_spec(old(self).lines(), system_line("  [✓] CRG index built"@)),
            },
            refresh == (error is None),
            final(self).input() == old(self).input(),
            final(self).cursor() == old(self).cursor(),
            final(self).scroll() == old(self).scroll(),
            final(self).mode_spec() == old(self).mode_spec(),
            final(self).quitting() == old(self).quitting(),
    {
        match error {
            Some(e) => {
                let mut line = String::from_str("  [✗] index error: ");
                line.append(e.as_str());
                self.push_output(line, OutputKind::Error);
                false
            },
            None => {
                self.push_output(String::from_str("  [✓] CRG index built"), OutputKind::System);
                true
            },
        }
    }

    /// Reports how a foreground job ended; returns whether the graph panel
    /// should be refreshed. A job whose terminal could not be taken back
    /// makes the console quit.
    pub fn foreground_finished(&mut self, label: &str, outcome: ForegroundOutcome) -> (refresh: bool)
        requires
            old(self).wf(),
        ensures
            final(self).wf(),
            final(self).snapshot_spec() == old(self).snapshot_spec(),
            match outcome {
                ForegroundOutcome::SuspendFailed(e) => {
                    &&& final(self).lines() == push_line_spec(
                        old(self).lines(),
                        OutputLineV { text: "failed to suspend terminal: "@ + e@, kind: OutputKind::Error },
                    )
                    &&& final(self).mode_spec() == ConsoleMode::Idle
                    &&& final(self).quitting() == old(self).quitting()
                    &&& !refresh
                },
                ForegroundOutcome::ResumeFailed => {
                    &&& final(self).lines() == old(self).lines()
                    &&& final(self).mode_spec() == old(self).mode_spec()
                    &&& final(self).quitting()
                    &&& !refresh
                },
                ForegroundOutcome::Finished(None) => {
                    &&& final(self).lines() == push_line_spec(
                        old(self).lines(),
                        system_line("  [✓] "@ + label@ + " complete"@),
                    )
                    &&& final(self).mode_spec() == ConsoleMode::Idle
                    &&& final(self).quitting() == old(self).quitting()
                    &&& refresh
                },
                ForegroundOutcome::Finished(Some(e)) => {
                    &&& final(self).lines() == push_line_spec(
                        old(self).lines(),
                        OutputLineV { text: "  [✗] "@ + label@ + " error: "@ + e@, kind: OutputKind::Error },
                    )
                    &&& final(self).mode_spec() == ConsoleMode::Idle
                    &&& final(self).quitting() == old(self).quitting()
                    &&& refresh
                },
            },
            final(self).input() == old(self).input(),
            final(self).cursor() == old(self).cursor(),
            final(self).scroll() == old(self).scroll(),
    {
        match outcome {
            ForegroundOutcome::SuspendFailed(e) => {
                let mut line = String::from_str("failed to suspend terminal: ");
                line.append(e.as_str());
                self.push_output(line, OutputKind::Error);
                self.mode = ConsoleMode::Idle;
                false
            },
            ForegroundOutcome::ResumeFailed => {
                self.should_quit = true;
                false
            },
            ForegroundOutcome::Finished(None) => {
                let mut line = String::from_str("  [✓] ");
                line.append(label);
                line.append(" complete");
                self.push_output(line, OutputKind::System);
                self.mode = ConsoleMode::Idle;
                true
            },
            ForegroundOutcome::Finished(Some(e)) => {
                let mut line = String::from_str("  [✗] ");
                line.append(label);
                line.append(" error: ");
                line.append(e.as_str());
                self.push_output(line, OutputKind::Error);
                self.mode = ConsoleMode::Idle;
                true
            },
        }
    }
}

/// Maximum number of lines kept in the log pane of a run.
pub const LOG_CAPACITY: usize = 200;

/// The log pane of a run: timestamped lines, oldest first, at most
/// `LOG_CAPACITY` of them.
pub struct RunLog {
    lines: VecDeque<String>,
}

/// The log after adding `line`: the oldest line leaves when the log is full.
pub open spec fn push_log_spec(lines: Seq<Seq<char>>, line: Seq<char>) -> Seq<Seq<char>> {
    if lines.len() >= LOG_CAPACITY {
        lines.skip(1).push(line)
    } else {
        lines.push(line)
    }
}

impl RunLog {
    /// The lines, oldest first.
    pub closed spec fn entries(&self) -> Seq<Seq<char>> {
        self.lines@.map_values(|l: String| l@)
    }

    /// An empty log.
    pub fn new() -> (r: Self)
        ensures
            r.entries().len() == 0,
    {
        let r = RunLog { lines: VecDeque::new() };
        assert(r.entries() =~= Seq::<Seq<char>>::empty());
        r
    }

    /// Adds `line` stamped with `timestamp` (`<timestamp> <line>`), dropping
    /// the oldest line when the log already holds `LOG_CAPACITY` lines.
    pub fn push_log(&mut self, timestamp: &str, line: &str)
        ensures
            final(self).entries() == push_log_spec(old(self).entries(), timestamp@ + " "@ + line@),
    {
        broadcast use vstd::std_specs::vecdeque::axiom_spec_len;
        let ghost before = self.entries();
        let mut stamped = String::from_str(timestamp);
        stamped.append(" ");
        stamped.append(line);
        if self.lines.len() >= LOG_CAPACITY {
            self.lines.pop_front();
            assert(self.entries() =~= before.skip(1));
        }
        let ghost mid = self.entries();
        let ghost sv = stamped@;
        self.lines.push_back(stamped);
        assert(self.entries() =~= mid.push(sv));
    }

    /// The lines, oldest first.
    pub fn log_lines(&self) -> (r: Vec<String>)
        ensures
            r@.map_values(|l: String| l@) == self.entries(),
    {
        broadcast use vstd::std_specs::vecdeque::axiom_spec_len;
        let mut r: Vec<String> = Vec::new();
        let mut i: usize = 0;
        while i < self.lines.len()
            invariant
                i <= self.lines@.len(),
                r@.map_values(|l: String| l@) == self.entries().take(i as int),
            decreases self.lines@.len() - i,
        {
            let ghost before = r@.map_values(|l: String| l@);
            r.push(self.lines[i].clone());
            assert(r@.map_values(|l: String| l@) =~= before.push(self.entries()[i as int]));
            assert(self.entries().take(i + 1) =~= self.entries().take(i as int).push(self.entries()[i as int]));
            i = i + 1;
        }
        assert(self.entries().take(i as int) =~= self.entries());
        r
    }
}

/// Typing a character and then pressing backspace leaves the input buffer
/// and the cursor as they were: `insert_char` puts the character at the
/// cursor and moves right, `backspace` removes the character before the
/// cursor and moves left.
pub proof fn backspace_undoes_insert(input: Seq<char>, cursor: nat, character: char)
    requires
        cursor <= input.len(),
    ensures
        input.insert(cursor as int, character).remove(((cursor + 1) - 1) as int) == input,
        ((cursor + 1) - 1) as nat == cursor,
{
    assert(input.insert(cursor as int, character).remove(cursor as int) =~= input);
}

/// The scrollback never holds more than `SCROLLBACK_CAPACITY` lines, and
/// the line just pushed is always the newest one: when the scrollback is
/// full the oldest line is dropped, otherwise every line is kept.
pub proof fn scrollback_keeps_the_newest_lines(lines: Seq<OutputLineV>, line: OutputLineV)
    requires
        lines.len() <= SCROLLBACK_CAPACITY,
    ensures
        push_line_spec(lines, line).len() <= SCROLLBACK_CAPACITY,
        push_line_spec(lines, line).last() == line,
        lines.len() < SCROLLBACK_CAPACITY ==> push_line_spec(lines, line).drop_last() == lines,
        lines.len() == SCROLLBACK_CAPACITY ==> push_line_spec(lines, line).drop_last() == lines.skip(1),
{
    assert(lines.push(line).drop_last() =~= lines);
    assert(lines.skip(1).push(line).drop_last() =~= lines.skip(1));
}


/// `a - b`, or 0 when `b` is larger.
pub open spec fn saturating_diff(a: int, b: int) -> int {
    if a > b {
        a - b
    } else {
        0
    }
}

/// The scrollback lines a terminal of `rows` rows shows, as the range
/// `start..end`: four rows go to the header, the footer and the prompt,
/// and the view ends `scroll_offset` lines before the last of the
/// `line_count` lines.
pub fn scroll_window(line_count: usize, scroll_offset: usize, rows: u16) -> (r: (usize, usize))
    ensures
        r.1 == saturating_diff(line_count as int, scroll_offset as int),
        r.0 == saturating_diff(r.1 as int, saturating_diff(rows as int, 4)),
        r.0 <= r.1 <= line_count,
{
    let visible: usize = if rows > 4 { (rows - 4) as usize } else { 0 };
    let end: usize = if line_count > scroll_offset { line_count - scroll_offset } else { 0 };
    let start: usize = if end > visible { end - visible } else { 0 };
    (start, end)
}
} // verus!

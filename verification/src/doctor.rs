//! Preflight health checks: what each check concludes from what was found
//! on disk or on the network, and the plain-text report of all checks.

use vstd::prelude::*;
use crate::text::push_char;

verus! {

/// Options of the preflight check command.
#[derive(Debug, Clone, Copy)]
pub struct DoctorArgs {
    /// Output as JSON instead of a formatted list.
    pub json: bool,
}

/// Outcome of a single preflight check.
#[derive(Debug, Clone, Copy, PartialEq, Eq, Structural)]
pub enum CheckOutcome {
    /// The check passed without issues.
    Pass,
    /// The check found a non-fatal issue that may degrade functionality.
    Warn,
    /// The check found a fatal issue that must be resolved before running tasks.
    Fail,
}

/// Result of a single named preflight check.
#[derive(Debug, Clone)]
pub struct CheckResult {
    /// Short machine-readable name for the check.
    pub name: String,
    /// Whether the check passed, warned, or failed.
    pub outcome: CheckOutcome,
    /// Human-readable explanation of the outcome.
    pub message: String,
}

impl CheckResult {
    /// Constructs a passing check result.
    pub fn pass(name: &str, message: &str) -> (r: Self)
        ensures
            r.name@ == name@,
            r.outcome == CheckOutcome::Pass,
            r.message@ == message@,
    {
        CheckResult { name: String::from_str(name), outcome: CheckOutcome::Pass, message: String::from_str(message) }
    }

    /// Constructs a warning check result.
    pub fn warn(name: &str, message: &str) -> (r: Self)
        ensures
            r.name@ == name@,
            r.outcome == CheckOutcome::Warn,
            r.message@ == message@,
    {
        CheckResult { name: String::from_str(name), outcome: CheckOutcome::Warn, message: String::from_str(message) }
    }

    /// Constructs a failing check result.
    pub fn fail(name: &str, message: &str) -> (r: Self)
        ensures
            r.name@ == name@,
            r.outcome == CheckOutcome::Fail,
            r.message@ == message@,
    {
        CheckResult { name: String::from_str(name), outcome: CheckOutcome::Fail, message: String::from_str(message) }
    }
}

/// The `.yantra/` directory check: it must exist and be a directory.
pub fn check_yantra_dir(exists: bool, is_dir: bool) -> (r: CheckResult)
    ensures
        r.name@ == "yantra-dir"@,
        (exists && is_dir) ==> r.outcome == CheckOutcome::Pass && r.message@ == ".yantra/ directory exists"@,
        !(exists && is_dir) ==> r.outcome == CheckOutcome::Fail && r.message@
            == ".yantra/ not found — run `yantra index .` first"@,
{
    if exists && is_dir {
        CheckResult::pass("yantra-dir", ".yantra/ directory exists")
    } else {
        CheckResult::fail("yantra-dir", ".yantra/ not found — run `yantra index .` first")
    }
}

/// The graph database check; a missing database only warns.
pub fn check_crg_database(exists: bool) -> (r: CheckResult)
    ensures
        r.name@ == "crg-database"@,
        exists ==> r.outcome == CheckOutcome::Pass && r.message@ == ".yantra/crg.sqlite exists"@,
        !exists ==> r.outcome == CheckOutcome::Warn && r.message@
            == ".yantra/crg.sqlite missing — run `yantra index .`"@,
{
    if exists {
        CheckResult::pass("crg-database", ".yantra/crg.sqlite exists")
    } else {
        CheckResult::warn("crg-database", ".yantra/crg.sqlite missing — run `yantra index .`")
    }
}

/// The sacred pattern file check; without it the default patterns apply.
pub fn check_sacred_file(exists: bool) -> (r: CheckResult)
    ensures
        r.name@ == "sacred-file"@,
        exists ==> r.outcome == CheckOutcome::Pass && r.message@ == ".yantra/sacred.txt found"@,
        !exists ==> r.outcome == CheckOutcome::Warn && r.message@
            == ".yantra/sacred.txt not found — using defaults"@,
{
    if exists {
        CheckResult::pass("sacred-file", ".yantra/sacred.txt found")
    } else {
        CheckResult::warn("sacred-file", ".yantra/sacred.txt not found — using defaults")
    }
}

/// The trace database check; it appears after the first run.
pub fn check_traces_database(exists: bool) -> (r: CheckResult)
    ensures
        r.name@ == "traces-database"@,
        exists ==> r.outcome == CheckOutcome::Pass && r.message@ == ".yantra/traces.sqlite exists"@,
        !exists ==> r.outcome == CheckOutcome::Warn && r.message@
            == ".yantra/traces.sqlite missing (no runs yet)"@,
{
    if exists {
        CheckResult::pass("traces-database", ".yantra/traces.sqlite exists")
    } else {
        CheckResult::warn("traces-database", ".yantra/traces.sqlite missing (no runs yet)")
    }
}

/// The local model server check; an unreachable server only warns, since
/// offline operation remains possible.
pub fn check_ollama_reachable(reachable: bool) -> (r: CheckResult)
    ensures
        r.name@ == "ollama"@,
        reachable ==> r.outcome == CheckOutcome::Pass && r.message@ == "Ollama reachable on 127.0.0.1:11434"@,
        !reachable ==> r.outcome == CheckOutcome::Warn && r.message@
            == "Ollama not running (offline mode only)"@,
{
    if reachable {
        CheckResult::pass("ollama", "Ollama reachable on 127.0.0.1:11434")
    } else {
        CheckResult::warn("ollama", "Ollama not running (offline mode only)")
    }
}

/// Number of results in `rs` with outcome `o`.
pub open spec fn count_outcome(rs: Seq<CheckResult>, o: CheckOutcome) -> nat
    decreases rs.len(),
{
    if rs.len() == 0 {
        0
    } else {
        count_outcome(rs.drop_last(), o) + if rs.last().outcome == o { 1nat } else { 0nat }
    }
}

proof fn lemma_count_bound(rs: Seq<CheckResult>, o: CheckOutcome)
    ensures
        count_outcome(rs, o) <= rs.len(),
    decreases rs.len(),
{
    if rs.len() > 0 {
        lemma_count_bound(rs.drop_last(), o);
    }
}

/// Every check is counted once in the report's summary: the passed, warned
/// and failed counts add up to the number of checks.
pub proof fn outcome_counts_cover_all(rs: Seq<CheckResult>)
    ensures
        count_outcome(rs, CheckOutcome::Pass) + count_outcome(rs, CheckOutcome::Warn) + count_outcome(
            rs,
            CheckOutcome::Fail,
        ) == rs.len(),
    decreases rs.len(),
{
    if rs.len() > 0 {
        outcome_counts_cover_all(rs.drop_last());
    }
}

/// Counts the results with the given outcome.
pub fn count_with_outcome(results: &Vec<CheckResult>, outcome: CheckOutcome) -> (r: usize)
    ensures
        r == count_outcome(results@, outcome),
{
    let mut n: usize = 0;
    let mut i: usize = 0;
    while i < results.len()
        invariant
            i <= results@.len(),
            n == count_outcome(results@.take(i as int), outcome),
        decreases results@.len() - i,
    {
        assert(results@.take(i + 1).drop_last() =~= results@.take(i as int));
        proof {
            lemma_count_bound(results@.take(i as int), outcome);
        }
        if results[i].outcome == outcome {
            n = n + 1;
        }
        i = i + 1;
    }
    assert(results@.take(results@.len() as int) =~= results@);
    n
}

/// The badge shown before a check in the report.
pub open spec fn badge_spec(o: CheckOutcome) -> Seq<char> {
    match o {
        CheckOutcome::Pass => "✓ PASS"@,
        CheckOutcome::Warn => "⚠ WARN"@,
        CheckOutcome::Fail => "✗ FAIL"@,
    }
}

/// Returns the badge shown before a check in the report.
pub fn status_badge(outcome: CheckOutcome) -> (r: &'static str)
    ensures
        r@ == badge_spec(outcome),
{
    match outcome {
        CheckOutcome::Pass => "✓ PASS",
        CheckOutcome::Warn => "⚠ WARN",
        CheckOutcome::Fail => "✗ FAIL",
    }
}

/// `s` padded with spaces on the right to at least `width` characters.
pub open spec fn pad_right(s: Seq<char>, width: nat) -> Seq<char> {
    if s.len() >= width {
        s
    } else {
        s + Seq::new((width - s.len()) as nat, |i: int| ' ')
    }
}

/// Appends `s` padded to `width` characters.
fn append_padded(out: &mut String, s: &str, width: usize)
    ensures
        final(out)@ == old(out)@ + pad_right(s@, width as nat),
{
    let ghost start = out@;
    out.append(s);
    let n = s.unicode_len();
    let mut k = n;
    while k < width
        invariant
            n == s@.len(),
            n <= k <= width || (n > width && k == n),
            out@ == start + s@ + Seq::new((k - n) as nat, |i: int| ' '),
        decreases width - k,
    {
        push_char(out, ' ');
        k = k + 1;
        assert(out@ =~= start + s@ + Seq::new((k - n) as nat, |i: int| ' '));
    }
    proof {
        if n >= width {
            assert(Seq::new((k - n) as nat, |i: int| ' ') =~= Seq::<char>::empty());
            assert(out@ =~= start + s@);
        }
    }
}

/// Decimal digits of `n`.
pub open spec fn decimal(n: nat) -> Seq<char>
    decreases n,
{
    if n < 10 {
        seq![digit_char(n)]
    } else {
        decimal(n / 10).push(digit_char(n % 10))
    }
}

/// The character of a decimal digit.
pub open spec fn digit_char(d: nat) -> char {
    if d == 0 { '0' }
    else if d == 1 { '1' }
    else if d == 2 { '2' }
    else if d == 3 { '3' }
    else if d == 4 { '4' }
    else if d == 5 { '5' }
    else if d == 6 { '6' }
    else if d == 7 { '7' }
    else if d == 8 { '8' }
    else { '9' }
}

fn digit(d: usize) -> (c: char)
    requires
        d < 10,
    ensures
        c == digit_char(d as nat),
{
    if d == 0 { '0' }
    else if d == 1 { '1' }
    else if d == 2 { '2' }
    else if d == 3 { '3' }
    else if d == 4 { '4' }
    else if d == 5 { '5' }
    else if d == 6 { '6' }
    else if d == 7 { '7' }
    else if d == 8 { '8' }
    else { '9' }
}

/// Appends the decimal digits of `n`.
pub fn append_decimal(out: &mut String, n: usize)
    ensures
        final(out)@ == old(out)@ + decimal(n as nat),
{
    append_decimal_u64(out, n as u64);
}

/// Appends the decimal digits of `n`.
pub fn append_decimal_u64(out: &mut String, n: u64)
    ensures
        final(out)@ == old(out)@ + decimal(n as nat),
    decreases n,
{
    if n < 10 {
        push_char(out, digit(n as usize));
    } else {
        append_decimal_u64(out, n / 10);
        push_char(out, digit((n % 10) as usize));
    }
}

/// A line of `n` equals signs.
pub open spec fn rule_line(n: nat) -> Seq<char> {
    Seq::new(n, |i: int| '=')
}

fn rule(n: usize) -> (r: String)
    ensures
        r@ == rule_line(n as nat),
{
    let mut r = String::new();
    let mut i: usize = 0;
    while i < n
        invariant
            i <= n,
            r@ == rule_line(i as nat),
        decreases n - i,
    {
        push_char(&mut r, '=');
        i = i + 1;
        assert(r@ =~= rule_line(i as nat));
    }
    r
}

/// The report line of one check: the badge padded to 8 characters, two
/// spaces, the name padded to 30, two spaces, the message.
pub open spec fn check_line(c: CheckResult) -> Seq<char> {
    pad_right(badge_spec(c.outcome), 8) + "  "@ + pad_right(c.name@, 30) + "  "@ + c.message@
}

/// The lines of the plain-text report: a heading, a rule of 55 `=`, one
/// line per check, a rule, the counts, a hint when a check failed, and a
/// blank line.
pub open spec fn report_spec(rs: Seq<CheckResult>) -> Seq<Seq<char>> {
    let fails = count_outcome(rs, CheckOutcome::Fail);
    let counts = decimal(count_outcome(rs, CheckOutcome::Pass)) + " passed  "@ + decimal(
        count_outcome(rs, CheckOutcome::Warn),
    ) + " warned  "@ + decimal(fails) + " failed"@;
    seq![Seq::<char>::empty(), "Yantra Doctor — Preflight Check"@, rule_line(55)] + rs.map_values(
        |c: CheckResult| check_line(c),
    ) + seq![rule_line(55), counts] + if fails > 0 {
        seq!["Run `yantra index .` to fix CRG staleness issues."@, Seq::<char>::empty()]
    } else {
        seq![Seq::<char>::empty()]
    }
}

/// Values of a sequence of strings.
pub open spec fn report_view(ls: Seq<String>) -> Seq<Seq<char>> {
    ls.map_values(|s: String| s@)
}

/// The lines of the plain-text report on `results`.
pub fn doctor_report(results: &Vec<CheckResult>) -> (r: Vec<String>)
    ensures
        report_view(r@) == report_spec(results@),
{
    let mut lines: Vec<String> = Vec::new();
    lines.push(String::new());
    lines.push(String::from_str("Yantra Doctor — Preflight Check"));
    lines.push(rule(55));
    let ghost head = report_view(lines@);
    assert(head =~= seq![Seq::<char>::empty(), "Yantra Doctor — Preflight Check"@, rule_line(55)]);
    let mut i: usize = 0;
    while i < results.len()
        invariant
            i <= results@.len(),
            report_view(lines@) == head + results@.take(i as int).map_values(|c: CheckResult| check_line(c)),
        decreases results@.len() - i,
    {
        let c = &results[i];
        let mut line = String::new();
        append_padded(&mut line, status_badge(c.outcome), 8);
        line.append("  ");
        append_padded(&mut line, c.name.as_str(), 30);
        line.append("  ");
        line.append(c.message.as_str());
        let ghost before = report_view(lines@);
        lines.push(line);
        assert(results@.take(i + 1).map_values(|c: CheckResult| check_line(c)) =~= results@.take(
            i as int,
        ).map_values(|c: CheckResult| check_line(c)).push(check_line(results@[i as int])));
        assert(report_view(lines@) =~= before.push(check_line(results@[i as int])));
        i = i + 1;
    }
    assert(results@.take(results@.len() as int) =~= results@);
    let ghost body = report_view(lines@);
    lines.push(rule(55));
    let pass_count = count_with_outcome(results, CheckOutcome::Pass);
    let warn_count = count_with_outcome(results, CheckOutcome::Warn);
    let fail_count = count_with_outcome(results, CheckOutcome::Fail);
    let mut counts = String::new();
    append_decimal(&mut counts, pass_count);
    counts.append(" passed  ");
    append_decimal(&mut counts, warn_count);
    counts.append(" warned  ");
    append_decimal(&mut counts, fail_count);
    counts.append(" failed");
    lines.push(counts);
    let ghost mid = report_view(lines@);
    assert(mid =~= body + seq![rule_line(55), counts@]);
    if fail_count > 0 {
        lines.push(String::from_str("Run `yantra index .` to fix CRG staleness issues."));
    }
    lines.push(String::new());
    assert(report_view(lines@) =~= mid + if fail_count > 0 {
        seq!["Run `yantra index .` to fix CRG staleness issues."@, Seq::<char>::empty()]
    } else {
        seq![Seq::<char>::empty()]
    });
    assert(report_view(lines@) =~= report_spec(results@));
    lines
}

} // verus!

use yantra::console::{
    auto_submit_command, help_text, AskUpdate, ConsoleAction, ConsoleApp,
    ConsoleCommand, ConsoleKey, ConsoleMode, ForegroundJob, ForegroundOutcome, GraphSnapshot, scroll_window,
    OutputKind, RunLog, LOG_CAPACITY, SCROLLBACK_CAPACITY,
};
use yantra::doctor::{
    check_crg_database, check_ollama_reachable, check_sacred_file, check_traces_database,
    check_yantra_dir, count_with_outcome, doctor_report, status_badge, CheckOutcome, CheckResult,
};
use yantra::metrics::{eq_ignore_ascii_case, is_error_outcome};
use yantra::preview::{review_key, DiffPreview, HunkDecision, HunkLine, HunkReview, ReviewKey};
use yantra::prompting::{
    approval_box_lines, approval_key, budget_trim_lines, build_ask_messages, chunk_text,
    clean_rust_type_name, impl_relation, expand_query_keywords, preset_decision, ApprovalDecision, ApprovalKind,
    ApprovalMode, MessageRole,
};

const FIXTURE_DIFF: &str = "\
--- a/src/lib.rs
+++ b/src/lib.rs
@@ -1,3 +1,4 @@
 fn foo() {}
+fn bar() {}
 fn baz() {}
 fn qux() {}
@@ -10,2 +11,3 @@
 fn alpha() {}
+fn beta() {}
";

#[test]
fn parse_hunks_finds_two_hunks() {
    let preview = DiffPreview::new("src/lib.rs".to_owned(), FIXTURE_DIFF.to_owned());
    let hunks = preview.parse_hunks();
    assert_eq!(hunks.len(), 2);
}

#[test]
fn parse_hunks_first_hunk_has_correct_lines() {
    let preview = DiffPreview::new("src/lib.rs".to_owned(), FIXTURE_DIFF.to_owned());
    let hunks = preview.parse_hunks();
    let first_hunk = &hunks[0];
    assert!(first_hunk.header.contains("@@"));
    let added_count = first_hunk
        .lines
        .iter()
        .filter(|hunk_line| matches!(hunk_line, HunkLine::Added(_)))
        .count();
    assert_eq!(added_count, 1);
}

#[test]
fn parse_hunks_skips_file_headers() {
    let preview = DiffPreview::new("src/lib.rs".to_owned(), FIXTURE_DIFF.to_owned());
    let hunks = preview.parse_hunks();
    for hunk in &hunks {
        assert!(!hunk.header.starts_with("---"));
        assert!(!hunk.header.starts_with("+++"));
    }
}

#[test]
fn hunk_decision_default_accepted_false() {
    let decision = HunkDecision {
        hunk_index: 0,
        accepted: false,
    };
    assert!(!decision.accepted);
}

#[test]
fn parse_hunks_classifies_every_line() {
    let preview = DiffPreview::new("x".to_owned(), "junk\n@@ -1 +1 @@\n keep\n-gone\n+new\n\né\n".to_owned());
    let hunks = preview.parse_hunks();
    assert_eq!(hunks.len(), 1);
    assert_eq!(hunks[0].header, "@@ -1 +1 @@");
    let lines: Vec<String> = hunks[0]
        .lines
        .iter()
        .map(|l| match l {
            HunkLine::Context(s) => format!("C:{s}"),
            HunkLine::Added(s) => format!("A:{s}"),
            HunkLine::Removed(s) => format!("R:{s}"),
        })
        .collect();
    assert_eq!(lines, vec!["C:keep", "R:gone", "A:new", "C:", "C:é"]);
}

#[test]
fn review_keys_map_to_decisions() {
    assert_eq!(review_key(ReviewKey::Char('Y')), HunkReview::Accept);
    assert_eq!(review_key(ReviewKey::Char('e')), HunkReview::Accept);
    assert_eq!(review_key(ReviewKey::Char('n')), HunkReview::Reject);
    assert_eq!(review_key(ReviewKey::Char('q')), HunkReview::Quit);
    assert_eq!(review_key(ReviewKey::Esc), HunkReview::Quit);
    assert_eq!(review_key(ReviewKey::Char('x')), HunkReview::Ignore);
}

#[test]
fn parse_command_empty_input_returns_empty() {
    assert_eq!(ConsoleApp::parse_command(""), ConsoleCommand::Empty);
    assert_eq!(ConsoleApp::parse_command("   "), ConsoleCommand::Empty);
}

#[test]
fn parse_command_quit_variants() {
    assert_eq!(ConsoleApp::parse_command("quit"), ConsoleCommand::Quit);
    assert_eq!(ConsoleApp::parse_command("exit"), ConsoleCommand::Quit);
    assert_eq!(ConsoleApp::parse_command("q"), ConsoleCommand::Quit);
}

#[test]
fn parse_command_help_variants() {
    assert_eq!(ConsoleApp::parse_command("help"), ConsoleCommand::Help);
    assert_eq!(ConsoleApp::parse_command("?"), ConsoleCommand::Help);
}

#[test]
fn parse_command_index_no_path() {
    assert_eq!(ConsoleApp::parse_command("index"), ConsoleCommand::Index(None));
}

#[test]
fn parse_command_index_with_path() {
    assert_eq!(
        ConsoleApp::parse_command("index /some/path"),
        ConsoleCommand::Index(Some("/some/path".to_owned()))
    );
}

#[test]
fn parse_command_run_with_task() {
    assert_eq!(
        ConsoleApp::parse_command("run add unit tests"),
        ConsoleCommand::Run("add unit tests".to_owned())
    );
}

#[test]
fn parse_command_ask_with_question() {
    assert_eq!(
        ConsoleApp::parse_command("ask what does run_ask do?"),
        ConsoleCommand::Ask("what does run_ask do?".to_owned())
    );
}

#[test]
fn parse_command_bare_prose_falls_through_to_ask() {
    assert_eq!(
        ConsoleApp::parse_command("explain the CRG subgraph extraction"),
        ConsoleCommand::Ask("explain the CRG subgraph extraction".to_owned())
    );
}

#[test]
fn parse_command_night_with_tasks() {
    assert_eq!(
        ConsoleApp::parse_command("night fix bug A, add tests"),
        ConsoleCommand::Night(vec!["fix bug A".to_owned(), "add tests".to_owned()])
    );
}

#[test]
fn parse_command_canvas_with_url() {
    assert_eq!(
        ConsoleApp::parse_command("canvas https://example.com"),
        ConsoleCommand::Canvas(Some("https://example.com".to_owned()))
    );
}

#[test]
fn parse_command_canvas_no_url() {
    assert_eq!(ConsoleApp::parse_command("canvas"), ConsoleCommand::Canvas(None));
}

#[test]
fn parse_command_observe() {
    assert_eq!(ConsoleApp::parse_command("observe"), ConsoleCommand::Observe);
}

#[test]
fn parse_command_doctor() {
    assert_eq!(ConsoleApp::parse_command("doctor"), ConsoleCommand::Doctor);
}

#[test]
fn parse_command_edge_cases() {
    assert_eq!(ConsoleApp::parse_command("  QUIT  "), ConsoleCommand::Quit);
    assert_eq!(ConsoleApp::parse_command("run"), ConsoleCommand::Ask("run".to_owned()));
    assert_eq!(ConsoleApp::parse_command("ask   "), ConsoleCommand::Empty);
    assert_eq!(ConsoleApp::parse_command("night"), ConsoleCommand::Night(vec![]));
    assert_eq!(
        ConsoleApp::parse_command("night a,, ,b "),
        ConsoleCommand::Night(vec!["a".to_owned(), "b".to_owned()])
    );
    assert_eq!(ConsoleApp::parse_command("Index  ./x "), ConsoleCommand::Index(Some("./x".to_owned())));
    assert_eq!(auto_submit_command("fix it"), ConsoleCommand::Run("fix it".to_owned()));
}

#[test]
fn push_output_evicts_oldest_when_capacity_reached() {
    let mut app = ConsoleApp::new();
    for line_index in 0..=SCROLLBACK_CAPACITY {
        app.push_output(format!("line {line_index}"), OutputKind::System);
    }
    assert_eq!(app.output_lines().len(), SCROLLBACK_CAPACITY);
    assert_eq!(app.output_lines().front().unwrap().text, "line 1");
}

#[test]
fn append_ask_token_accumulates_into_last_line() {
    let mut app = ConsoleApp::new();
    app.push_output(String::new(), OutputKind::AskToken);
    app.append_ask_token("Hello");
    app.append_ask_token(", world");
    assert_eq!(app.output_lines().back().unwrap().text, "Hello, world");
    assert_eq!(app.output_lines().len(), 1);
}

#[test]
fn append_ask_token_splits_on_newline() {
    let mut app = ConsoleApp::new();
    app.append_ask_token("line1\nline2");
    assert_eq!(app.output_lines().len(), 2);
    assert_eq!(app.output_lines()[0].text, "line1");
    assert_eq!(app.output_lines()[1].text, "line2");
}

#[test]
fn scroll_up_and_down_are_bounded() {
    let mut app = ConsoleApp::new();
    for line_index in 0..5 {
        app.push_output(format!("line {line_index}"), OutputKind::System);
    }
    app.scroll_up();
    app.scroll_up();
    assert_eq!(app.scroll_offset(), 2);
    app.scroll_down();
    assert_eq!(app.scroll_offset(), 1);
    app.scroll_down();
    app.scroll_down();
    assert_eq!(app.scroll_offset(), 0);
}

#[test]
fn scroll_up_stops_at_the_oldest_line() {
    let mut app = ConsoleApp::new();
    app.scroll_up();
    assert_eq!(app.scroll_offset(), 0);
    for line_index in 0..3 {
        app.push_output(format!("line {line_index}"), OutputKind::System);
    }
    for _ in 0..10 {
        app.scroll_up();
    }
    assert_eq!(app.scroll_offset(), 2);
}

#[test]
fn insert_char_and_backspace_edit_buffer() {
    let mut app = ConsoleApp::new();
    app.insert_char('h');
    app.insert_char('i');
    assert_eq!(app.input_buffer(), "hi");
    app.backspace();
    assert_eq!(app.input_buffer(), "h");
}

#[test]
fn cursor_moves_within_the_input() {
    let mut app = ConsoleApp::new();
    app.insert_char('a');
    app.insert_char('c');
    app.move_cursor_left();
    app.insert_char('b');
    assert_eq!(app.input_buffer(), "abc");
    assert_eq!(app.cursor_position(), 2);
    app.move_cursor_right();
    app.move_cursor_right();
    assert_eq!(app.cursor_position(), 3);
    app.move_cursor_left();
    app.move_cursor_left();
    app.move_cursor_left();
    app.move_cursor_left();
    assert_eq!(app.cursor_position(), 0);
    app.backspace();
    assert_eq!(app.input_buffer(), "abc");
}

#[test]
fn take_input_clears_buffer_and_resets_cursor() {
    let mut app = ConsoleApp::new();
    app.insert_char('x');
    app.insert_char('y');
    let taken_text = app.take_input();
    assert_eq!(taken_text, "xy");
    assert_eq!(app.input_buffer(), "");
    assert_eq!(app.cursor_position(), 0);
}

#[test]
fn console_starts_with_banner_lines() {
    let app = ConsoleApp::start(false);
    let lines = app.output_lines();
    assert_eq!(lines.len(), 3);
    assert_eq!(lines[1].kind, OutputKind::Warning);
    assert!(lines[1].text.contains("CRG index missing"));
    assert_eq!(lines[2].text, "");
    let app = ConsoleApp::start(true);
    assert_eq!(app.output_lines()[1].kind, OutputKind::System);
}

#[test]
fn enter_submits_the_line_as_a_command() {
    let mut app = ConsoleApp::new();
    for c in "ask why".chars() {
        app.handle_key(ConsoleKey::Char { ch: c, control: false });
    }
    let action = app.handle_key(ConsoleKey::Enter);
    assert_eq!(action, ConsoleAction::StartAsk("why".to_owned()));
    assert_eq!(app.mode(), ConsoleMode::AskInFlight);
    assert_eq!(app.output_lines().back().unwrap().text, "› ask why");
    assert_eq!(app.input_buffer(), "");
    app.handle_key(ConsoleKey::Char { ch: 'z', control: false });
    assert_eq!(app.input_buffer(), "");
    let action = app.handle_key(ConsoleKey::Esc);
    assert_eq!(action, ConsoleAction::CancelAsk);
    assert_eq!(app.mode(), ConsoleMode::Idle);
    assert_eq!(app.output_lines().back().unwrap().text, "(ask cancelled)");
    assert!(!app.should_quit());
    app.handle_key(ConsoleKey::Char { ch: 'c', control: true });
    assert!(app.should_quit());
}

#[test]
fn dispatch_reports_busy_and_index_progress() {
    let mut app = ConsoleApp::new();
    assert_eq!(app.dispatch(ConsoleCommand::Ask("a".to_owned())), ConsoleAction::StartAsk("a".to_owned()));
    assert_eq!(app.dispatch(ConsoleCommand::Ask("b".to_owned())), ConsoleAction::Nothing);
    assert_eq!(app.output_lines().back().unwrap().kind, OutputKind::Warning);
    assert_eq!(app.dispatch(ConsoleCommand::Index(None)), ConsoleAction::BuildIndex(".".to_owned()));
    assert_eq!(app.output_lines().back().unwrap().text, "Building CRG index for .…");
    assert!(app.index_finished(None));
    assert_eq!(app.output_lines().back().unwrap().text, "  [✓] CRG index built");
    assert!(!app.index_finished(Some("boom".to_owned())));
    assert_eq!(app.output_lines().back().unwrap().text, "  [✗] index error: boom");
    app.dispatch(ConsoleCommand::Help);
    assert_eq!(app.output_lines().back().unwrap().text, help_text());
}

#[test]
fn foreground_jobs_suspend_and_report() {
    let mut app = ConsoleApp::new();
    let action = app.dispatch(ConsoleCommand::Doctor);
    assert_eq!(action, ConsoleAction::Foreground(ForegroundJob::Doctor));
    assert_eq!(app.mode(), ConsoleMode::Suspended);
    let label = ForegroundJob::Doctor.label();
    assert!(app.foreground_finished(label, ForegroundOutcome::Finished(None)));
    assert_eq!(app.output_lines().back().unwrap().text, "  [✓] doctor complete");
    assert_eq!(app.mode(), ConsoleMode::Idle);
    app.dispatch(ConsoleCommand::Run("t".to_owned()));
    assert!(!app.foreground_finished("run", ForegroundOutcome::ResumeFailed));
    assert!(app.should_quit());
}

#[test]
fn ask_updates_fill_the_scrollback() {
    let mut app = ConsoleApp::new();
    assert!(!app.on_ask_update(AskUpdate::Subgraph("(No CRG index)".to_owned())));
    assert_eq!(app.output_lines().back().unwrap().text, "(No CRG index)");
    assert!(!app.on_ask_update(AskUpdate::Subgraph("fn a".to_owned())));
    assert_eq!(app.output_lines().back().unwrap().text, "── CRG context extracted ──");
    assert!(!app.on_ask_update(AskUpdate::GroundingWarning("w".to_owned())));
    assert_eq!(app.output_lines().back().unwrap().text, "⚠ w");
    assert!(app.on_ask_update(AskUpdate::Finished("Cost: $0.000001".to_owned())));
    app.ask_finished(Some("late".to_owned()));
    assert_eq!(app.output_lines().back().unwrap().text, "ask error: late");
    assert_eq!(app.mode(), ConsoleMode::Idle);
}

#[test]
fn graph_snapshot_unavailable_is_empty() {
    let snapshot = GraphSnapshot::unavailable();
    assert!(!snapshot.available);
    assert!(snapshot.stats.is_none());
    assert!(snapshot.communities.is_empty());
    assert!(snapshot.hubs.is_empty());
}

#[test]
fn check_result_pass_sets_correct_outcome() {
    let check = CheckResult::pass("test-check", "all good");
    assert_eq!(check.outcome, CheckOutcome::Pass);
    assert_eq!(check.name, "test-check");
    assert_eq!(check.message, "all good");
}

#[test]
fn check_result_warn_sets_correct_outcome() {
    let check = CheckResult::warn("partial-check", "degraded");
    assert_eq!(check.outcome, CheckOutcome::Warn);
}

#[test]
fn check_result_fail_sets_correct_outcome() {
    let check = CheckResult::fail("missing-file", "not found");
    assert_eq!(check.outcome, CheckOutcome::Fail);
    assert_eq!(check.name, "missing-file");
}

#[test]
fn doctor_checks_and_report() {
    let results = vec![
        check_yantra_dir(true, true),
        check_crg_database(false),
        check_sacred_file(true),
        check_traces_database(false),
        check_ollama_reachable(false),
    ];
    assert_eq!(results[0].outcome, CheckOutcome::Pass);
    assert_eq!(results[1].outcome, CheckOutcome::Warn);
    assert_eq!(check_yantra_dir(true, false).outcome, CheckOutcome::Fail);
    assert_eq!(count_with_outcome(&results, CheckOutcome::Warn), 3);
    let report = doctor_report(&results);
    assert_eq!(report[0], "");
    assert_eq!(report[1], "Yantra Doctor — Preflight Check");
    assert_eq!(report[2], "=".repeat(55));
    assert_eq!(
        report[3],
        format!("{:<8}  {:<30}  {}", "✓ PASS", "yantra-dir", ".yantra/ directory exists")
    );
    assert_eq!(report[9], "2 passed  3 warned  0 failed");
    assert_eq!(report.len(), 11);
    let failing = vec![check_yantra_dir(false, false)];
    let report = doctor_report(&failing);
    assert_eq!(report[5], "0 passed  0 warned  1 failed");
    assert_eq!(report[6], "Run `yantra index .` to fix CRG staleness issues.");
    assert_eq!(status_badge(CheckOutcome::Fail), "✗ FAIL");
}

#[test]
fn error_outcome_classification_is_case_insensitive() {
    assert!(!is_error_outcome(Some("Success")));
    assert!(!is_error_outcome(Some("success")));
    assert!(!is_error_outcome(None));
    assert!(is_error_outcome(Some("Failed")));
    assert!(is_error_outcome(Some("Timeout")));
}

#[test]
fn ascii_case_equality() {
    assert!(eq_ignore_ascii_case("SuCcEsS", "success"));
    assert!(!eq_ignore_ascii_case("success!", "success"));
    assert!(!eq_ignore_ascii_case("É", "é"));
}

#[test]
fn build_ask_messages_has_system_then_user_role() {
    let messages = build_ask_messages("some subgraph text", "what does X do?", "You are helpful.");
    assert_eq!(messages.len(), 2);
    assert_eq!(messages[0].role, MessageRole::System);
    assert_eq!(messages[1].role, MessageRole::User);
}

#[test]
fn build_ask_messages_embeds_question_in_user_content() {
    let messages = build_ask_messages("context", "explain run_ask", "system prompt");
    assert!(messages[1].content.contains("explain run_ask"));
    assert_eq!(
        messages[1].content,
        "## Code Context (CRG Subgraph)\ncontext\n\n## Question\nexplain run_ask"
    );
}

#[test]
fn build_ask_messages_uses_no_index_notice_when_subgraph_empty() {
    let messages = build_ask_messages("", "my question", "system");
    assert!(messages[1].content.contains("No CRG index available"));
}

#[test]
fn budget_trim_lines_keeps_lines_within_budget() {
    let lines: Vec<String> = (0..10)
        .map(|line_index| format!("function symbol_{line_index} (crates/a/src/lib.rs)"))
        .collect();
    let counts = vec![2usize; 10];
    let trimmed = budget_trim_lines(lines, &counts, 5);
    assert_eq!(
        trimmed,
        "function symbol_0 (crates/a/src/lib.rs)\nfunction symbol_1 (crates/a/src/lib.rs)"
    );
}

#[test]
fn budget_trim_lines_returns_empty_when_budget_is_zero() {
    let lines = vec!["function foo (crates/a/src/lib.rs)".to_string()];
    let trimmed = budget_trim_lines(lines, &vec![7], 0);
    assert!(trimmed.is_empty());
}

#[test]
fn budget_trim_lines_stops_at_the_first_line_over_budget() {
    let lines = vec!["a".to_string(), "b".to_string(), "c".to_string()];
    assert_eq!(budget_trim_lines(lines, &vec![1, 9, 1], 3), "a");
}

#[test]
fn chunk_text_splits_by_width() {
    assert_eq!(chunk_text("abcdefg", 3), vec!["abc", "def", "g"]);
    assert_eq!(chunk_text("abc", 0), vec!["abc"]);
    assert_eq!(chunk_text("", 4), vec![""]);
    assert_eq!(chunk_text("abcdef", 3), vec!["abc", "def"]);
}

#[test]
fn clean_rust_type_name_strips_decorations() {
    assert_eq!(clean_rust_type_name(" &mut std::collections::HashMap<K, V> "), "HashMap");
    assert_eq!(clean_rust_type_name("crate::graph::GraphCache { x }"), "GraphCache");
    assert_eq!(clean_rust_type_name("&&Foo"), "Foo");
}

#[test]
fn expand_query_keywords_adds_content_words() {
    assert_eq!(
        expand_query_keywords("Where does the Router dispatch?"),
        "Where does the Router dispatch? router dispatch struct impl trait interface function class definition module"
    );
    assert_eq!(
        expand_query_keywords("a the"),
        "a the struct impl trait interface function class definition module"
    );
}

#[test]
fn auto_mode_always_accepts() {
    assert_eq!(preset_decision(ApprovalMode::Auto), Some(ApprovalDecision::Accept));
    assert_eq!(preset_decision(ApprovalMode::Interactive), None);
}

#[test]
fn approval_keys_and_box() {
    assert_eq!(approval_key(ReviewKey::Char('E')), Some(ApprovalDecision::Edit));
    assert_eq!(approval_key(ReviewKey::Esc), Some(ApprovalDecision::Quit));
    assert_eq!(approval_key(ReviewKey::Other), None);
    let lines = approval_box_lines(&ApprovalKind::GitCommit { message: "feat: add auth".to_owned() });
    assert_eq!(lines[0], "─".repeat(48));
    assert_eq!(lines[3], "  Msg    : feat: add auth");
}

#[test]
fn impl_relation_reads_trait_and_type() {
    assert_eq!(
        impl_relation("impl std::fmt::Display for crate::graph::Foo<T> {"),
        Some(("Display".to_owned(), "Foo".to_owned()))
    );
    assert_eq!(impl_relation("impl<T> Clone for Foo<T>"), Some(("".to_owned(), "Foo".to_owned())));
    assert_eq!(impl_relation("impl Greeter for &mut WorldGreeter"), Some(("Greeter".to_owned(), "WorldGreeter".to_owned())));
    assert_eq!(impl_relation("impl WorldGreeter"), None);
    assert_eq!(impl_relation("struct A for B"), None);
}

#[test]
fn push_log_prepends_timestamp_and_caps_at_capacity() {
    let mut run_log = RunLog::new();
    for push_index in 0..=LOG_CAPACITY {
        run_log.push_log("12:00:00", &format!("entry {push_index}"));
    }
    let lines = run_log.log_lines();
    assert_eq!(lines.len(), LOG_CAPACITY);
    assert!(lines.last().expect("log must not be empty").contains(&format!("entry {LOG_CAPACITY}")));
    assert_eq!(lines[0], "12:00:00 entry 1");
}

#[test]
fn chunks_join_back_into_the_text() {
    let text = "the quick brown fox";
    for width in 1..=text.len() + 1 {
        let chunks = chunk_text(text, width);
        assert_eq!(chunks.concat(), text);
        for chunk in &chunks[..chunks.len() - 1] {
            assert_eq!(chunk.len(), width);
        }
        let last = chunks[chunks.len() - 1];
        assert!(!last.is_empty() && last.len() <= width);
    }
}

#[test]
fn scroll_window_shows_the_rows_that_fit() {
    assert_eq!(scroll_window(100, 0, 24), (80, 100));
    assert_eq!(scroll_window(100, 10, 24), (70, 90));
    assert_eq!(scroll_window(10, 0, 24), (0, 10));
    assert_eq!(scroll_window(10, 50, 24), (0, 0));
    assert_eq!(scroll_window(10, 0, 3), (10, 10));
}

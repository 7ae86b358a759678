use folkering::phase_c::parse_multi_file_response;
use folkering::prevalidate::{check, PrevalidateOutcome};
use folkering::project::{Project, ProjectFile};
use folkering::refactor_loop::{
    build_cargo_check_request, build_refactor_prompt, parse_cargo_check_header,
    pick_next_refactor_task, record_attempt, verdict_from_cargo_check_status, AttemptVerdict,
    REFACTOR_FIXTURES,
};
use folkering::refactor_types::{RefactorTask, TaskStatus};

fn t(id: &str, attempts: u32, status: TaskStatus) -> RefactorTask {
    RefactorTask {
        id: id.to_string(),
        target_file: "x.rs".to_string(),
        target_fn: "f".to_string(),
        goal: "g".to_string(),
        attempts,
        last_status: status,
    }
}

#[test]
fn parser_extracts_two_files() {
    let raw = "```rust\n\
               // === FILE: src/lib.rs\n\
               pub fn add(a: i32, b: i32) -> i32 { a + b }\n\
               // === FILE: src/tests.rs\n\
               #[cfg(test)]\n\
               mod tests {\n\
                   use super::*;\n\
                   #[test]\n\
                   fn it_adds() { assert_eq!(add(2, 3), 5); }\n\
               }\n\
               ```";
    let files = parse_multi_file_response(raw);
    assert_eq!(files.len(), 2);
    assert_eq!(files[0].path, "src/lib.rs".to_string());
    assert!(files[0].content.contains("pub fn add"));
    assert_eq!(files[1].path, "src/tests.rs".to_string());
    assert!(files[1].content.contains("it_adds"));
}

#[test]
fn parser_handles_no_outer_fence() {
    let raw = "// === FILE: a.rs\nA\n// === FILE: b.rs\nB";
    let files = parse_multi_file_response(raw);
    assert_eq!(files.len(), 2);
    assert_eq!(files[0].content, "A".to_string());
    assert_eq!(files[1].content, "B".to_string());
}

#[test]
fn parser_returns_empty_when_no_markers() {
    let raw = "```rust\nfn main() {}\n```";
    let files = parse_multi_file_response(raw);
    assert_eq!(files.len(), 0);
}

#[test]
fn ok_simple() {
    assert!(check("fn main() { let x = 1; }").is_ok());
}

#[test]
fn ok_strings_and_comments_with_brackets() {
    let src = "
            // {
            /* { ( [ */
            let s = \"{ ( [\";
            let c = '{';
            let raw = r\"{ ( [\";
            fn lifetime<'a>(_: &'a str) {}
        ";
    assert!(check(src).is_ok(), "got {:?}", check(src));
}

#[test]
fn ok_raw_string_with_hashes() {
    let src = "let raw = r#\"contains \" quote\"#;";
    assert!(check(src).is_ok(), "got {:?}", check(src));
}

#[test]
fn detects_truncated_function() {
    let src = "fn main() {\n    let x = vec![\n        1, 2,";
    let r = check(src);
    assert!(!r.is_ok(), "should detect truncation, got {:?}", r);
}

#[test]
fn detects_stray_close() {
    let r = check("fn main() { } }");
    assert!(matches!(r, PrevalidateOutcome::StrayClose { .. }), "got {:?}", r);
}

#[test]
fn detects_mismatched() {
    let r = check("fn main() { let x = vec![1, 2; }");
    assert!(matches!(r, PrevalidateOutcome::BracketMismatch { .. }), "got {:?}", r);
}

#[test]
fn detects_unterminated_string() {
    let r = check("fn main() { let s = \"hello; }");
    assert!(
        matches!(r, PrevalidateOutcome::Unterminated { kind, .. } if kind == "string literal"),
        "got {:?}",
        r
    );
}

#[test]
fn nested_block_comment_ok() {
    assert!(check("fn x() { /* outer /* inner */ still in outer */ let y = 1; }").is_ok());
}

#[test]
fn qualify_builds_prefixed_path() {
    let p = Project::new("myapp");
    assert_eq!(p.qualify("src/main.rs"), "proj/myapp/src/main.rs".to_string());
}

#[test]
fn prefix_includes_trailing_slash() {
    let p = Project::new("myapp");
    assert_eq!(p.prefix(), "proj/myapp/".to_string());
}

#[test]
fn name_round_trips() {
    let p = Project::new("draug-overnight-2026-05-02");
    assert_eq!(p.name(), "draug-overnight-2026-05-02");
}

#[test]
fn project_file_tombstone_check() {
    let live = ProjectFile { name: "main.rs".into(), rowid: 7, size: 42 };
    let dead = ProjectFile { name: "old.rs".into(), rowid: 8, size: 0 };
    assert!(!live.is_deleted());
    assert!(dead.is_deleted());
}

#[test]
fn pick_picks_first_pending() {
    let tasks = vec![
        t("a", 0, TaskStatus::Pass),
        t("b", 0, TaskStatus::Pending),
        t("c", 0, TaskStatus::Pending),
    ];
    assert_eq!(pick_next_refactor_task(&tasks), Some(1));
}

#[test]
fn pick_retries_failed_under_cap() {
    let tasks = vec![t("a", 0, TaskStatus::Pass), t("b", 1, TaskStatus::FailCompile)];
    assert_eq!(pick_next_refactor_task(&tasks), Some(1));
}

#[test]
fn pick_skips_failed_at_cap() {
    let tasks = vec![
        t("a", 3, TaskStatus::FailCompile),
        t("b", 3, TaskStatus::FailCallerCompat),
    ];
    assert_eq!(pick_next_refactor_task(&tasks), None);
}

#[test]
fn pick_returns_none_when_all_passed_or_skipped() {
    let tasks = vec![t("a", 1, TaskStatus::Pass), t("b", 2, TaskStatus::Skip)];
    assert_eq!(pick_next_refactor_task(&tasks), None);
}

#[test]
fn record_attempt_increments_and_sets_status() {
    let mut task = t("a", 0, TaskStatus::Pending);
    record_attempt(&mut task, AttemptVerdict::FailCompile);
    assert_eq!(task.attempts, 1);
    assert_eq!(task.last_status, TaskStatus::FailCompile);
    record_attempt(&mut task, AttemptVerdict::Pass);
    assert_eq!(task.attempts, 2);
    assert_eq!(task.last_status, TaskStatus::Pass);
}

#[test]
fn verdict_mapping() {
    assert_eq!(verdict_from_cargo_check_status(0), AttemptVerdict::Pass);
    assert_eq!(verdict_from_cargo_check_status(1), AttemptVerdict::FailCompile);
    assert_eq!(verdict_from_cargo_check_status(99), AttemptVerdict::Skip);
}

#[test]
fn build_prompt_includes_required_sections() {
    let task = t("01_test", 0, TaskStatus::Pending);
    let src = "fn f() {}";
    let prompt = build_refactor_prompt(&task, src, true, None);
    assert!(prompt.contains("# Refactor task: 01_test"));
    assert!(prompt.contains("## Goal"));
    assert!(prompt.contains("## Target"));
    assert!(prompt.contains("## Constraints"));
    assert!(prompt.contains("fn f() {}"));
}

#[test]
fn fixtures_have_unique_ids() {
    let mut ids: Vec<&str> = REFACTOR_FIXTURES.iter().map(|(id, _, _, _)| *id).collect();
    ids.sort();
    ids.dedup();
    assert_eq!(ids.len(), REFACTOR_FIXTURES.len(), "REFACTOR_FIXTURES has duplicate ids");
}

#[test]
fn fixtures_target_files_are_repo_relative() {
    for (id, target_file, _, _) in REFACTOR_FIXTURES {
        assert!(
            !target_file.starts_with('/'),
            "fixture `{id}`: target_file `{target_file}` is absolute"
        );
        assert!(
            !target_file.contains(".."),
            "fixture `{id}`: target_file `{target_file}` has parent traversal"
        );
        assert!(
            target_file.ends_with(".rs"),
            "fixture `{id}`: target_file `{target_file}` is not a .rs file"
        );
    }
}

#[test]
fn cargo_check_request_frame_matches_proxy_wire_format() {
    let req = build_cargo_check_request("kernel/src/foo.rs", "fn x() {}");
    let s = core::str::from_utf8(&req).unwrap();
    assert!(s.starts_with("CARGO_CHECK kernel/src/foo.rs\n"));
    assert!(s.contains("\n9\n"));
    assert!(s.ends_with("fn x() {}"));
}

#[test]
fn cargo_check_header_parses_status_and_len() {
    let reply = [0x01, 0x00, 0x00, 0x00, 0x2A, 0x00, 0x00, 0x00, b'p', b'a', b'd'];
    let (status, len) = parse_cargo_check_header(&reply).unwrap();
    assert_eq!(status, 1);
    assert_eq!(len, 42);
}

#[test]
fn cargo_check_header_rejects_short_buffer() {
    let short = [0u8; 4];
    assert!(parse_cargo_check_header(&short).is_none());
}

#[test]
fn build_prompt_skips_blast_for_large_model() {
    let task = t("01_test", 0, TaskStatus::Pending);
    let src = "fn f() {}";
    // What the policy says of the model "gemma4:31b-cloud".
    let codegraph = false;
    let prompt = build_refactor_prompt(&task, src, codegraph, Some("caller_a, caller_b"));
    assert!(
        !prompt.contains("Blast radius"),
        "31b model should get no blast-radius section under by-model policy"
    );
}

use folkering::chars::trimmed;
use folkering::phase_c::{
    build_multi_file_prompt, count_stored, parse_multi_file_response, persist_multi_file_project,
    summary_line, MultiFileEntry, MULTI_FILE_RULES,
};
use folkering::prevalidate::{check, PrevalidateOutcome};
use folkering::project::{Project, StoreError};
use folkering::refactor_loop::{
    build_cargo_check_request, build_refactor_prompt,
    parse_cargo_check_header, pick_next_refactor_task, record_attempt, AttemptVerdict,
};
use folkering::refactor_types::{RefactorTask, TaskStatus};
use folkering::text::{byte_len, clipped, push_dec, push_hex, push_padded_dec};
use folkering::vfs::StoreFault;

fn fresh() -> RefactorTask {
    RefactorTask {
        id: "t".into(),
        target_file: "x.rs".into(),
        target_fn: "f".into(),
        goal: "g".into(),
        attempts: 0,
        last_status: TaskStatus::Pending,
    }
}

// Attempts

#[test]
fn attempts_end() {
    let mut tasks = vec![fresh()];
    for _ in 0..3 {
        assert_eq!(pick_next_refactor_task(&tasks), Some(0));
        record_attempt(&mut tasks[0], AttemptVerdict::FailCallerCompat);
    }
    assert_eq!(tasks[0].attempts, 3);
    assert_eq!(tasks[0].last_status, TaskStatus::FailCallerCompat);
    assert_eq!(pick_next_refactor_task(&tasks), None);
    tasks[0].attempts = u32::MAX;
    record_attempt(&mut tasks[0], AttemptVerdict::Skip);
    assert_eq!(tasks[0].attempts, u32::MAX);
}

#[test]
fn callers_are_listed_where_asked_for() {
    let with = build_refactor_prompt(&fresh(), "fn f() {}", true, Some("a -> f"));
    let without = build_refactor_prompt(&fresh(), "fn f() {}", false, Some("a -> f"));
    assert!(with.contains("callers from the static call-graph\n\na -> f\n## Constraints"));
    assert!(!without.contains("a -> f"));
    assert_eq!(build_refactor_prompt(&fresh(), "fn f() {}", true, None), without);
}

#[test]
fn requests_announce_bytes() {
    assert_eq!(
        build_cargo_check_request("a.rs", "// å\n"),
        "CARGO_CHECK a.rs\n6\n// å\n".as_bytes()
    );
    let mut reply = 1u32.to_le_bytes().to_vec();
    reply.extend_from_slice(&300u32.to_le_bytes());
    assert_eq!(parse_cargo_check_header(&reply), Some((1, 300)));
}

// Validation

#[test]
fn outcomes_tell_where() {
    let cases = [
        ("fn f() {}", "ok"),
        ("a(]", "[prevalidate] bracket mismatch at byte 2: expected ')', found ']'"),
        ("x }", "[prevalidate] stray closing '}' at byte 2 with no matching open"),
        ("x \"ab", "[prevalidate] unterminated string literal starting at byte 2"),
        ("r#\"ab\"", "[prevalidate] unterminated raw string literal starting at byte 0"),
        (r"['\'','(']", "ok"),
        (r"['\\','{']", "ok"),
        (r"'\u{1F600}' '\n'", "ok"),
        (r"'\' (", "[prevalidate] bracket mismatch at byte 4: expected ')', found '\0'"),
        ("/* /* */", "[prevalidate] unterminated block comment starting at byte 0"),
    ];
    for (src, want) in cases {
        let r = check(src);
        assert_eq!(r.diagnostic(), want);
        assert_eq!(r.is_ok(), want == "ok");
    }
}

#[test]
fn open_brackets_at_the_end() {
    assert!(matches!(
        check("fn f() { (["),
        PrevalidateOutcome::BracketMismatch { expected: ']', found: '\0', .. }
    ));
}

#[test]
fn lifetimes_and_chars_are_told_apart() {
    assert!(check("fn f<'a>(x: &'a str) { let c = '{'; }").is_ok());
    assert!(check("let q = '\\''; let s = \"\\\"{\";").is_ok());
}

// Projects

#[test]
fn projects_are_apart() {
    let a = Project::new("app");
    let b = Project::new("app2");
    assert_eq!(a.qualify("2/x"), "proj/app/2/x");
    assert!(!b.qualify("x").starts_with(&a.prefix()));
    let w = a.write("x.rs", b"fn");
    assert_eq!((w.name.as_str(), w.content.as_slice()), ("proj/app/x.rs", &b"fn"[..]));
    let d = a.delete("x.rs");
    assert_eq!((d.name.as_str(), d.content.len()), ("proj/app/x.rs", 0));
}

#[test]
fn deletions_and_presence() {
    assert_eq!(Project::delete_outcome(Ok(())), Ok(()));
    assert_eq!(Project::delete_outcome(Err(StoreError::NotFound)), Ok(()));
    let failed = StoreError::Failed { fault: StoreFault::Other { code: 7 } };
    assert_eq!(Project::delete_outcome(Err(failed)), Err(failed));
    assert!(Project::is_present(Some(1)));
    assert!(!Project::is_present(Some(0)));
    assert!(!Project::is_present(None));
}

#[test]
fn files_are_read_in_chunks() {
    let file: Vec<u8> = (0..19).collect();
    let mut r = Project::read(19);
    let mut offsets = Vec::new();
    while let Some(o) = r.next_offset() {
        offsets.push(o);
        let mut c = [0xFFu8; 8];
        for k in 0..8 {
            if o as usize + k < file.len() {
                c[k] = file[o as usize + k];
            }
        }
        r.take_chunk(u64::from_le_bytes(c));
    }
    assert_eq!(offsets, vec![0, 8, 16]);
    assert_eq!(r.out, file);
    assert_eq!(Project::read(0).next_offset(), None);
}

// Replies with several files

#[test]
fn last_fence_closes_the_listing() {
    let raw = "text\n```rust\n// === FILE:  a.rs \n/// ```\n/// x\n/// ```\nfn a() {}\n```\nbye";
    let files = parse_multi_file_response(raw);
    assert_eq!(files.len(), 1);
    assert_eq!(files[0].path, "a.rs");
    assert!(files[0].content.contains("fn a() {}"));
    assert!(!files[0].content.contains("bye"));
}

#[test]
fn listed_pairs_come_back() {
    let pairs = [
        ("src/lib.rs", "pub fn a() {}\n\n/// ```\n/// a();\n/// ```\npub fn b() {}"),
        ("empty.rs", ""),
        ("", "no path"),
        ("two words.rs", "// = FILE: x"),
    ];
    let mut listing = String::new();
    for (path, text) in pairs {
        listing.push_str(&format!("// === FILE: {path}\n{text}\n"));
    }
    let replies = [
        listing.clone(),
        format!("```rust\n{listing}```"),
        format!("Sure:\n```rust,ignore\nfiles:\n{listing}``` done"),
    ];
    for reply in replies {
        let files = parse_multi_file_response(&reply);
        let found: Vec<(&str, &str)> =
            files.iter().map(|f| (f.path.as_str(), f.content.as_str())).collect();
        assert_eq!(found, pairs);
    }
}

#[test]
fn nesting_is_accepted_down_to_the_limit() {
    let deep = |n: usize| format!("{}{}", "(".repeat(n), ")".repeat(n));
    assert!(matches!(check(&deep(256)), PrevalidateOutcome::Balanced));
    assert!(matches!(
        check(&deep(257)),
        PrevalidateOutcome::BracketMismatch { byte_offset: 256, .. }
    ));
    assert!(matches!(check("([]{()})[]"), PrevalidateOutcome::Balanced));
    assert!(matches!(check("([)]"), PrevalidateOutcome::BracketMismatch { .. }));
}

#[test]
fn prompt_and_requests_for_a_project() {
    assert_eq!(build_multi_file_prompt("id", "a clock"), format!("Write a clock{}", MULTI_FILE_RULES));
    let files = [
        MultiFileEntry { path: "src/lib.rs".into(), content: "fn a() {}".into() },
        MultiFileEntry { path: "b.rs".into(), content: "".into() },
    ];
    let w = persist_multi_file_project("calc", &files);
    assert_eq!(w.len(), 2);
    assert_eq!(w[0].name, "proj/calc/src/lib.rs");
    assert_eq!(w[0].content, b"fn a() {}");
    assert_eq!(count_stored(&[true, false, true]), 2);
    assert_eq!(summary_line("calc", 1, 2), "[Phase-C] calc done: 1 of 2 file(s) persisted");
}

// Texts

#[test]
fn numbers_as_text() {
    let mut s = String::new();
    push_dec(&mut s, 0);
    push_dec(&mut s, u64::MAX);
    assert_eq!(s, "018446744073709551615");
    let mut s = String::new();
    push_hex(&mut s, 0xBEEF);
    assert_eq!(s, format!("{:x}", 0xBEEF));
    let mut s = String::new();
    push_padded_dec(&mut s, 7, 3);
    push_padded_dec(&mut s, 1234, 3);
    assert_eq!(s, "0071234");
}

#[test]
fn texts_are_clipped_between_characters() {
    assert_eq!(clipped("håp", 2), "h");
    assert_eq!(clipped("håp", 3), "hå");
    assert_eq!(clipped("håp", 99), "håp");
    assert_eq!(byte_len("håp"), 4);
    assert_eq!(trimmed("\u{a0} \t a b\u{3000}\n"), "a b");
}

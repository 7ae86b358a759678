use folkering::daemon::{
    handle_command, parse_and_decide, parse_dream_keys, publish_status, run_draug_tick,
    DraugCommand, DraugReply, DreamEnd, DreamReply, TickAction, TickStage,
};
use folkering::draug::{
    model_for_level, AsyncPhase, DraugDaemon, DreamMode, ObservationSummary, PlanStep, TaskPlan,
};
use folkering::draug_analysis::ANALYSIS_HEAD;
use folkering::dream_prompt::compress_source;
use folkering::friction::FrictionTracker;
use folkering::hunt::{
    build_intent_json, collect_text, graph_verdict, next_boot_count, patch_outcome, preview,
    record_outcome, run, run_auto_refactor_test, run_graph_supersession_test, store_verdict,
    GraphAction, GraphOp, GraphVerdict, HuntStep, PageNode, StoreVerdict,
};
use folkering::mining::{format_telemetry_log, ClockTime};
use folkering::refactor_step::{
    BuildVerdict, PlanAction, RefactorRun, RefactorStart, Reply, ReplyVerdict,
};
use folkering::refactor_types::{RefactorTask, TaskStatus};
use folkering::skill_prompt::{
    build_error_memory, build_level_prompt, build_retry_prompt, extract_rust_code_block,
    level_name, task_label, REFACTOR_TASKS,
};

const HOUR: u64 = 3_600_000;

fn ticked(n: u64) -> DraugDaemon {
    let mut d = DraugDaemon::new();
    for i in 1..=n {
        d.tick(i * 10_000, 40);
    }
    d
}

// Friction

#[test]
fn friction_grows_and_decays() {
    let mut f = FrictionTracker::new();
    f.record_signal(7, 10);
    f.record_signal(7, 10);
    f.record_signal(8, 5);
    assert_eq!(f.score_for(7), 20);
    assert_eq!(f.score_for(9), 0);
    assert_eq!(f.most_frustrated(), Some(7));
    f.decay(59_999);
    assert_eq!(f.score_for(7), 20);
    f.decay(60_000);
    assert_eq!(f.score_for(7), 19);
    assert_eq!(f.score_for(8), 4);
}

#[test]
fn friction_replaces_the_lowest() {
    let mut f = FrictionTracker::new();
    for i in 0..8 {
        f.record_signal(100 + i, 20 + i as u16);
    }
    f.record_signal(1, 3);
    assert_eq!(f.score_for(100), 0);
    assert_eq!(f.score_for(1), 3);
    assert_eq!(f.most_frustrated(), Some(107));
    f.record_signal(107, u16::MAX);
    assert_eq!(f.score_for(107), u16::MAX);
}

#[test]
fn low_friction_is_no_frustration() {
    let mut f = FrictionTracker::new();
    f.record_signal(7, 15);
    assert_eq!(f.most_frustrated(), None);
    f.record_signal(7, 1);
    assert_eq!(f.most_frustrated(), Some(7));
}

// Ticks and analyses

#[test]
fn ticks_come_every_ten_seconds() {
    let mut d = DraugDaemon::new();
    assert!(!d.should_tick(9_999));
    assert!(d.should_tick(10_000));
    d.tick(10_000, 40);
    assert_eq!(d.observation_count(), 1);
    assert!(!d.should_tick(19_999));
    d.set_active(false);
    assert!(!d.should_tick(50_000));
    assert!(!d.is_active());
}

#[test]
fn log_keeps_twenty_observations() {
    let d = ticked(25);
    assert_eq!(d.observation_count(), 20);
    let p = d.build_analysis_prompt();
    assert_eq!(
        p,
        format!(
            "{}  T+230s: RAM=40% event=IDLE\n  T+240s: RAM=40% event=IDLE\n  T+250s: RAM=40% event=IDLE\n",
            ANALYSIS_HEAD
        )
    );
}

#[test]
fn memory_warnings_come_before_idleness() {
    let mut d = DraugDaemon::new();
    d.tick(500_000, 86);
    d.tick(510_000, 240);
    let last: ObservationSummary = d.log[1].unwrap();
    assert_eq!((last.event_tag, last.mem_pct, last.timestamp_s), (1, 100, 510));
    d.on_user_input(515_000);
    d.tick(520_000, 85);
    assert_eq!(d.log[2].unwrap().event_tag, 0);
    assert_eq!(d.last_input_ms(), 515_000);
}

#[test]
fn analyses_are_limited() {
    let mut d = ticked(3);
    assert!(!d.should_analyze(300_000));
    assert!(d.should_analyze(300_001));
    assert!(!d.start_analysis(300_001, false));
    assert!(!d.is_waiting());
    assert!(d.start_analysis(300_001, true));
    assert!(d.is_waiting());
    assert_eq!(d.analysis_count(), 1);
    assert!(!d.should_analyze(900_000));
    assert!(!d.check_waiting_timeout(360_001));
    assert!(d.check_waiting_timeout(360_002));
    assert!(!d.is_waiting());
    for i in 0..4 {
        d.begin_analysis_cycle(1_000_000 + i * 400_000);
        d.finish_analysis_cycle();
    }
    assert_eq!(d.analysis_count(), 5);
    assert!(!d.should_analyze(9 * HOUR));
}

#[test]
fn alerts_are_passed_on() {
    let mut d = DraugDaemon::new();
    d.waiting_for_llm = true;
    assert_eq!(
        d.on_analysis_response(Some("alert"), Some("disk full")),
        Some("[Draug] disk full".to_string())
    );
    assert!(!d.is_waiting());
    assert_eq!(d.on_analysis_response(Some("none"), Some("x")), None);
    assert_eq!(d.on_analysis_response(Some("alert"), None), None);
    assert_eq!(d.on_analysis_response(None, Some("x")), None);
}

#[test]
fn tokens_are_left_to_the_user() {
    let mut d = DraugDaemon::new();
    d.on_user_input(100_000);
    assert!(d.should_yield_tokens(false, 129_999));
    assert!(!d.should_yield_tokens(false, 130_000));
    assert!(d.should_yield_tokens(true, 900_000));
}

// Skill tree

#[test]
fn skills_go_breadth_first() {
    let mut d = DraugDaemon::new();
    assert_eq!(d.next_task_and_level(), Some((0, 1)));
    d.advance_task_level(0);
    assert_eq!(d.next_task_and_level(), Some((1, 1)));
    for i in 1..20 {
        d.advance_task_level(i);
    }
    assert_eq!(d.next_task_and_level(), Some((0, 2)));
    assert_eq!(d.tasks_at_level(1), 20);
    assert_eq!(d.tasks_at_level(2), 0);
    for _ in 0..9 {
        for i in 0..20 {
            d.advance_task_level(i);
        }
    }
    assert_eq!(d.next_task_and_level(), None);
    assert_eq!(d.task_levels[3], 5);
    d.advance_task_level(20);
}

#[test]
fn code_and_errors_are_kept_per_task() {
    let mut d = DraugDaemon::new();
    d.store_task_code(3, "fn a() {}".to_string());
    d.store_task_code(20, "lost".to_string());
    assert_eq!(d.get_task_code(3), Some("fn a() {}"));
    assert_eq!(d.get_task_code(4), None);
    assert_eq!(d.get_task_code(20), None);
    d.store_task_error(3, "E0308".to_string());
    assert_eq!(d.get_task_error(3), Some("E0308"));
    d.clear_task_error(3);
    assert_eq!(d.get_task_error(3), None);
}

#[test]
fn refactor_steps_wait_for_idleness_and_interval() {
    let mut d = DraugDaemon::new();
    assert!(!d.should_run_refactor_step(29_999, 10, false));
    assert!(d.should_run_refactor_step(30_000, 10, false));
    assert!(!d.should_run_refactor_step(30_000, 91, false));
    assert_eq!(d.advance_refactor(30_000), 1);
    assert!(!d.should_run_refactor_step(44_999, 10, false));
    assert!(d.should_run_refactor_step(45_000, 10, false));
    for i in 0..20 {
        d.advance_task_level(i);
    }
    assert!(!d.should_run_refactor_step(45_000, 10, false));
    assert!(d.should_run_refactor_step(90_000, 10, false));
    d.dreaming = true;
    assert!(!d.should_run_refactor_step(90_000, 10, false));
}

#[test]
fn skips_lead_to_hibernation() {
    let mut d = DraugDaemon::new();
    for _ in 0..29 {
        d.record_skip();
    }
    assert!(!d.refactor_hibernating);
    d.record_skip();
    assert!(d.refactor_hibernating);
    assert!(d.wants_proxy_ping(60_000, 10));
    assert!(!d.wants_proxy_ping(59_999, 10));
    assert!(!d.should_run_refactor_step(60_000, 10, false));
    assert_eq!(d.last_refactor_ms, 60_000);
    assert!(!d.should_run_refactor_step(120_000, 10, true));
    assert!(!d.refactor_hibernating);
    assert_eq!(d.consecutive_skips, 0);
    assert!(d.should_run_refactor_step(135_000, 10, true));
    d.record_skip();
    d.reset_skips();
    assert_eq!(d.consecutive_skips, 0);
}

#[test]
fn queue_is_picked_from_its_front() {
    let mut d = DraugDaemon::new();
    assert_eq!(d.pick_next_refactor(), None);
    assert!(d.refactor_budget_remaining());
    let task = |status, attempts| RefactorTask {
        id: "t".into(),
        target_file: "f.rs".into(),
        target_fn: "f".into(),
        goal: "g".into(),
        attempts,
        last_status: status,
    };
    d.install_refactor_tasks(vec![
        task(TaskStatus::Pass, 1),
        task(TaskStatus::FailCompile, 3),
        task(TaskStatus::FailCompile, 2),
    ]);
    assert_eq!(d.pick_next_refactor(), Some(2));
    d.refactor_iterations_done = 16;
    assert!(!d.refactor_budget_remaining());
}

#[test]
fn status_names_read_back() {
    for s in [
        TaskStatus::Pending,
        TaskStatus::Pass,
        TaskStatus::FailCompile,
        TaskStatus::FailCallerCompat,
        TaskStatus::Skip,
    ] {
        assert_eq!(TaskStatus::parse(s.as_str()), Some(s));
    }
    assert_eq!(TaskStatus::parse("other"), None);
}

#[test]
fn models_grow_with_the_level() {
    assert_eq!(model_for_level(1), "qwen2.5-coder:7b");
    assert_eq!(model_for_level(2), "gemma4:31b-cloud");
}

// State files

#[test]
fn state_comes_back() {
    let mut d = DraugDaemon::new();
    d.advance_task_level(0);
    d.advance_task_level(0);
    d.refactor_iter = 0x01020304;
    d.complex_task_idx = 5;
    d.plan_mode_active = true;
    let s = d.save_state();
    assert_eq!(s.len(), 26);
    assert_eq!(&s[20..], &[4, 3, 2, 1, 5, 1]);
    let mut e = DraugDaemon::new();
    assert!(!e.restore_state(&s[..25]));
    assert!(e.restore_state(&s));
    assert_eq!(e.task_levels, d.task_levels);
    assert_eq!((e.refactor_iter, e.complex_task_idx), (0x01020304, 5));
    assert!(e.plan_mode_active && e.knowledge_hunted);
    let mut bad = s.clone();
    bad[24] = 9;
    assert!(e.restore_state(&bad));
    assert_eq!(e.complex_task_idx, 0);
}

#[test]
fn code_files_come_back() {
    let mut d = DraugDaemon::new();
    d.store_task_code(7, "fn x() {}".into());
    assert_eq!(
        d.save_task_code(7),
        Some(("draug_code_7.rs".to_string(), "fn x() {}".to_string()))
    );
    assert_eq!(d.save_task_code(8), None);
    assert!(!d.wants_task_code(8));
    assert!(!d.restore_task_code(8, b"fn y() {}"));
    d.advance_task_level(8);
    assert!(d.wants_task_code(8));
    assert!(!d.restore_task_code(8, b""));
    assert!(!d.restore_task_code(8, &[0xFF]));
    assert!(!d.restore_task_code(8, &[b'a'; 4096]));
    assert!(d.restore_task_code(8, b"fn y() {}"));
    assert_eq!(d.get_task_code(8), Some("fn y() {}"));
}

// Dreams

#[test]
fn nights_are_short() {
    assert!(DraugDaemon::is_nighttime(23));
    assert!(DraugDaemon::is_nighttime(5));
    assert!(!DraugDaemon::is_nighttime(6));
    assert_eq!(DraugDaemon::idle_threshold(2), 300_000);
    assert_eq!(DraugDaemon::idle_threshold(12), 2_700_000);
}

#[test]
fn dreams_wait_for_idleness() {
    let mut d = DraugDaemon::new();
    assert!(!d.should_dream(2_700_000, 12));
    assert!(d.should_dream(2_700_001, 12));
    assert!(d.should_dream(600_001, 2));
    assert!(!d.should_dream(600_000, 2));
    d.dream_count = 10;
    assert!(!d.should_dream(9 * HOUR, 2));
}

#[test]
fn key_hash_is_djb2() {
    assert_eq!(DraugDaemon::key_hash_pub(""), 5381);
    assert_eq!(DraugDaemon::key_hash_pub("a"), 5381 * 33 + 97);
}

#[test]
fn three_strikes_perfect_an_app() {
    let mut d = DraugDaemon::new();
    d.add_strike("clock");
    d.add_strike("clock");
    assert!(!d.is_perfected("clock"));
    d.add_strike("clock");
    assert!(d.is_perfected("clock"));
    assert_eq!(d.total_strikes(), 3);
    assert_eq!(d.perfected_count(&["clock", "calc"]), 1);
    d.reset_strikes("clock");
    assert!(!d.is_perfected("clock"));
    assert_eq!(d.total_strikes(), 0);
    for i in 0..9u32 {
        d.add_strike_by_hash(i);
    }
    assert_eq!(d.total_strikes(), 8);
    d.reset_strikes_by_hash(3);
    assert_eq!(d.total_strikes(), 7);
}

#[test]
fn dreams_follow_need() {
    let keys = ["clock", "calc", "paint"];
    let mut d = DraugDaemon::new();
    assert_eq!(d.choose_dream(&keys, 12), Some((0, DreamMode::Refactor)));
    d.record_crash("paint");
    assert_eq!(d.choose_dream(&keys, 12), Some((2, DreamMode::Nightmare)));
    d.friction.record_signal(DraugDaemon::key_hash_pub("calc"), 20);
    assert_eq!(d.choose_dream(&keys, 12), Some((1, DreamMode::Creative)));
    assert_eq!(d.choose_dream(&[], 12), None);
}

#[test]
fn new_apps_come_before_the_rotation() {
    let keys = ["clock", "calc"];
    let mut d = DraugDaemon::new();
    assert_eq!(
        d.start_dream(&keys, 1000, 12),
        Some(("clock".to_string(), DreamMode::Refactor))
    );
    d.on_dream_complete(2000);
    assert_eq!(d.last_dreamt_about("clock"), 0);
    assert_eq!(
        d.start_dream(&keys, 3000, 12),
        Some(("calc".to_string(), DreamMode::Refactor))
    );
    d.on_dream_complete(4000);
    assert_eq!(d.choose_dream(&keys, 12), Some((0, DreamMode::Creative)));
}

#[test]
fn dream_runs_its_course() {
    let mut d = DraugDaemon::new();
    d.dream_count = 4;
    let (target, mode) = d.start_dream(&["clock"], 1000, 12).unwrap();
    assert_eq!((target.as_str(), mode), ("clock", DreamMode::Refactor));
    assert!(d.is_dreaming());
    assert_eq!(d.dream_target(), Some("clock"));
    assert_eq!(d.current_dream_mode(), DreamMode::Refactor);
    assert_eq!(d.last_dreamt_about("clock"), 4);
    d.on_dream_complete(2000);
    assert_eq!((d.is_dreaming(), d.dream_count()), (false, 5));
    assert_eq!(d.dream_target(), None);
    let (_, mode) = d.start_dream(&["clock"], 3000, 12).unwrap();
    assert_eq!(mode, DreamMode::Creative);
    d.wake_up();
    assert!(!d.is_dreaming());
    assert_eq!(d.dream_count(), 5);
    d.dream_count = 8;
    assert_eq!(d.choose_dream(&["clock"], 12), Some((0, DreamMode::Creative)));
    assert_eq!(d.choose_dream(&["clock"], 1), Some((0, DreamMode::Nightmare)));
}

#[test]
fn content_apps_are_left_alone() {
    let mut d = DraugDaemon::new();
    for _ in 0..3 {
        d.add_strike("clock");
    }
    assert!(!d.app_needs_dream("clock"));
    assert!(d.app_needs_dream("calc"));
    d.on_dream_complete(0);
    assert_eq!(d.start_dream(&["clock"], 1000, 12), None);
    assert!(!d.is_dreaming());
    assert_eq!(d.dream_target(), None);
    d.dream_count = 5;
    d.journal_record("clock");
    assert_eq!(d.gc_candidates(&["calc", "clock"]), Vec::<&str>::new());
    d.dream_count = 6;
    d.journal_record("clock");
    assert_eq!(d.start_dream(&["clock"], 1, 12), None);
    assert_eq!(d.gc_candidates(&["calc", "clock"]), vec!["clock"]);
}

#[test]
fn overslept_dreams_are_given_up() {
    let mut d = DraugDaemon::new();
    d.start_dream(&["clock"], 1000, 12);
    assert!(!d.check_waiting_timeout(121_000));
    assert!(d.check_waiting_timeout(121_001));
    assert!(!d.is_dreaming());
}

#[test]
fn shaky_drivers_come_first() {
    let d = DraugDaemon::new();
    assert_eq!(d.pick_driver_dream(&[(1, 2, 1, 900, 0)]), None);
    assert_eq!(
        d.pick_driver_dream(&[(1, 2, 1, 900, 3), (3, 4, 1, 450, 0)]),
        Some((3, 4, DreamMode::DriverRefactor))
    );
    assert_eq!(
        d.pick_driver_dream(&[(1, 2, 1, 199, 0)]),
        Some((1, 2, DreamMode::DriverNightmare))
    );
}

#[test]
fn sources_are_compressed() {
    let src = "fn a() {   \n    // note\n\n    let s = \"http://x\"; // tail\n    let t = 1;\n}\n";
    assert_eq!(compress_source(src), "fn a() {\nlet s = \"http://x\"; // tail\nlet t = 1;\n}\n");
    assert_eq!(compress_source("let x = 1; // one\n"), "let x = 1;\n");
    assert_eq!(compress_source("/// doc\n// note\n\nfn f() {}  \n"), "/// doc\nfn f() {}\n");
}

#[test]
fn dream_prompts_fit_the_mode() {
    let mut d = DraugDaemon::new();
    let p = d.build_dream_prompt("fn main() {} // x", "clock", "a circle");
    assert!(p.starts_with("You are Draug, optimizing WASM apps for Folkering OS.\n\nAPP: 'clock'"));
    assert!(p.contains("```rust\nfn main() {}\n\n```"));
    assert!(!p.contains("a circle"));
    d.dream_mode = DreamMode::Creative;
    let p = d.build_dream_prompt("x", "clock", "a circle");
    assert!(p.contains("Current visual output:\na circle"));
    assert!(!p.contains("USER FRUSTRATION"));
    d.friction.record_signal(DraugDaemon::key_hash_pub("clock"), 15);
    assert!(!d.build_dream_prompt("x", "clock", "").contains("USER FRUSTRATION"));
    d.friction.record_signal(DraugDaemon::key_hash_pub("clock"), 1);
    assert!(d.build_dream_prompt("x", "clock", "").contains("USER FRUSTRATION DETECTED"));
    d.dream_mode = DreamMode::DriverNightmare;
    assert!(d.build_dream_prompt("x", "nic", "").contains("DRIVER: nic"));
}

// Pattern mining

fn event(action: u8, task: u16, target: u32, duration: u32, ms: u32) -> Vec<u8> {
    let mut e = vec![action, 0];
    e.extend_from_slice(&task.to_le_bytes());
    e.extend_from_slice(&target.to_le_bytes());
    e.extend_from_slice(&duration.to_le_bytes());
    e.extend_from_slice(&ms.to_le_bytes());
    e
}

#[test]
fn telemetry_is_readable() {
    let mut b = event(0, 7, 0xBEEF, 0, 5_500);
    b.extend(event(99, 1, 0, 12, 6_000));
    let log = format_telemetry_log(&b, 2);
    let lines: Vec<&str> = log.lines().collect();
    assert_eq!(lines.len(), 2);
    assert!(lines[0].starts_with("T+5s AppOpened t7 id=0x"));
    assert!(lines[1].starts_with("T+6s Unknown t1 id=0x"));
    assert!(lines[1].ends_with(" dur=12ms"));
    assert_eq!(format_telemetry_log(&b[..20], 2).lines().count(), 1);
}

#[test]
fn insights_are_kept_once() {
    let mut d = DraugDaemon::new();
    assert!(d.should_mine_patterns(1_800_001));
    assert!(!d.should_mine_patterns(1_800_000));
    assert_eq!(d.begin_pattern_mining(5, &[], 0), None);
    assert_eq!(d.last_pattern_mine_ms, 5);
    let p = d.begin_pattern_mining(6, &event(0, 7, 1, 0, 5_500), 1).unwrap();
    assert!(p.contains("TELEMETRY LOG (1 events):\nT+5s AppOpened"));
    let clock = ClockTime { year: 2026, month: 5, day: 2, hour: 3, minute: 4 };
    let i = d.mine_patterns(61_000, 12, b"  merge the apps \n", clock).unwrap();
    assert_eq!(i.text, "merge the apps");
    let f = i.file.unwrap();
    assert_eq!(f.name, "autodream/insights/2026-05-02_0304.txt");
    assert!(f.content.contains("# Events analyzed: 12 | Uptime: 61s\n\nmerge the apps\n"));
    assert_eq!(d.pattern_mine_count(), 1);
    let again = d.mine_patterns(62_000, 12, b"merge the apps", clock).unwrap();
    assert!(again.file.is_none());
    assert!(d.mine_patterns(63_000, 1, b"", clock).is_none());
    assert!(d.mine_patterns(63_000, 1, &[0xFF], clock).is_none());
    assert_eq!(d.pattern_mine_count(), 1);
}

// Prompts and code

#[test]
fn code_is_taken_out_of_replies() {
    assert_eq!(extract_rust_code_block("Sure:\n```rust\nfn a() {}\n```\nDone"), "fn a() {}");
    assert_eq!(extract_rust_code_block("```\nfn b() {}\n```"), "fn b() {}");
    assert_eq!(extract_rust_code_block("  fn c() {} \n"), "fn c() {}");
    assert_eq!(extract_rust_code_block("```rust\nfn d() {"), "fn d() {");
    assert_eq!(extract_rust_code_block(""), "");
    assert_eq!(extract_rust_code_block("a ```rust,ignore\nfn f() {}``` b ```c```"), "fn f() {}");
    assert_eq!(extract_rust_code_block("```text\nfn g() {}```` b"), "fn g() {}");
    assert_eq!(
        extract_rust_code_block("```\nx\n```\n```rust\n  fn e() {}\n\n```\n```rust\nno\n```"),
        "fn e() {}"
    );
}

#[test]
fn level_prompts() {
    let (id, desc) = REFACTOR_TASKS[0];
    assert!(build_level_prompt(1, id, desc, None).starts_with("Write an iterative Fibonacci"));
    assert!(build_level_prompt(2, id, desc, None).contains("at least 3 test functions"));
    let p = build_level_prompt(3, id, desc, Some("fn fib() {}"));
    assert!(p.contains("```rust\nfn fib() {}\n```\nTask: Write an optimized version named `fib_iter_fast`"));
    assert!(build_level_prompt(3, id, desc, None).contains("no prior code available"));
    assert_eq!(level_name(3), "Evolution");
    assert_eq!(level_name(9), "???");
    assert_eq!(task_label("gcd", 2), "gcd L2");
}

#[test]
fn errors_are_cut_in_prompts() {
    let long = "e".repeat(2000);
    let p = build_retry_prompt("fn x() {}", &long);
    assert_eq!(p.matches('e').count() - build_retry_prompt("fn x() {}", "").matches('e').count(), 1024);
    assert_eq!(build_error_memory(None), "");
    assert!(build_error_memory(Some("E1")).ends_with("failed with:\n```\nE1\n```\nAvoid this mistake."));
}

// Refactor iterations

#[test]
fn iteration_asks_for_the_next_level() {
    let mut d = DraugDaemon::new();
    assert!(d.needs_ping(1000));
    match d.run_refactor_step(5, 1000, false, 0) {
        RefactorStart::Unreachable => {}
        _ => panic!("unreachable"),
    }
    assert_eq!((d.consecutive_skips, d.refactor_iter), (1, 0));
    match d.run_refactor_step(6, 2000, true, 0) {
        RefactorStart::Ask { run, prompt } => {
            assert_eq!((run.iter, run.task_idx, run.level, run.attempt), (1, 0, 1, 0));
            assert!(prompt.starts_with("Write an iterative Fibonacci"));
            assert_eq!(DraugDaemon::refactor_model(&run), "qwen2.5-coder:7b");
        }
        _ => panic!("ask"),
    }
    assert!(!d.needs_ping(62_000));
    assert!(d.needs_ping(62_001));
    d.refactor_iter = 49;
    match d.run_refactor_step(7, 3000, true, 81) {
        RefactorStart::Paused => {}
        _ => panic!("paused"),
    }
}

#[test]
fn finished_skill_tree_leads_to_plans() {
    let mut d = DraugDaemon::new();
    d.task_levels = [3; 20];
    match d.run_refactor_step(6, 2000, true, 0) {
        RefactorStart::Plan { iter, entered } => assert_eq!((iter, entered), (1, true)),
        _ => panic!("plan"),
    }
    assert!(d.plan_mode_active);
    match d.run_refactor_step(7, 3000, true, 0) {
        RefactorStart::Plan { entered, .. } => assert!(!entered),
        _ => panic!("plan"),
    }
    assert_eq!(d.run_plan_step(), PlanAction::PlanTask { idx: 0 });
    d.on_planned(None);
    assert_eq!(d.run_plan_step(), PlanAction::PlanTask { idx: 1 });
    d.on_planned(Some(TaskPlan {
        task_id: "t".into(),
        task_desc: "d".into(),
        steps: vec![PlanStep { description: "s".into(), code: None, done: false, fail_count: 0 }],
        current_step: 0,
        completed: false,
    }));
    assert_eq!(d.run_plan_step(), PlanAction::Execute);
    assert!(d.has_plan_work());
    d.active_plan.as_mut().unwrap().completed = true;
    d.complex_task_idx = 8;
    assert_eq!(d.run_plan_step(), PlanAction::AllDone);
    assert!(!d.has_plan_work());
}

#[test]
fn replies_are_judged() {
    let mut d = DraugDaemon::new();
    match d.on_refactor_reply(Some(Reply { status: 0, output: b"```rust\nfn a() {}\n```" })) {
        ReplyVerdict::Build { code } => assert_eq!(code, "fn a() {}"),
        _ => panic!("build"),
    }
    match d.on_refactor_reply(Some(Reply { status: 1, output: b"x" })) {
        ReplyVerdict::Skipped => assert_eq!(d.consecutive_skips, 1),
        _ => panic!("skipped"),
    }
    match d.on_refactor_reply(None) {
        ReplyVerdict::Skipped => assert_eq!(d.consecutive_skips, 2),
        _ => panic!("skipped"),
    }
    match d.on_refactor_reply(Some(Reply { status: 0, output: b"```rust\n```" })) {
        ReplyVerdict::Failed => assert_eq!(d.refactor_failed, 1),
        _ => panic!("failed"),
    }
}

#[test]
fn builds_are_retried_twice() {
    let mut d = DraugDaemon::new();
    let mut run = RefactorRun { iter: 1, task_idx: 2, level: 1, attempt: 0 };
    for n in 1..=2 {
        match d.on_refactor_build(&mut run, "fn a(".into(), Some(Reply { status: 1, output: b"E" })) {
            BuildVerdict::Retry { prompt } => assert!(prompt.contains("[COMPILER ERROR]\n```\nE\n```")),
            _ => panic!("retry"),
        }
        assert_eq!(run.attempt, n);
    }
    match d.on_refactor_build(&mut run, "fn a(".into(), Some(Reply { status: 1, output: b"E2" })) {
        BuildVerdict::Failed => {}
        _ => panic!("failed"),
    }
    assert_eq!(d.get_task_error(2), Some("E2"));
    assert_eq!((d.refactor_failed, d.refactor_retries), (1, 2));
    run.attempt = 0;
    match d.on_refactor_build(&mut run, "fn a() {}".into(), Some(Reply { status: 0, output: b"" })) {
        BuildVerdict::Passed { keep_code } => assert!(keep_code),
        _ => panic!("passed"),
    }
    assert_eq!(d.get_task_error(2), None);
    assert_eq!(d.get_task_code(2), Some("fn a() {}"));
    assert_eq!((d.refactor_passed, d.task_levels[2]), (1, 1));
}

// Hunts

fn node(tag: &str, text: &[u8]) -> PageNode {
    PageNode { tag: tag.as_bytes().to_vec(), text: text.to_vec() }
}

#[test]
fn page_text_is_joined_and_bounded() {
    let t = collect_text(&[
        node("__url__", b"http://x"),
        node("p", b"Rust"),
        node("p", b""),
        node("p", &[0xFF]),
        node("p", b"rocks"),
    ]);
    assert_eq!(t, "Rust rocks");
    let big = vec![b'a'; 70_000];
    assert_eq!(collect_text(&[node("p", &big), node("p", b"x")]).len(), 65_536);
    assert_eq!(preview("short", 120), "short");
    assert_eq!(preview(&"z".repeat(130), 120), format!("{}...", "z".repeat(120)));
}

#[test]
fn hunt_record() {
    let j = build_intent_json("héj", 4);
    assert!(j.ends_with("\"compression\":\"AAAK\",\"fetcher\":\"draug_v1\",\"nodes\":4,\"chars\":4}"));
}

#[test]
fn hunts_stop_at_failures() {
    let mut d = DraugDaemon::new();
    assert!(d.should_hunt_knowledge(15_000));
    assert_eq!(run(&mut d, HuntStep::Fetch, true), HuntStep::Decode);
    assert_eq!(run(&mut d, HuntStep::Decode, true), HuntStep::Store);
    assert!(!d.knowledge_hunted);
    assert_eq!(run(&mut d, HuntStep::Store, true), HuntStep::Stamp);
    assert_eq!(run(&mut d, HuntStep::Stamp, false), HuntStep::SelfTest);
    assert!(d.knowledge_hunted);
    assert!(!d.should_hunt_knowledge(15_000));
    assert_eq!(run(&mut d, HuntStep::SelfTest, true), HuntStep::Over);
    let mut e = DraugDaemon::new();
    assert_eq!(run(&mut e, HuntStep::Fetch, false), HuntStep::Over);
    assert!(e.knowledge_hunted);
    e.mark_knowledge_hunted();
}

#[test]
fn self_test_outcomes() {
    assert_eq!(run_auto_refactor_test(None), Err("llm_ipc_error"));
    assert_eq!(
        run_auto_refactor_test(Some(Reply { status: 5, output: b"" })),
        Err("llm_http_error")
    );
    assert_eq!(
        run_auto_refactor_test(Some(Reply { status: 0, output: &[0xFF] })),
        Err("llm_non_utf8")
    );
    assert_eq!(
        run_auto_refactor_test(Some(Reply { status: 0, output: b"```rust\n```" })),
        Err("llm_parse_failed")
    );
    assert_eq!(
        run_auto_refactor_test(Some(Reply { status: 0, output: b"fn f() {}" })),
        Ok("fn f() {}".to_string())
    );
    let names: Vec<&str> = (0..7).map(|s| patch_outcome(Some(s))).collect();
    assert_eq!(
        names,
        vec![
            "refactor_ok",
            "refactor_build_failed",
            "refactor_bad_filename",
            "refactor_io_error",
            "refactor_timeout",
            "refactor_too_large",
            "refactor_unknown"
        ]
    );
    assert_eq!(patch_outcome(None), "refactor_ipc_error");
}

#[test]
fn outcomes_go_into_the_graph() {
    let ops = record_outcome("refactor_ok");
    assert_eq!(ops.len(), 7);
    match &ops[5] {
        GraphOp::Edge { id, from, relation, to } => {
            assert_eq!(
                (id.as_str(), from.as_str(), relation.as_str(), to.as_str()),
                ("edge_file_outcome", "draug_latest_rs", "last_check", "refactor_ok")
            );
        }
        _ => panic!("edge"),
    }
}

#[test]
fn graph_test_runs_in_order() {
    match run_graph_supersession_test(0, false) {
        GraphAction::Apply { op: GraphOp::Entity { id, .. } } => assert_eq!(id, "folk_browser"),
        _ => panic!("entity"),
    }
    match run_graph_supersession_test(4, true) {
        GraphAction::Apply { op: GraphOp::Edge { to, .. } } => assert_eq!(to, "Silverfir"),
        _ => panic!("edge"),
    }
    assert!(matches!(run_graph_supersession_test(3, false), GraphAction::Stop));
    assert!(matches!(run_graph_supersession_test(5, true), GraphAction::Walk));
    let hops = |v: &[&str]| v.iter().map(|s| s.to_string()).collect::<Vec<String>>();
    assert_eq!(graph_verdict(&hops(&["Silverfir"])), GraphVerdict::Superseded);
    assert_eq!(graph_verdict(&hops(&["Silverfir", "wasmi"])), GraphVerdict::StillReachable);
    assert_eq!(graph_verdict(&[]), GraphVerdict::NotReached);
}

#[test]
fn boots_are_counted() {
    assert_eq!(next_boot_count(None), 1);
    assert_eq!(next_boot_count(Some(&[])), 1);
    assert_eq!(next_boot_count(Some(&[41])), 42);
    assert_eq!(next_boot_count(Some(&[255])), 255);
    assert_eq!(store_verdict(&[1], Some(&[1])), StoreVerdict::Matches);
    assert_eq!(store_verdict(&[1], Some(&[2])), StoreVerdict::Differs);
    assert_eq!(store_verdict(&[1], None), StoreVerdict::Missing);
}

// Service loop

#[test]
fn commands_are_executed() {
    let mut d = DraugDaemon::new();
    assert_eq!(handle_command(DraugCommand::Ping, &mut d, 0, 1), DraugReply::Version);
    handle_command(DraugCommand::UserInput { ms: 77 }, &mut d, 0, 1);
    assert_eq!(d.last_input_ms(), 77);
    handle_command(DraugCommand::WasmCrash { hash48: 0x0003_0000_0005 }, &mut d, 0, 1);
    assert_eq!(d.friction.score_for(6), 20);
    handle_command(DraugCommand::FrictionSignal { hash: 9, weight: 5 }, &mut d, 0, 1);
    assert_eq!(d.friction.score_for(9), 5);
    assert_eq!(handle_command(DraugCommand::GetStatusHandle, &mut d, 0, 1), DraugReply::Refused);
    assert_eq!(
        handle_command(DraugCommand::GetStatusHandle, &mut d, 8, 1),
        DraugReply::Handle { handle: 8 }
    );
    d.start_dream(&["a"], 1, 12);
    let done = DraugCommand::DreamResult { end: DreamEnd::Complete };
    assert_eq!(handle_command(done, &mut d, 0, 5), DraugReply::Done);
    assert_eq!(d.dream_count(), 1);
    let cancel = DraugCommand::DreamResult { end: DreamEnd::Cancel };
    assert_eq!(handle_command(cancel, &mut d, 0, 5), DraugReply::Done);
    let unknown = DraugCommand::DreamResult { end: DreamEnd::Unknown };
    assert_eq!(handle_command(unknown, &mut d, 0, 5), DraugReply::Refused);
    assert_eq!(
        handle_command(DraugCommand::InstallRefactorTasks, &mut d, 0, 5),
        DraugReply::Done
    );
    assert_eq!(handle_command(DraugCommand::Unknown, &mut d, 0, 5), DraugReply::Refused);
}

fn request(keys: &[&[u8]]) -> Vec<u8> {
    let mut b = (keys.len() as u32).to_le_bytes().to_vec();
    b.extend_from_slice(&[0; 4]);
    for k in keys {
        b.extend_from_slice(&(k.len() as u16).to_le_bytes());
        b.extend_from_slice(&[0; 2]);
        b.extend_from_slice(k);
    }
    b
}

#[test]
fn dream_requests_are_decoded() {
    assert_eq!(
        parse_dream_keys(&request(&[b"clock", b"calc"])),
        Some(vec!["clock".to_string(), "calc".to_string()])
    );
    assert_eq!(parse_dream_keys(&request(&[])), None);
    assert_eq!(parse_dream_keys(&request(&[b""])), None);
    assert_eq!(parse_dream_keys(&request(&[&[0xFF]])), None);
    assert_eq!(parse_dream_keys(&request(&[&[b'k'; 65]])), None);
    let cut = request(&[b"clock"]);
    assert_eq!(parse_dream_keys(&cut[..cut.len() - 1]), None);
    assert_eq!(parse_dream_keys(&[1, 0, 0]), None);
    let many: Vec<&[u8]> = vec![b"k"; 33];
    assert_eq!(parse_dream_keys(&request(&many)), None);
}

#[test]
fn dream_requests_are_decided() {
    let mut d = DraugDaemon::new();
    d.record_crash("calc");
    assert_eq!(
        parse_and_decide(&mut d, &request(&[b"clock", b"calc"]), 9, 12),
        DreamReply::Dream { mode: DreamMode::Nightmare, index: 1, dream_count: 0 }
    );
    assert!(d.is_dreaming());
    let mut e = DraugDaemon::new();
    assert_eq!(parse_and_decide(&mut e, &[], 9, 12), DreamReply::Refused);
    e.dream_count = 6;
    e.journal_record("clock");
    for _ in 0..3 {
        e.add_strike("clock");
    }
    assert_eq!(
        parse_and_decide(&mut e, &request(&[b"clock"]), 9, 12),
        DreamReply::Skip { dream_count: 6 }
    );
}

#[test]
fn rounds_of_ticks() {
    let mut d = DraugDaemon::new();
    assert_eq!(
        run_draug_tick(&mut d, TickStage::Telemetry, 10_000, 10, false),
        TickAction::Nothing
    );
    assert_eq!(d.observation_count(), 1);
    assert_eq!(
        run_draug_tick(&mut d, TickStage::Hunt, 15_000, 10, false),
        TickAction::HuntKnowledge
    );
    assert_eq!(
        run_draug_tick(&mut d, TickStage::Mining, 1_800_001, 10, false),
        TickAction::MinePatterns
    );
    assert_eq!(
        run_draug_tick(&mut d, TickStage::Analysis, 1_800_001, 10, false),
        TickAction::Nothing
    );
    assert_eq!(
        run_draug_tick(&mut d, TickStage::Refactor, 30_000, 10, false),
        TickAction::AdvanceExchange
    );
    d.active = false;
    assert_eq!(
        run_draug_tick(&mut d, TickStage::Refactor, 30_000, 10, false),
        TickAction::Nothing
    );
    d.async_phase = AsyncPhase::Sending;
    assert_eq!(
        run_draug_tick(&mut d, TickStage::Refactor, 30_000, 10, false),
        TickAction::AdvanceExchange
    );
    let mut e = ticked(3);
    assert_eq!(
        run_draug_tick(&mut e, TickStage::Analysis, 400_000, 10, false),
        TickAction::StartAnalysis
    );
}

#[test]
fn active_users_are_not_interrupted() {
    let mut d = ticked(3);
    d.on_user_input(9 * HOUR);
    let now = 9 * HOUR + 14_999;
    for stage in [TickStage::Analysis, TickStage::Mining, TickStage::Hunt, TickStage::Refactor] {
        assert_eq!(run_draug_tick(&mut d, stage, now, 10, false), TickAction::Nothing);
    }
    assert!(!d.should_dream(now, 2));
}

#[test]
fn status_is_published() {
    let mut d = DraugDaemon::new();
    d.advance_task_level(4);
    d.record_refactor_pass();
    d.record_refactor_fail();
    let s = publish_status(&d, 9 * HOUR, 2);
    assert_eq!((s.tasks_at_l1, s.tasks_at_l2, s.tasks_at_l3), (1, 0, 0));
    assert_eq!((s.refactor_passed, s.refactor_failed, s.task_levels[4]), (1, 1, 1));
    assert!(s.dream_ready && s.skill_tree_has_work);
}

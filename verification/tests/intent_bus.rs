use folkering::intent_router::{
    build_execution_plan, get_action_for_intent, match_lower, match_pattern,
    merge_handler_rankings, IntentRouter,
};
use folkering::intent_types::{
    duty_of, BusDuty, Capability, Handler, Intent, IntentMessage, MessageMedium, SearchFilter,
};
use folkering::semantic_router::{
    build_capability_description, intent_to_query, is_embedding, SemanticRouter,
};

fn strings(v: &[&str]) -> Vec<String> {
    v.iter().map(|s| s.to_string()).collect()
}

fn cap(id: u32, name: &str, actions: &[&str], types: &[&str], tags: &[&str]) -> Capability {
    Capability {
        task_id: id,
        task_name: name.to_string(),
        actions: strings(actions),
        file_types: strings(types),
        tags: strings(tags),
    }
}

fn editor() -> Capability {
    cap(1, "TextEditor", &["open_file", "edit_text"], &[".txt", ".md"], &["editor"])
}

fn demo() -> IntentRouter {
    let mut r = IntentRouter::new();
    r.register(cap(100, "TextEditor", &["open_file", "edit_text"], &[".txt", ".md"], &["editor"]));
    r.register(cap(101, "Messenger", &["send_message"], &[], &["communication", "chat"]));
    r.register(cap(
        102,
        "Builder",
        &["run_command", "transform_data"],
        &[".rs", ".c"],
        &["development", "compiler"],
    ));
    r.register(cap(103, "FileSearcher", &["search", "open_file"], &[], &["search", "filesystem"]));
    r
}

fn open(query: &str) -> Intent {
    Intent::OpenFile { query: query.to_string(), context: None }
}

fn command(c: &str) -> Intent {
    Intent::RunCommand { command: c.to_string(), args: vec![], context: None }
}

#[test]
fn test_pattern_matching() {
    let mut router = IntentRouter::new();
    router.register(cap(
        1,
        "TextEditor",
        &["open_file", "edit_text"],
        &[".txt", ".md"],
        &["editor"],
    ));
    let intent = Intent::OpenFile { query: "notes.txt".to_string(), context: None };
    let result = router.route(&intent, vec![]);
    assert!(!result.handlers.is_empty());
    assert_eq!(result.handlers[0].task_id, 1);
}

#[test]
fn test_capability_description() {
    let cap = cap(
        1,
        "TextEditor",
        &["open_file", "edit_text"],
        &[".txt", ".md"],
        &["editor", "productivity"],
    );
    let desc = build_capability_description(&cap);
    assert!(desc.contains("TextEditor"));
    assert!(desc.contains("open_file"));
    assert!(desc.contains("edit_text"));
    assert_eq!(
        desc,
        "TextEditor. can open_file, edit_text. handles .txt, .md files. tags: editor, productivity"
    );
}

#[test]
fn test_intent_to_query() {
    let intent = Intent::OpenFile { query: "my notes.txt".to_string(), context: None };
    let query = intent_to_query(&intent);
    assert!(query.contains("open"));
    assert!(query.contains("my notes.txt"));
}

#[test]
fn descriptions_leave_out_what_is_empty() {
    assert_eq!(build_capability_description(&cap(1, "X", &[], &[], &["t"])), "X. tags: t");
    assert_eq!(build_capability_description(&cap(1, "X", &[], &[], &[])), "X");
}

#[test]
fn queries_for_every_intent() {
    assert_eq!(
        intent_to_query(&Intent::SendMessage {
            text: "hi".into(),
            recipients: strings(&["ann", "bo"]),
            medium: None,
        }),
        "send message 'hi' to ann, bo"
    );
    assert_eq!(
        intent_to_query(&Intent::RunCommand {
            command: "build".into(),
            args: strings(&["--release", "-v"]),
            context: None,
        }),
        "run command build --release -v"
    );
    assert_eq!(
        intent_to_query(&Intent::Transform {
            data: vec![],
            from_format: "csv".into(),
            to_format: "chart".into(),
            operation: None,
        }),
        "convert from csv to chart"
    );
    assert_eq!(
        intent_to_query(&Intent::Transform {
            data: vec![],
            from_format: "en".into(),
            to_format: "es".into(),
            operation: Some("summarize".into()),
        }),
        "summarize from en to es"
    );
    assert_eq!(
        intent_to_query(&Intent::Create {
            content_type: "note".into(),
            initial_content: Some("x".into()),
            metadata: vec![],
        }),
        "create note with content 'x'"
    );
    assert_eq!(
        intent_to_query(&Intent::Create {
            content_type: "note".into(),
            initial_content: None,
            metadata: vec![],
        }),
        "create note"
    );
    assert_eq!(
        intent_to_query(&Intent::Search {
            query: "budget".into(),
            filters: vec![SearchFilter::Tag("work".into())],
        }),
        "search for budget"
    );
}

#[test]
fn files_go_to_the_application_for_the_type() {
    let r = demo().route(&open("notes.txt"), vec![]);
    assert_eq!(r.handlers.len(), 2);
    assert_eq!(r.handlers[0].task_id, 100);
    assert_eq!(r.handlers[0].confidence, 1_000_000);
    assert_eq!(r.handlers[1].task_id, 103);
    assert_eq!(r.handlers[1].confidence, 300_000);
    assert_eq!(r.confidence, 1_000_000);
    assert_eq!(r.execution_plan.len(), 1);
    assert_eq!(r.execution_plan[0].handler, 100);
    assert_eq!(r.execution_plan[0].action, "open_file");
    assert!(r.execution_plan[0].data.is_none());
    let r = demo().route(&open("notes"), vec![]);
    assert_eq!(r.handlers[0].confidence, 500_000);
}

#[test]
fn trailing_dot_fits_every_file_type() {
    let r = match_pattern(&open("notes."), &vec![cap(5, "P", &[], &[".png"], &[])]);
    assert_eq!(r[0].confidence, 500_000);
}

#[test]
fn messages_count_a_named_medium() {
    let intent = Intent::SendMessage {
        text: "x".into(),
        recipients: vec![],
        medium: Some(MessageMedium::Chat),
    };
    let r = demo().route(&intent, vec![]);
    assert_eq!(r.handlers.len(), 4);
    assert_eq!(r.handlers[0].task_id, 101);
    assert_eq!(r.handlers[0].confidence, 1_000_000);
    assert_eq!(r.handlers[1].confidence, 200_000);
    assert_eq!(r.execution_plan[0].action, "send_message");
}

#[test]
fn commands_are_matched_in_lower_case() {
    let caps = vec![cap(102, "Builder", &["run_command"], &[], &["development"])];
    let r = match_pattern(&command("BUILD and Run"), &caps);
    assert_eq!(r[0].confidence, 1_000_000);
    assert_eq!(match_pattern(&command("deploy"), &caps)[0].confidence, 400_000);
    assert_eq!(match_lower(&command("ignored"), "compile", &caps)[0].confidence, 700_000);
}

#[test]
fn overall_confidence_is_at_most_full() {
    let mut router = IntentRouter::new();
    router.register(cap(1, "Dev", &["run_command"], &[], &["development"]));
    let r = router.route(&command("compile, build and run"), vec![]);
    assert_eq!(r.handlers[0].confidence, 1_300_000);
    assert_eq!(r.confidence, 1_000_000);
}

#[test]
fn other_intents() {
    let t = Intent::Transform {
        data: vec![],
        from_format: "a".into(),
        to_format: "b".into(),
        operation: None,
    };
    let r = demo().route(&t, vec![]);
    assert_eq!((r.handlers[0].task_id, r.confidence), (102, 700_000));
    assert_eq!(r.execution_plan[0].action, "transform_data");
    let s = Intent::Search { query: "x".into(), filters: vec![] };
    let r = demo().route(&s, vec![]);
    assert_eq!((r.handlers[0].task_id, r.confidence), (103, 800_000));
    assert_eq!(get_action_for_intent(&s), "search");
    let c = Intent::Create {
        content_type: "a .md note".into(),
        initial_content: None,
        metadata: vec![],
    };
    let r = demo().route(&c, vec![]);
    assert_eq!((r.handlers[0].task_id, r.confidence), (100, 300_000));
    assert_eq!(get_action_for_intent(&c), "create_content");
}

#[test]
fn nothing_fits() {
    let r = IntentRouter::new().route(&open("x"), vec![]);
    assert!(r.handlers.is_empty());
    assert!(r.execution_plan.is_empty());
    assert_eq!(r.confidence, 0);
    assert!(build_execution_plan(&open("x"), &vec![]).is_empty());
}

#[test]
fn registration_replaces_and_removal_removes() {
    let mut r = demo();
    r.register(cap(101, "NewMessenger", &[], &[], &[]));
    assert_eq!(r.capabilities.len(), 4);
    assert_eq!(r.capabilities[1].task_name, "NewMessenger");
    assert!(r.unregister(101));
    assert!(!r.unregister(101));
    assert_eq!(r.capabilities.len(), 3);
    assert_eq!(r.capabilities[1].task_id, 102);
}

fn handler(id: u32, confidence: u64) -> Handler {
    Handler { task_id: id, task_name: format!("t{}", id), confidence, capabilities: vec![] }
}

#[test]
fn rankings_are_merged() {
    let m = merge_handler_rankings(
        vec![handler(1, 500_000), handler(2, 200_000)],
        vec![handler(3, 900_000), handler(2, 800_000)],
    );
    let got: Vec<(u32, u64)> = m.iter().map(|h| (h.task_id, h.confidence)).collect();
    assert_eq!(got, vec![(3, 900_000), (2, 600_000), (1, 500_000)]);
    let m = merge_handler_rankings(vec![handler(1, 1_000_000)], vec![handler(1, 1_000_000)]);
    assert_eq!(m[0].confidence, 1_000_000);
    let m = merge_handler_rankings(vec![handler(1, 300_000)], vec![]);
    assert_eq!(m[0].confidence, 300_000);
    let m = merge_handler_rankings(
        vec![handler(1, 900_000), handler(2, 1), handler(1, 100_000)],
        vec![handler(3, 50_000)],
    );
    let got: Vec<(u32, u64)> = m.iter().map(|h| (h.task_id, h.confidence)).collect();
    assert_eq!(got, vec![(1, 100_000), (3, 50_000), (2, 1)]);
    let m = merge_handler_rankings(vec![handler(1, u64::MAX)], vec![handler(1, u64::MAX)]);
    assert_eq!(m[0].confidence, 1_000_000);
}

#[test]
fn similar_applications_are_chosen() {
    let mut s = SemanticRouter::new();
    let caps: Vec<Capability> =
        (1..=7).map(|i| cap(i, &format!("app{}", i), &["a"], &[], &[])).collect();
    for c in &caps {
        s.register_capability(c, Some(vec![0; 384]));
    }
    let sims = [100_000i64, 900_000, 250_000, 700_000, 650_000, 610_000, 600_000];
    let found = s.match_intent(Some(&sims), &caps);
    let ids: Vec<u32> = found.iter().map(|h| h.task_id).collect();
    assert_eq!(ids, vec![2, 4, 5, 6, 7]);
    assert_eq!(found[0].confidence, 900_000);
    let low = [100_000i64, 900_000, 250_000, 1_000_007, 0, -5, 299_999];
    let found = s.match_intent(Some(&low), &caps);
    let got: Vec<(u32, u64)> = found.iter().map(|h| (h.task_id, h.confidence)).collect();
    assert_eq!(got, vec![(4, 1_000_000), (2, 900_000)]);
    assert!(s.match_intent(None, &caps).is_empty());
    assert!(s.match_intent(Some(&sims), &vec![]).is_empty());
}

#[test]
fn embeddings_are_kept_per_task() {
    let mut s = SemanticRouter::new();
    s.register_capability(&editor(), None);
    assert!(s.tasks.is_empty());
    s.register_capability(&editor(), Some(vec![1; 384]));
    s.register_capability(&editor(), Some(vec![2; 384]));
    assert_eq!(s.tasks.len(), 1);
    assert_eq!(s.tasks[0].embedding[0], 2);
    assert_eq!(s.tasks[0].description, build_capability_description(&editor()));
    s.register_capability(&editor(), None);
    assert_eq!(s.tasks[0].embedding[0], 2);
    s.unregister_capability(9);
    assert_eq!(s.tasks.len(), 1);
    s.unregister_capability(1);
    assert!(s.tasks.is_empty());
    assert!(is_embedding(384));
    assert!(!is_embedding(383));
}

#[test]
fn messages_have_duties() {
    assert_eq!(duty_of(&IntentMessage::Register(editor())), BusDuty::Register);
    assert_eq!(duty_of(&IntentMessage::Unregister(3)), BusDuty::Unregister);
    assert_eq!(duty_of(&IntentMessage::SubmitIntent(open("x"))), BusDuty::Route);
    assert_eq!(
        duty_of(&IntentMessage::ExecutionResult { success: true, output: None, error: None }),
        BusDuty::Report
    );
    assert_eq!(
        duty_of(&IntentMessage::RoutingResponse(IntentRouter::new().route(&open("x"), vec![]))),
        BusDuty::Ignore
    );
}

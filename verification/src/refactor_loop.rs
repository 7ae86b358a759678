//! The refactor queue: seeds, prompts, attempts, and the exchange with the
//! build checker.
use vstd::prelude::*;
use vstd::string::*;
use vstd::utf8::*;

use crate::bytes::{le32, le32_bytes, le32_round_trip, read_le32};
use crate::chars::{to_chars, trim, trimmed};
use crate::draug::{eligible, first_eligible, pick_eligible, MAX_ATTEMPTS_PER_TASK};
use crate::refactor_types::{RefactorTask, TaskStatus};
use crate::text::{dec_bytes, extend_bytes, push_dec_bytes};

verus! {

broadcast use vstd::seq_lib::group_seq_properties;

/// Tasks that a fresh queue begins with: id, file, function, goal.
pub const REFACTOR_FIXTURES: [(&'static str, &'static str, &'static str, &'static str); 5] = [
    (
        "01_pop_i32_slot",
        "tools/a64-encoder/src/wasm_lower/stack.rs",
        "pop_i32_slot",
        "Refactor `pop_i32_slot` to return `Result<Reg, LowerError>` instead of panicking on stack underflow. 29 call sites across 8 files in the wasm_lower module — all callers need to handle the new Result.",
    ),
    (
        "02_maybe_bounds_check",
        "tools/a64-encoder/src/wasm_lower/memory.rs",
        "maybe_bounds_check",
        "Extract the elision-decision logic in `maybe_bounds_check` into a separate `BoundsCheckDecision` enum + helper, so call sites can match on intent rather than chase a boolean. 10 call sites across memory.rs + simd.rs.",
    ),
    (
        "03_alloc_pages",
        "kernel/src/memory/physical.rs",
        "alloc_pages",
        "The kernel buddy allocator's `alloc_pages` accepts an `order` (log2 page count). Add a `Layout`-style API alongside that takes raw byte size + alignment and computes order internally. 4 call sites all in physical.rs.",
    ),
    (
        "04_compile_module",
        "tools/a64-encoder/src/wasm_lower/module_lower.rs",
        "compile_module",
        "`compile_module` is the host-side WASM-to-AArch64 entry point. Add an explicit `CompileOptions` struct (currently positional args). 5 call sites across jit_cache + 3 example bins — examples must keep working.",
    ),
    (
        "05_push_dec",
        "kernel/src/net/tcp_shell.rs",
        "push_dec",
        "`push_dec` formats a u32 into a String for the kernel TCP shell. Refactor to use the kernel's existing `core::fmt::Write` machinery instead of manual digit pushing. 12 call sites all in tcp_shell.rs.",
    ),
];

pub const PROMPT_TASK: &'static str = "# Refactor task: ";

pub const PROMPT_GOAL: &'static str = "\n\n## Goal\n\n";

pub const PROMPT_TARGET: &'static str = "\n\n## Target\n\n- Function: `";

pub const PROMPT_FILE: &'static str = "`\n- File: `";

pub const PROMPT_TARGET_END: &'static str = "`\n\n";

pub const PROMPT_CALLERS: &'static str =
    "## Blast radius — callers from the static call-graph\n\n";

pub const PROMPT_CONSTRAINTS: &'static str =
    "## Constraints\n\n- Preserve the public signature of the target fn unless the goal explicitly authorizes changing it. If you must change it, list every caller you would need to update, file by file.\n- Don't introduce new external dependencies.\n- Match the existing surrounding style (no_std discipline, error types, lifetime patterns).\n- Output only the refactored function inside a single fenced ```rust block. No prose outside the block, no `// Before:`/`// After:` comments, no diff format.\n\n";

pub const PROMPT_SOURCE: &'static str = "## Original source\n\n```rust\n";

pub const PROMPT_END: &'static str = "```\n";

/// The outcome of one attempt.
#[derive(Debug, Clone, Copy, PartialEq, Eq, Structural)]
pub enum AttemptVerdict {
    Pass,
    FailCompile,
    FailCallerCompat,
    Skip,
}

/// The next task of the queue to attempt: the first, in order, that was never
/// attempted or failed fewer times than the limit.
pub fn pick_next_refactor_task(tasks: &[RefactorTask]) -> (r: Option<usize>)
    ensures
        match r {
            Some(i) => i < tasks@.len() && first_eligible(tasks@, 0) == Some(i as int),
            None => first_eligible(tasks@, 0) is None,
        },
{
    pick_eligible(tasks)
}

/// What is picked may be attempted, everything before it may not, and nothing
/// is picked only where nothing may be attempted.
pub proof fn pick_is_first(tasks: Seq<RefactorTask>, i: int)
    requires
        0 <= i,
    ensures
        match first_eligible(tasks, i) {
            Some(k) => i <= k < tasks.len() && eligible(tasks[k].last_status, tasks[k].attempts)
                && forall|j: int|
                i <= j < k ==> !eligible((#[trigger] tasks[j]).last_status, tasks[j].attempts),
            None => forall|j: int|
                i <= j < tasks.len() ==> !eligible(
                    (#[trigger] tasks[j]).last_status,
                    tasks[j].attempts,
                ),
        },
    decreases tasks.len() - i,
{
    if i < tasks.len() && !eligible(tasks[i].last_status, tasks[i].attempts) {
        pick_is_first(tasks, i + 1);
    }
}

/// The section on callers, where they are listed.
pub open spec fn callers_section(listed: bool, callers: Option<Seq<char>>) -> Seq<char> {
    match callers {
        Some(c) => if listed {
            PROMPT_CALLERS@ + c + "\n"@
        } else {
            ""@
        },
        None => ""@,
    }
}

/// The source with a newline at its end.
pub open spec fn with_newline(s: Seq<char>) -> Seq<char> {
    if s.len() > 0 && s.last() == '\n' {
        s
    } else {
        s.push('\n')
    }
}

/// The prompt for a queue task.
pub open spec fn refactor_prompt(
    task: RefactorTask,
    source: Seq<char>,
    listed: bool,
    callers: Option<Seq<char>>,
) -> Seq<char> {
    PROMPT_TASK@ + task.id@ + PROMPT_GOAL@ + trim(task.goal@) + PROMPT_TARGET@ + task.target_fn@
        + PROMPT_FILE@ + task.target_file@ + PROMPT_TARGET_END@ + callers_section(listed, callers)
        + PROMPT_CONSTRAINTS@ + PROMPT_SOURCE@ + with_newline(source) + PROMPT_END@
}

fn callers_text(listed: bool, callers: Option<&str>) -> (r: String)
    ensures
        r@ == callers_section(listed, crate::skill_prompt::opt_text(callers)),
{
    match callers {
        Some(c) => {
            if listed {
                let mut out = PROMPT_CALLERS.to_owned();
                out.push_str(c);
                out.push_str("\n");
                out
            } else {
                "".to_owned()
            }
        },
        None => "".to_owned(),
    }
}

fn source_text(source: &str) -> (r: String)
    ensures
        r@ == with_newline(source@),
{
    let v = to_chars(source);
    let mut out = source.to_owned();
    if v.len() == 0 || v[v.len() - 1] != '\n' {
        out.push('\n');
    }
    out
}

/// The prompt for a queue task. `codegraph` tells whether the model gets a list
/// of callers, and `callers` is what the call graph gave for the target, if
/// anything.
pub fn build_refactor_prompt(
    task: &RefactorTask,
    original_source: &str,
    codegraph: bool,
    callers: Option<&str>,
) -> (r: String)
    ensures
        r@ == refactor_prompt(
            *task,
            original_source@,
            codegraph,
            crate::skill_prompt::opt_text(callers),
        ),
{
    let goal = trimmed(task.goal.as_str());
    let section = callers_text(codegraph, callers);
    let source = source_text(original_source);
    let mut md = PROMPT_TASK.to_owned();
    md.push_str(task.id.as_str());
    md.push_str(PROMPT_GOAL);
    md.push_str(goal.as_str());
    md.push_str(PROMPT_TARGET);
    md.push_str(task.target_fn.as_str());
    md.push_str(PROMPT_FILE);
    md.push_str(task.target_file.as_str());
    md.push_str(PROMPT_TARGET_END);
    md.push_str(section.as_str());
    md.push_str(PROMPT_CONSTRAINTS);
    md.push_str(PROMPT_SOURCE);
    md.push_str(source.as_str());
    md.push_str(PROMPT_END);
    md
}

/// The status that a verdict leaves behind.
pub open spec fn status_after(verdict: AttemptVerdict) -> TaskStatus {
    match verdict {
        AttemptVerdict::Pass => TaskStatus::Pass,
        AttemptVerdict::FailCompile => TaskStatus::FailCompile,
        AttemptVerdict::FailCallerCompat => TaskStatus::FailCallerCompat,
        AttemptVerdict::Skip => TaskStatus::Skip,
    }
}

/// The attempt count after one more attempt.
pub open spec fn attempts_after(attempts: u32) -> u32 {
    if attempts < u32::MAX {
        (attempts + 1) as u32
    } else {
        u32::MAX
    }
}

/// Counts an attempt and notes its outcome.
pub fn record_attempt(task: &mut RefactorTask, verdict: AttemptVerdict)
    ensures
        *final(task) == (RefactorTask {
            attempts: attempts_after(old(task).attempts),
            last_status: status_after(verdict),
            ..*old(task)
        }),
{
    task.attempts = task.attempts.saturating_add(1);
    task.last_status =
    match verdict {
        AttemptVerdict::Pass => TaskStatus::Pass,
        AttemptVerdict::FailCompile => TaskStatus::FailCompile,
        AttemptVerdict::FailCallerCompat => TaskStatus::FailCallerCompat,
        AttemptVerdict::Skip => TaskStatus::Skip,
    };
}

/// A task is never attempted more than three times, and never again after a
/// pass or a skip.
pub proof fn attempts_run_out(attempts: u32, verdict: AttemptVerdict)
    ensures
        attempts_after(attempts) >= MAX_ATTEMPTS_PER_TASK || verdict == AttemptVerdict::Pass
            || verdict == AttemptVerdict::Skip ==> !eligible(
            status_after(verdict),
            attempts_after(attempts),
        ),
        attempts_after(attempts) < MAX_ATTEMPTS_PER_TASK && (verdict == AttemptVerdict::FailCompile
            || verdict == AttemptVerdict::FailCallerCompat) ==> eligible(
            status_after(verdict),
            attempts_after(attempts),
        ),
{
}

/// The request to the build checker: a line with the target, a line with the
/// source length, the source.
pub open spec fn check_request(target: Seq<char>, source: Seq<char>) -> Seq<u8> {
    encode_utf8("CARGO_CHECK "@) + encode_utf8(target) + seq![10u8] + dec_bytes(
        encode_utf8(source).len(),
    ) + seq![10u8] + encode_utf8(source)
}

pub fn build_cargo_check_request(target_file: &str, source: &str) -> (r: Vec<u8>)
    ensures
        r@ == check_request(target_file@, source@),
{
    let body = source.as_bytes();
    let mut req: Vec<u8> = Vec::new();
    extend_bytes(&mut req, "CARGO_CHECK ".as_bytes());
    extend_bytes(&mut req, target_file.as_bytes());
    req.push(10);
    push_dec_bytes(&mut req, body.len() as u64);
    req.push(10);
    extend_bytes(&mut req, body);
    assert(req@ =~= check_request(target_file@, source@));
    req
}

/// The status and the announced length at the front of a reply.
pub fn parse_cargo_check_header(reply: &[u8]) -> (r: Option<(u32, u32)>)
    ensures
        match r {
            Some((status, len)) => reply@.len() >= 8 && status == le32(reply@, 0) && len == le32(
                reply@,
                4,
            ),
            None => reply@.len() < 8,
        },
{
    if reply.len() < 8 {
        return None;
    }
    Some((read_le32(reply, 0), read_le32(reply, 4)))
}

/// A reply header reads back as it was written, whatever follows it.
pub proof fn reply_header_reads_back(status: u32, len: u32, rest: Seq<u8>)
    ensures
        ({
            let reply = le32_bytes(status) + le32_bytes(len) + rest;
            reply.len() >= 8 && le32(reply, 0) == status && le32(reply, 4) == len
        }),
{
    let reply = le32_bytes(status) + le32_bytes(len) + rest;
    assert(reply.subrange(0, 4) =~= le32_bytes(status));
    assert(reply.subrange(4, 8) =~= le32_bytes(len));
    le32_round_trip(reply, 0, status);
    le32_round_trip(reply, 4, len);
}

/// The verdict for a status of the build checker: anything but a pass or a
/// failed build is no fault of the attempt.
pub fn verdict_from_cargo_check_status(status: u32) -> (r: AttemptVerdict)
    ensures
        r == (if status == 0 {
            AttemptVerdict::Pass
        } else if status == 1 {
            AttemptVerdict::FailCompile
        } else {
            AttemptVerdict::Skip
        }),
{
    if status == 0 {
        AttemptVerdict::Pass
    } else if status == 1 {
        AttemptVerdict::FailCompile
    } else {
        AttemptVerdict::Skip
    }
}

/// What a prompt says, in order: the task, the goal, the function and its file,
/// the callers where they are listed, the constraints, and the source, with a
/// newline at its end, in a fence.
pub proof fn prompts_tell_the_task(
    task: RefactorTask,
    source: Seq<char>,
    callers: Seq<char>,
    listed: bool,
)
    ensures
        callers_section(true, Some(callers)) == PROMPT_CALLERS@ + callers + "\n"@,
        callers_section(false, Some(callers)).len() == 0,
        callers_section(listed, None).len() == 0,
        with_newline(source.push('\n')) == source.push('\n'),
        source.len() > 0 && source.last() != '\n' ==> with_newline(source) == source.push('\n'),
        refactor_prompt(task, source, true, Some(callers)) == "# Refactor task: "@ + task.id@
            + "\n\n## Goal\n\n"@ + trim(task.goal@) + "\n\n## Target\n\n- Function: `"@
            + task.target_fn@ + "`\n- File: `"@ + task.target_file@ + "`\n\n"@ + callers_section(
            true,
            Some(callers),
        ) + PROMPT_CONSTRAINTS@ + "## Original source\n\n```rust\n"@ + with_newline(source)
            + "```\n"@,
{
    reveal_strlit("");
}

/// What an attempt leaves behind: one attempt more, and a status of its own for
/// each outcome.
pub proof fn attempts_leave_a_status(attempts: u32)
    ensures
        status_after(AttemptVerdict::Pass) == TaskStatus::Pass,
        status_after(AttemptVerdict::FailCompile) == TaskStatus::FailCompile,
        status_after(AttemptVerdict::FailCallerCompat) == TaskStatus::FailCallerCompat,
        status_after(AttemptVerdict::Skip) == TaskStatus::Skip,
        attempts < u32::MAX ==> attempts_after(attempts) == attempts + 1,
        attempts == u32::MAX ==> attempts_after(attempts) == attempts,
{
}

/// A task that failed twice may be attempted once more, and not a fourth time.
pub proof fn three_attempts_at_most(attempts: u32)
    ensures
        eligible(status_after(AttemptVerdict::FailCompile), attempts_after(attempts)) <==> attempts
            < 2,
        eligible(status_after(AttemptVerdict::FailCallerCompat), attempts_after(attempts))
            <==> attempts < 2,
        !eligible(status_after(AttemptVerdict::Pass), attempts_after(attempts)),
        !eligible(status_after(AttemptVerdict::Skip), attempts_after(attempts)),
{
}

/// A request to the build checker: the word for it and the file on one line,
/// the number of bytes on the next, and then the bytes.
pub proof fn check_requests_are_laid_out(target: Seq<char>, source: Seq<char>)
    ensures
        check_request(target, source) == encode_utf8("CARGO_CHECK "@) + encode_utf8(target) + seq![
            10u8,
        ] + dec_bytes(encode_utf8(source).len()) + seq![10u8] + encode_utf8(source),
        encode_utf8(source).is_suffix_of(check_request(target, source)),
{
    let r = check_request(target, source);
    let s = encode_utf8(source);
    assert(r.subrange(r.len() - s.len(), r.len() as int) =~= s);
}

} // verus!

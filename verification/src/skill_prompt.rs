//! Skill tree tasks, the prompts for them, and the code in a reply.
use vstd::prelude::*;
use vstd::string::*;
use vstd::utf8::encode_utf8;

use crate::chars::{
    chars_to_string, find_at, find_at_is_first, find_at_none, find_chars, find_end, find_start,
    lemma_trim_range, stands_at, to_chars, trim, trimmed,
};
use crate::text::{clip, clipped, dec_chars, push_dec};

verus! {

broadcast use vstd::seq_lib::group_seq_properties;

/// The tasks of the skill tree: a short name and what to write.
pub const REFACTOR_TASKS: [(&'static str, &'static str); 20] = [
    (
        "fib_iter",
        "an iterative Fibonacci function named `fib` that takes a `u32` and returns a `u64`",
    ),
    (
        "factorial",
        "a function named `factorial` that takes a `u32` and returns the factorial as a `u64`",
    ),
    (
        "gcd",
        "a function named `gcd` that takes two `u64` arguments and returns their greatest common divisor using Euclid's algorithm",
    ),
    (
        "is_prime",
        "a function named `is_prime` that takes a `u64` and returns `true` if it is prime, `false` otherwise",
    ),
    (
        "reverse_u32",
        "a function named `reverse_u32` that takes a `u32` and returns the bit-reversed value",
    ),
    (
        "popcount",
        "a function named `popcount` that takes a `u64` and returns the number of `1` bits, computed manually without the builtin",
    ),
    (
        "clamp",
        "a function named `clamp` that takes three `i32` arguments (value, lo, hi) and returns the value clamped to [lo, hi]",
    ),
    (
        "abs_i64",
        "a function named `abs_i64` that takes an `i64` and returns its absolute value as `u64` without using `.abs()`",
    ),
    (
        "max_of_three",
        "a function named `max_of_three` that takes three `i32` and returns the largest",
    ),
    (
        "is_power_of_two",
        "a function named `is_power_of_two` that takes a `u64` and returns `true` iff it is a power of two",
    ),
    (
        "square_sum",
        "a function named `square_sum` that takes a `u32` and returns `1^2 + 2^2 + ... + n^2` as a `u64`",
    ),
    (
        "triangular",
        "a function named `triangular` that takes a `u32` and returns the n-th triangular number as a `u64`",
    ),
    (
        "is_leap",
        "a function named `is_leap` that takes a `u32` year and returns `true` iff it is a Gregorian leap year",
    ),
    (
        "digit_sum",
        "a function named `digit_sum` that takes a `u64` and returns the sum of its base-10 digits as `u64`",
    ),
    (
        "reverse_digits",
        "a function named `reverse_digits` that takes a `u64` and returns the number with its base-10 digits reversed",
    ),
    (
        "count_trailing_zeros",
        "a function named `count_trailing_zeros` that takes a `u64` and returns the number of trailing zero bits, manually (no builtin)",
    ),
    (
        "collatz_steps",
        "a function named `collatz_steps` that takes a `u64` and returns the number of Collatz steps to reach 1",
    ),
    (
        "min_of_array",
        "a function named `min_of_array` that takes `arr: &[i32]` and returns the minimum as `Option<i32>` (None for empty)",
    ),
    (
        "sum_of_array",
        "a function named `sum_of_array` that takes `arr: &[i64]` and returns the sum as `i64`",
    ),
    (
        "binary_search",
        "a function named `binary_search` that takes a sorted `arr: &[i32]` and a `target: i32` and returns `Option<usize>` of the index if found",
    ),
];

/// The bytes of a compiler error that a retry prompt carries.
pub const RETRY_ERROR_CAP: usize = 1024;

/// The bytes of an earlier error that a prompt carries.
pub const MEMORY_ERROR_CAP: usize = 512;

pub const WRITE: &'static str = "Write ";

pub const FIXER_RULES: &'static str =
    ". Respond with ONLY the code inside a ```rust fenced block. No explanation, no imports, no `fn main`, no attributes. The function must compile standalone as part of a lib.rs in a fresh Rust crate.";

pub const TDD_RULES: &'static str =
    ". Also include a `#[cfg(test)] mod tests` block with at least 3 test functions that verify correctness using `assert_eq!`. Include edge cases (zero, boundary values, large inputs). Respond with ONLY the code inside a ```rust fenced block. No explanation, no `fn main`. Everything must compile as lib.rs in a fresh Rust crate.";

pub const EVOLUTION_HEAD: &'static str =
    "You are a Rust optimization expert. Here is an existing function you wrote earlier:\n```rust\n";

pub const NO_PRIOR_CODE: &'static str = "// (no prior code available — write from scratch)";

pub const EVOLUTION_TASK: &'static str =
    "\n```\nTask: Write an optimized version named `";

pub const EVOLUTION_RULES: &'static str =
    "_fast` that produces identical results but is more efficient (fewer branches, SIMD-friendly, or uses a closed-form formula). Include BOTH the original function and the optimized one, plus a `#[cfg(test)] mod tests` with at least 3 tests that verify both functions return the same results for the same inputs. Respond with ONLY the code in a ```rust fenced block. Must compile as lib.rs.";

pub const PLAIN_RULES: &'static str = ". Respond with ONLY the code in a ```rust block.";

pub const RETRY_HEAD: &'static str =
    "You are an expert Rust developer. Your previous code failed compilation. Fix ONLY the errors — do not change the logic.\n\n[YOUR PREVIOUS CODE]\n```rust\n";

pub const RETRY_ERROR: &'static str = "\n```\n\n[COMPILER ERROR]\n```\n";

pub const RETRY_RULES: &'static str =
    "\n```\n\nRespond with the FIXED code in a ```rust fenced block. No explanation.";

pub const MEMORY_HEAD: &'static str =
    "\n\nIMPORTANT: A previous attempt failed with:\n```\n";

pub const MEMORY_END: &'static str = "\n```\nAvoid this mistake.";

/// The prompt of the small self-test.
pub const SELF_TEST_PROMPT: &'static str =
    "Write a complete, standalone Rust function named `fib` that takes a `u32` argument and returns the `n`th Fibonacci number as a `u64`. Use iteration, not recursion. Respond with ONLY the code inside a ```rust fenced block. Do NOT include any explanation, no imports, no `fn main`, no attributes — just the single `fib` function.";

pub open spec fn level_title(level: u8) -> Seq<char> {
    if level == 1 {
        "The Fixer"@
    } else if level == 2 {
        "TDD"@
    } else if level == 3 {
        "Evolution"@
    } else if level == 4 {
        "OS Integration"@
    } else if level == 5 {
        "Hardware"@
    } else {
        "???"@
    }
}

/// The name of a level.
pub fn level_name(level: u8) -> (r: &'static str)
    ensures
        r@ == level_title(level),
{
    if level == 1 {
        "The Fixer"
    } else if level == 2 {
        "TDD"
    } else if level == 3 {
        "Evolution"
    } else if level == 4 {
        "OS Integration"
    } else if level == 5 {
        "Hardware"
    } else {
        "???"
    }
}

/// The prompt for a task at a level. `prior` is the code of the first level.
pub open spec fn level_prompt(
    level: u8,
    id: Seq<char>,
    desc: Seq<char>,
    prior: Option<Seq<char>>,
) -> Seq<char> {
    if level == 1 {
        WRITE@ + desc + FIXER_RULES@
    } else if level == 2 {
        WRITE@ + desc + TDD_RULES@
    } else if level == 3 {
        EVOLUTION_HEAD@ + (match prior {
            Some(code) => code,
            None => NO_PRIOR_CODE@,
        }) + EVOLUTION_TASK@ + id + EVOLUTION_RULES@
    } else {
        WRITE@ + desc + PLAIN_RULES@
    }
}

/// The text of an optional slice.
pub open spec fn opt_text(s: Option<&str>) -> Option<Seq<char>> {
    match s {
        Some(t) => Some(t@),
        None => None,
    }
}

pub fn build_level_prompt(
    level: u8,
    task_id: &str,
    task_desc: &str,
    prior_code: Option<&str>,
) -> (r: String)
    ensures
        r@ == level_prompt(level, task_id@, task_desc@, opt_text(prior_code)),
{
    if level == 3 {
        let mut p = EVOLUTION_HEAD.to_owned();
        match prior_code {
            Some(code) => {
                p.push_str(code);
            },
            None => {
                p.push_str(NO_PRIOR_CODE);
            },
        }
        p.push_str(EVOLUTION_TASK);
        p.push_str(task_id);
        p.push_str(EVOLUTION_RULES);
        return p;
    }
    let mut p = WRITE.to_owned();
    p.push_str(task_desc);
    if level == 1 {
        p.push_str(FIXER_RULES);
    } else if level == 2 {
        p.push_str(TDD_RULES);
    } else {
        p.push_str(PLAIN_RULES);
    }
    p
}

/// The prompt after a failed build: the code and as much of the error as fits.
pub open spec fn retry_prompt(code: Seq<char>, error: Seq<char>) -> Seq<char> {
    RETRY_HEAD@ + code + RETRY_ERROR@ + clip(error, RETRY_ERROR_CAP as int) + RETRY_RULES@
}

pub fn build_retry_prompt(failed_code: &str, compiler_error: &str) -> (r: String)
    ensures
        r@ == retry_prompt(failed_code@, compiler_error@),
{
    let error = clipped(compiler_error, RETRY_ERROR_CAP);
    let mut p = RETRY_HEAD.to_owned();
    p.push_str(failed_code);
    p.push_str(RETRY_ERROR);
    p.push_str(error.as_str());
    p.push_str(RETRY_RULES);
    p
}

/// What a prompt says about an earlier error.
pub open spec fn error_memory(error: Option<Seq<char>>) -> Seq<char> {
    match error {
        Some(e) => MEMORY_HEAD@ + clip(e, MEMORY_ERROR_CAP as int) + MEMORY_END@,
        None => ""@,
    }
}

pub fn build_error_memory(error: Option<&str>) -> (r: String)
    ensures
        r@ == error_memory(opt_text(error)),
{
    match error {
        Some(e) => {
            let kept = clipped(e, MEMORY_ERROR_CAP);
            let mut p = MEMORY_HEAD.to_owned();
            p.push_str(kept.as_str());
            p.push_str(MEMORY_END);
            p
        },
        None => "".to_owned(),
    }
}

/// The label of a task at a level.
pub fn task_label(task_id: &str, level: u8) -> (r: String)
    ensures
        r@ == task_id@ + " L"@ + dec_chars(level as nat),
{
    let mut label = task_id.to_owned();
    label.push_str(" L");
    push_decimal(&mut label, level as u32);
    label
}

/// Appends a number in decimal.
pub fn push_decimal(out: &mut String, v: u32)
    ensures
        final(out)@ == old(out)@ + dec_chars(v as nat),
{
    push_dec(out, v as u64);
}

/// The body of a fenced block whose fence ends at `from`: from the next line
/// to the closing fence, without white space around it. Without a newline the
/// body begins at once, without a closing fence it goes to the end.
pub open spec fn block_body(raw: Seq<char>, from: int) -> Seq<char> {
    let a = match find_at(raw, "\n"@, from) {
        Some(i) => i + 1,
        None => from,
    };
    let b = match find_at(raw, "```"@, a) {
        Some(i) => i,
        None => raw.len() as int,
    };
    trim(raw.subrange(a, b))
}

/// The code in a reply: the first block marked as Rust, else the first block,
/// else everything.
pub open spec fn code_block(raw: Seq<char>) -> Seq<char> {
    match find_at(raw, "```rust"@, 0) {
        Some(p) => block_body(raw, p + 7),
        None => match find_at(raw, "```"@, 0) {
            Some(p) => block_body(raw, p + 3),
            None => trim(raw),
        },
    }
}

/// The first mark of a block is found behind a text without one.
pub(crate) proof fn lemma_first_mark(before: Seq<char>, rest: Seq<char>)
    requires
        forall|j: int| !stands_at(before, "```rust"@, j),
    ensures
        find_at(before + "```rust"@ + rest, "```rust"@, 0) == Some(before.len() as int),
{
    reveal_strlit("```rust");
    let mark = "```rust"@;
    let b = before.len() as int;
    let raw = before + mark + rest;
    assert(raw.subrange(b, b + 7) =~= mark);
    assert(stands_at(raw, mark, b));
    assert forall|j: int| 0 <= j < b implies !#[trigger] stands_at(raw, mark, j) by {
        if stands_at(raw, mark, j) {
            let v = raw.subrange(j, j + 7);
            if j + 7 <= b {
                assert(before.subrange(j, j + 7) =~= v);
                assert(stands_at(before, mark, j));
            } else {
                let o = j + 6 - b;
                assert(v[6] == mark[6]);
                assert(raw[j + 6] == mark[o]);
            }
        }
    }
    find_at_is_first(raw, mark, 0, b);
}

/// The first line end is found behind a text on one line.
pub(crate) proof fn lemma_first_newline(head: Seq<char>, info: Seq<char>, rest: Seq<char>)
    requires
        !info.contains('\n'),
    ensures
        find_at(head + info + "\n"@ + rest, "\n"@, head.len() as int) == Some(
            (head.len() + info.len()) as int,
        ),
{
    reveal_strlit("\n");
    let newline = "\n"@;
    let raw = head + info + newline + rest;
    let from = head.len() as int;
    let k = from + info.len();
    assert(raw.subrange(k, k + 1) =~= newline);
    assert(stands_at(raw, newline, k));
    assert forall|j: int| from <= j < k implies !#[trigger] stands_at(raw, newline, j) by {
        assert(info.contains(info[j - from]));
        assert(raw.subrange(j, j + 1)[0] == info[j - from]);
    }
    find_at_is_first(raw, newline, from, k);
}

/// The body behind a fence: the rest of its line, the code, a closing fence and
/// anything else.
#[verifier::rlimit(40)]
proof fn lemma_block_body(head: Seq<char>, info: Seq<char>, code: Seq<char>, after: Seq<char>)
    requires
        !info.contains('\n'),
        forall|j: int| !stands_at(code, "```"@, j),
        code.len() == 0 || code.last() != '`',
    ensures
        block_body(head + info + "\n"@ + (code + "```"@ + after), head.len() as int) == trim(code),
{
    reveal_strlit("```");
    reveal_strlit("\n");
    let fence = "```"@;
    let raw = head + info + "\n"@ + (code + fence + after);
    let n = code.len() as int;
    let a = head.len() as int + info.len() + 1;
    lemma_first_newline(head, info, code + fence + after);
    assert(raw.subrange(a + n, a + n + 3) =~= fence);
    assert(stands_at(raw, fence, a + n));
    assert forall|j: int| a <= j < a + n implies !#[trigger] stands_at(raw, fence, j) by {
        if stands_at(raw, fence, j) {
            let v = raw.subrange(j, j + 3);
            if j + 3 <= a + n {
                assert(code.subrange(j - a, j - a + 3) =~= v);
                assert(stands_at(code, fence, j - a));
            } else {
                let k = a + n - 1 - j;
                assert(v[k] == raw[a + n - 1]);
                assert(raw[a + n - 1] == code.last());
                assert(fence[k] == '`');
            }
        }
    }
    find_at_is_first(raw, fence, a, a + n);
    assert(raw.subrange(a, a + n) =~= code);
}

/// Code that is fenced as Rust in a reply comes back without white space at its
/// ends, whatever stands around the fence and behind the mark on its line. Only
/// the code holds no fence itself and does not run into the closing one, and no
/// earlier block is marked as Rust.
#[verifier::rlimit(40)]
pub proof fn fenced_code_comes_back(
    before: Seq<char>,
    info: Seq<char>,
    code: Seq<char>,
    after: Seq<char>,
)
    requires
        forall|j: int| !stands_at(before, "```rust"@, j),
        !info.contains('\n'),
        forall|j: int| !stands_at(code, "```"@, j),
        code.len() == 0 || code.last() != '`',
    ensures
        code_block(before + "```rust"@ + info + "\n"@ + code + "```"@ + after) == trim(code),
{
    reveal_strlit("```rust");
    let mark = "```rust"@;
    let raw = before + mark + info + "\n"@ + code + "```"@ + after;
    assert(raw =~= before + mark + (info + "\n"@ + code + "```"@ + after));
    lemma_first_mark(before, info + "\n"@ + code + "```"@ + after);
    assert(raw =~= before + mark + info + "\n"@ + (code + "```"@ + after));
    lemma_block_body(before + mark, info, code, after);
}

/// Where no block is marked as Rust, the first block comes back in the same way.
#[verifier::rlimit(40)]
pub proof fn plain_fence_comes_back(
    before: Seq<char>,
    info: Seq<char>,
    code: Seq<char>,
    after: Seq<char>,
)
    requires
        forall|j: int|
            !stands_at(
                before + "```"@ + info + "\n"@ + code + "```"@ + after,
                "```rust"@,
                j,
            ),
        forall|j: int| j < before.len() ==> !stands_at(before + "```"@, "```"@, j),
        !info.contains('\n'),
        forall|j: int| !stands_at(code, "```"@, j),
        code.len() == 0 || code.last() != '`',
    ensures
        code_block(before + "```"@ + info + "\n"@ + code + "```"@ + after) == trim(code),
{
    reveal_strlit("```rust");
    reveal_strlit("```");
    let fence = "```"@;
    let b = before.len() as int;
    let raw = before + fence + info + "\n"@ + code + fence + after;
    find_at_none(raw, "```rust"@, 0);
    assert(raw.subrange(b, b + 3) =~= fence);
    assert(stands_at(raw, fence, b));
    assert forall|j: int| 0 <= j < b implies !#[trigger] stands_at(raw, fence, j) by {
        if stands_at(raw, fence, j) {
            assert((before + fence).subrange(j, j + 3) =~= raw.subrange(j, j + 3));
            assert(stands_at(before + fence, fence, j));
        }
    }
    find_at_is_first(raw, fence, 0, b);
    assert(raw =~= before + fence + info + "\n"@ + (code + fence + after));
    lemma_block_body(before + fence, info, code, after);
}

/// A block that is marked as Rust and not closed goes to the end of the reply.
pub proof fn open_fence_goes_to_the_end(before: Seq<char>, info: Seq<char>, code: Seq<char>)
    requires
        forall|j: int| !stands_at(before, "```rust"@, j),
        !info.contains('\n'),
        forall|j: int| !stands_at(code, "```"@, j),
    ensures
        code_block(before + "```rust"@ + info + "\n"@ + code) == trim(code),
{
    reveal_strlit("```rust");
    reveal_strlit("```");
    reveal_strlit("\n");
    let mark = "```rust"@;
    let raw = before + mark + info + "\n"@ + code;
    let a = before.len() as int + 7 + info.len() + 1;
    assert(raw =~= before + mark + (info + "\n"@ + code));
    lemma_first_mark(before, info + "\n"@ + code);
    lemma_first_newline(before + mark, info, code);
    assert forall|j: int| a <= j <= raw.len() implies !#[trigger] stands_at(raw, "```"@, j) by {
        if stands_at(raw, "```"@, j) {
            assert(code.subrange(j - a, j - a + 3) =~= raw.subrange(j, j + 3));
            assert(stands_at(code, "```"@, j - a));
        }
    }
    find_at_none(raw, "```"@, a);
    assert(raw.subrange(a, raw.len() as int) =~= code);
}

/// A reply without a fence is code from end to end.
pub proof fn bare_code_comes_back(raw: Seq<char>)
    requires
        forall|j: int| !stands_at(raw, "```"@, j),
    ensures
        code_block(raw) == trim(raw),
{
    reveal_strlit("```rust");
    reveal_strlit("```");
    assert forall|j: int| 0 <= j <= raw.len() implies !#[trigger] stands_at(raw, "```rust"@, j) by {
        if stands_at(raw, "```rust"@, j) {
            let v = raw.subrange(j, j + 7);
            assert(raw.subrange(j, j + 3) =~= v.subrange(0, 3));
            assert(v.subrange(0, 3) =~= "```"@);
            assert(stands_at(raw, "```"@, j));
        }
    }
    find_at_none(raw, "```rust"@, 0);
    find_at_none(raw, "```"@, 0);
}

fn body_text(v: &[char], from: usize) -> (r: String)
    requires
        from <= v.len(),
    ensures
        r@ == block_body(v@, from as int),
{
    let newline = to_chars("\n");
    let fence = to_chars("```");
    proof {
        reveal_strlit("\n");
    }
    let a: usize = match find_chars(v, newline.as_slice(), from) {
        Some(i) => i + 1,
        None => from,
    };
    let b: usize = match find_chars(v, fence.as_slice(), a) {
        Some(i) => i,
        None => v.len(),
    };
    proof {
        lemma_trim_range(v@, a as int, b as int);
    }
    let x: usize = find_start(v, a, b);
    let y: usize = find_end(v, x, b);
    chars_to_string(v, x, y)
}

/// The code in a reply.
pub fn extract_rust_code_block(raw: &str) -> (r: String)
    ensures
        r@ == code_block(raw@),
{
    let v = to_chars(raw);
    let marked = to_chars("```rust");
    let fence = to_chars("```");
    proof {
        reveal_strlit("```rust");
        reveal_strlit("```");
        assert(marked@.len() == 7 && fence@.len() == 3);
        assert(v@.len() == v.len());
    }
    match find_chars(v.as_slice(), marked.as_slice(), 0) {
        Some(p) => body_text(v.as_slice(), p + 7),
        None => match find_chars(v.as_slice(), fence.as_slice(), 0) {
            Some(p) => body_text(v.as_slice(), p + 3),
            None => trimmed(raw),
        },
    }
}

/// What a prompt for a task asks for: on the first two levels and above the
/// third the description of the task; on the third the code of the first level
/// and a fast version under the name of the task.
pub proof fn levels_ask(id: Seq<char>, desc: Seq<char>, prior: Seq<char>, level: u8)
    ensures
        level_prompt(1, id, desc, None) == "Write "@ + desc + FIXER_RULES@,
        level_prompt(2, id, desc, None) == "Write "@ + desc + TDD_RULES@,
        level_prompt(3, id, desc, Some(prior)) == EVOLUTION_HEAD@ + prior + EVOLUTION_TASK@ + id
            + EVOLUTION_RULES@,
        level_prompt(3, id, desc, None) == EVOLUTION_HEAD@ + NO_PRIOR_CODE@ + EVOLUTION_TASK@ + id
            + EVOLUTION_RULES@,
        level == 0 || level > 3 ==> level_prompt(level, id, desc, None) == "Write "@ + desc
            + PLAIN_RULES@,
        level_title(1) == "The Fixer"@,
        level_title(2) == "TDD"@,
        level_title(3) == "Evolution"@,
        level_title(4) == "OS Integration"@,
        level_title(5) == "Hardware"@,
        level == 0 || level > 5 ==> level_title(level) == "???"@,
{
}

/// A prompt after a failure holds the failed code, and of the error whole
/// characters up to the limit; a short error stands there whole.
pub proof fn retries_tell_the_error(code: Seq<char>, error: Seq<char>)
    ensures
        encode_utf8(error).len() <= 1024 ==> retry_prompt(code, error) == RETRY_HEAD@ + code
            + RETRY_ERROR@ + error + RETRY_RULES@,
        retry_prompt(code, error) == RETRY_HEAD@ + code + RETRY_ERROR@ + clip(error, 1024)
            + RETRY_RULES@,
        encode_utf8(error).len() <= 512 ==> error_memory(Some(error)) == MEMORY_HEAD@ + error
            + MEMORY_END@,
        error_memory(Some(error)) == MEMORY_HEAD@ + clip(error, 512) + MEMORY_END@,
        error_memory(None).len() == 0,
{
    reveal_strlit("");
    if encode_utf8(error).len() <= 1024 {
        crate::text::clip_keeps(error, 1024);
    }
    if encode_utf8(error).len() <= 512 {
        crate::text::clip_keeps(error, 512);
    }
}

} // verus!

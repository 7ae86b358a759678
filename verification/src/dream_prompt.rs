//! Prompts for dreams, over source code without blank lines and comments other
//! than doc comments.
use vstd::prelude::*;
use vstd::string::*;

use crate::chars::{
    chars_at, find_at, find_chars, find_end, find_start, found_place_is_first, lemma_trim_range,
    line_at, lines_from, push_chars, stands_at, to_chars, trim, trim_end, trim_is_trimmed,
};
use crate::draug::{DraugDaemon, DreamMode};
use crate::dream::hash_of;
use crate::friction::{score_from, FRICTION_THRESHOLD};

verus! {

broadcast use vstd::seq_lib::group_seq_properties;

pub const CONTEXT_APP: &'static str = "APP: '";

pub const CONTEXT_PURPOSE: &'static str =
    "'\nPURPOSE: This app was created by the command 'gemini generate ";

pub const CONTEXT_END: &'static str =
    "'. It should continue to fulfill this purpose after your modifications.\n";

pub const CODE_OPEN: &'static str = "\nCurrent code:\n```rust\n";

pub const CODE_CLOSE: &'static str = "\n```\n\n";

pub const FRUSTRATION_NOTE: &'static str =
    "\n\nUSER FRUSTRATION DETECTED: The user is frustrated with this app. Focus on usability: clearer layout, better visual feedback, more intuitive interaction, smoother animations.";

pub const REFACTOR_HEAD: &'static str =
    "You are Draug, optimizing WASM apps for Folkering OS.\n\n";

pub const REFACTOR_RULES: &'static str =
    "REFACTOR RULES:\n- ONLY reduce CPU cycles. Do NOT add features.\n- Do NOT change the visual output — it must look identical.\n- Pre-compute constants, use integer math, remove redundancy.\n- Do NOT remove safety checks.\n- Return ONLY the improved Rust code.";

pub const CREATIVE_HEAD: &'static str =
    "You are Draug, the creative daemon of Folkering OS.\n\n";

pub const CREATIVE_OUTPUT: &'static str = "Current visual output:\n";

pub const CREATIVE_RULES: &'static str =
    "\n\nCREATIVE RULES:\n- Add ONE meaningful visual improvement.\n- Good: smoother animation, better colors, text labels, layout polish.\n- Bad: changing the app's purpose, removing functionality.\n- Use Folkering palette: bg=0x001a1a2e, blue=0x003498db, green=0x0044FF44.\n- Keep it under 2KB compiled WASM.\n- Return ONLY the improved Rust code.";

pub const NIGHTMARE_HEAD: &'static str =
    "You are Draug in Nightmare mode — the immune system of Folkering OS.\n\n";

pub const NIGHTMARE_RULES: &'static str =
    "NIGHTMARE RULES:\n- HARDEN the code. Do NOT change behavior.\n- What if screen_width=0 or screen_height=0? Add .max(1) before division.\n- What if folk_random() returns i32::MIN? Use .wrapping_abs() or .clamp().\n- What if coordinates overflow? Use .clamp(0, width) for bounds.\n- Use saturating_add/sub instead of +/- where overflow is possible.\n- Return ONLY the hardened Rust code.";

pub const DRIVER_REFACTOR_HEAD: &'static str =
    "You are Draug, optimizing a WASM device driver for Folkering OS.\n\nDRIVER: ";

pub const DRIVER_REFACTOR_RULES: &'static str =
    "DRIVER REFACTOR RULES:\n- ONLY reduce fuel consumption. Do NOT change functionality.\n- The IRQ wait loop structure (folk_wait_irq/folk_ack_irq) MUST be preserved.\n- Device initialization sequence MUST be identical.\n- Pre-compute register offsets as constants.\n- Combine redundant MMIO reads.\n- Use bitwise ops instead of branches where possible.\n- #![no_std] #![no_main] #![allow(unused)] — no allocation.\n- Return ONLY the improved Rust code.";

pub const DRIVER_NIGHTMARE_HEAD: &'static str =
    "You are Draug in Driver Nightmare mode — hardening a WASM device driver.\n\nDRIVER: ";

pub const DRIVER_NIGHTMARE_RULES: &'static str =
    "DRIVER NIGHTMARE RULES:\n- HARDEN the driver. Do NOT change its purpose.\n- What if folk_mmio_read_u32 returns -1 (SFI violation)? Check for it.\n- What if IRQs fire faster than the handler can process? Add overflow guards.\n- What if folk_dma_alloc returns -1? Handle allocation failure.\n- Use saturating_add for all counters.\n- Add folk_log debug output for unexpected register values.\n- #![no_std] #![no_main] #![allow(unused)] — no allocation.\n- Return ONLY the hardened Rust code.";

/// How many double quotes stand in the text.
pub open spec fn quotes(s: Seq<char>) -> int
    decreases s.len(),
{
    if s.len() == 0 {
        0
    } else {
        quotes(s.drop_last()) + (if s.last() == '"' {
            1int
        } else {
            0
        })
    }
}

/// What is left of a line: no white space at its ends, and nothing from the
/// first `//` on, unless an odd number of quotes stands before it. A doc comment
/// stays.
pub open spec fn code_of(line: Seq<char>) -> Seq<char> {
    let t = trim(line);
    if stands_at(t, "///"@, 0) {
        t
    } else {
        match find_at(t, "//"@, 0) {
            Some(p) => if quotes(t.subrange(0, p)) % 2 == 0 {
                trim_end(t.subrange(0, p))
            } else {
                t
            },
            None => t,
        }
    }
}

/// The lines that still hold something, each with a newline.
pub open spec fn compressed(lines: Seq<Seq<char>>) -> Seq<char>
    decreases lines.len(),
{
    if lines.len() == 0 {
        Seq::empty()
    } else {
        let code = code_of(lines[0]);
        (if code.len() == 0 {
            Seq::empty()
        } else {
            code.push('\n')
        }) + compressed(lines.subrange(1, lines.len() as int))
    }
}

/// Source code for a prompt.
pub open spec fn compressed_source(src: Seq<char>) -> Seq<char> {
    compressed(lines_from(src, 0))
}

fn count_quotes(v: &[char]) -> (r: usize)
    ensures
        r == quotes(v@),
{
    let mut n: usize = 0;
    let mut i: usize = 0;
    while i < v.len()
        invariant
            n <= i <= v.len(),
            n == quotes(v@.subrange(0, i as int)),
        decreases v.len() - i,
    {
        if v[i] == '"' {
            n = n + 1;
        }
        i = i + 1;
        assert(v@.subrange(0, i as int).drop_last() =~= v@.subrange(0, i - 1));
    }
    assert(v@.subrange(0, i as int) =~= v@);
    n
}

/// The end of the code in a trimmed line.
fn code_end(t: &[char]) -> (r: usize)
    requires
        trim(t@) == t@,
    ensures
        r <= t.len(),
        t@.subrange(0, r as int) == code_of(t@),
{
    let doc = to_chars("///");
    if chars_at(t, &doc, 0) {
        assert(t@.subrange(0, t@.len() as int) =~= t@);
        return t.len();
    }
    let slashes = to_chars("//");
    match find_chars(t, &slashes, 0) {
        Some(p) => {
            let before = &t[0..p];
            if count_quotes(before) % 2 == 0 {
                let e: usize = find_end(before, 0, before.len());
                assert(t@.subrange(0, e as int) =~= trim_end(before@));
                e
            } else {
                assert(t@.subrange(0, t@.len() as int) =~= t@);
                t.len()
            }
        },
        None => {
            assert(t@.subrange(0, t@.len() as int) =~= t@);
            t.len()
        },
    }
}

/// Source code without comments, blank lines and white space at line ends. Doc
/// comments stay.
pub fn compress_source(src: &str) -> (r: String)
    ensures
        r@ == compressed_source(src@),
{
    let v = to_chars(src);
    let all = v.as_slice();
    let mut out = String::new();
    let mut at: usize = 0;
    while at < all.len()
        invariant
            at <= all.len(),
            all@ == src@,
            out@ + compressed(lines_from(src@, at as int)) == compressed_source(src@),
        decreases all.len() - at,
    {
        let line = line_at(all, at);
        let a: usize = find_start(all, at, line.to);
        let b: usize = find_end(all, a, line.to);
        let t = &all[a..b];
        proof {
            lemma_trim_range(src@, at as int, line.to as int);
            trim_is_trimmed(src@.subrange(at as int, line.to as int));
        }
        let e: usize = code_end(t);
        let ghost before = out@;
        let ghost rest = lines_from(src@, line.next as int);
        let ghost code = t@.subrange(0, e as int);
        if e > 0 {
            push_chars(&mut out, t, 0, e);
            out.push('\n');
            assert(out@ =~= before + code.push('\n'));
        }
        proof {
            let lines = lines_from(src@, at as int);
            let text = src@.subrange(at as int, line.to as int);
            assert(lines == seq![text] + rest);
            assert(lines[0] == text);
            assert(lines.subrange(1, lines.len() as int) =~= rest);
            assert(trim(text) == t@);
            assert(code_of(text) == code_of(t@));
            assert(out@ + compressed(rest) =~= before + compressed(lines));
        }
        at = line.next;
    }
    assert(lines_from(src@, at as int) =~= Seq::<Seq<char>>::empty());
    assert(out@ =~= compressed_source(src@));
    out
}

/// The app and its purpose.
pub open spec fn app_context(app: Seq<char>) -> Seq<char> {
    CONTEXT_APP@ + app + CONTEXT_PURPOSE@ + app + CONTEXT_END@
}

/// The code in a fence.
pub open spec fn fenced(code: Seq<char>) -> Seq<char> {
    CODE_OPEN@ + code + CODE_CLOSE@
}

/// The prompt for a dream. `frustrating` adds a note where the look is
/// improved.
pub open spec fn dream_prompt(
    mode: DreamMode,
    code: Seq<char>,
    app: Seq<char>,
    look: Seq<char>,
    frustrating: bool,
) -> Seq<char> {
    match mode {
        DreamMode::Refactor => REFACTOR_HEAD@ + app_context(app) + fenced(code) + REFACTOR_RULES@,
        DreamMode::Creative => CREATIVE_HEAD@ + app_context(app) + fenced(code) + CREATIVE_OUTPUT@
            + look + CREATIVE_RULES@ + (if frustrating {
            FRUSTRATION_NOTE@
        } else {
            Seq::empty()
        }),
        DreamMode::Nightmare => NIGHTMARE_HEAD@ + app_context(app) + fenced(code)
            + NIGHTMARE_RULES@,
        DreamMode::DriverRefactor => DRIVER_REFACTOR_HEAD@ + app + fenced(code)
            + DRIVER_REFACTOR_RULES@,
        DreamMode::DriverNightmare => DRIVER_NIGHTMARE_HEAD@ + app + fenced(code)
            + DRIVER_NIGHTMARE_RULES@,
    }
}

fn push_context(out: &mut String, app: &str)
    ensures
        final(out)@ == old(out)@ + app_context(app@),
{
    out.push_str(CONTEXT_APP);
    out.push_str(app);
    out.push_str(CONTEXT_PURPOSE);
    out.push_str(app);
    out.push_str(CONTEXT_END);
    assert(out@ =~= old(out)@ + app_context(app@));
}

fn push_fenced(out: &mut String, code: &str)
    ensures
        final(out)@ == old(out)@ + fenced(code@),
{
    out.push_str(CODE_OPEN);
    out.push_str(code);
    out.push_str(CODE_CLOSE);
    assert(out@ =~= old(out)@ + fenced(code@));
}

impl DraugDaemon {
    /// The prompt for the current dream mode. `render_summary` describes what
    /// the app draws; it is used where the look is improved.
    pub fn build_dream_prompt(
        &self,
        source_code: &str,
        app_name: &str,
        render_summary: &str,
    ) -> (r: String)
        ensures
            r@ == dream_prompt(
                self.dream_mode,
                compressed_source(source_code@),
                app_name@,
                render_summary@,
                score_from(self.friction.scores@, hash_of(app_name@), 0) > FRICTION_THRESHOLD,
            ),
    {
        let code = compress_source(source_code);
        match self.dream_mode {
            DreamMode::Refactor => {
                let mut out = REFACTOR_HEAD.to_owned();
                push_context(&mut out, app_name);
                push_fenced(&mut out, code.as_str());
                out.push_str(REFACTOR_RULES);
                out
            },
            DreamMode::Creative => {
                let mut out = CREATIVE_HEAD.to_owned();
                push_context(&mut out, app_name);
                push_fenced(&mut out, code.as_str());
                out.push_str(CREATIVE_OUTPUT);
                out.push_str(render_summary);
                out.push_str(CREATIVE_RULES);
                let h: u32 = Self::key_hash_pub(app_name);
                if self.friction.score_for(h) > FRICTION_THRESHOLD {
                    out.push_str(FRUSTRATION_NOTE);
                }
                assert(out@ =~= dream_prompt(
                    self.dream_mode,
                    compressed_source(source_code@),
                    app_name@,
                    render_summary@,
                    score_from(self.friction.scores@, hash_of(app_name@), 0) > FRICTION_THRESHOLD,
                ));
                out
            },
            DreamMode::Nightmare => {
                let mut out = NIGHTMARE_HEAD.to_owned();
                push_context(&mut out, app_name);
                push_fenced(&mut out, code.as_str());
                out.push_str(NIGHTMARE_RULES);
                out
            },
            DreamMode::DriverRefactor => {
                let mut out = DRIVER_REFACTOR_HEAD.to_owned();
                out.push_str(app_name);
                push_fenced(&mut out, code.as_str());
                out.push_str(DRIVER_REFACTOR_RULES);
                out
            },
            DreamMode::DriverNightmare => {
                let mut out = DRIVER_NIGHTMARE_HEAD.to_owned();
                out.push_str(app_name);
                push_fenced(&mut out, code.as_str());
                out.push_str(DRIVER_NIGHTMARE_RULES);
                out
            },
        }
    }
}

// ---------------------------------------------------------------------
// What is left of source code
// ---------------------------------------------------------------------

/// Quotes are counted one by one.
pub proof fn quotes_are_counted(s: Seq<char>, c: char)
    ensures
        quotes(Seq::empty()) == 0,
        quotes(s.push(c)) == quotes(s) + (if c == '"' {
            1int
        } else {
            0
        }),
        !s.contains('"') ==> quotes(s) == 0,
    decreases s.len(),
{
    assert(s.push(c).drop_last() =~= s);
    if s.len() > 0 {
        quotes_are_counted(s.drop_last(), c);
        if !s.contains('"') {
            assert(s.contains(s[s.len() - 1]));
            assert forall|i: int| 0 <= i < s.drop_last().len() implies s.drop_last()[i] != '"' by {
                assert(s.contains(s[i]));
            }
        }
    }
}

/// What is left of a line: a doc comment and a line without a comment stay, but
/// for white space at the ends; of another line what stands before its first
/// comment mark, unless that stands inside a string, that is behind an odd
/// number of quotes.
#[verifier::rlimit(40)]
pub proof fn comments_are_cut_off(line: Seq<char>, code: Seq<char>, rest: Seq<char>)
    ensures
        trim(line).len() >= 3 && trim(line).subrange(0, 3) == "///"@ ==> code_of(line) == trim(
            line,
        ),
        (forall|k: int|
            0 <= k && k + 2 <= trim(line).len() ==> #[trigger] trim(line).subrange(k, k + 2)
                != "//"@) ==> code_of(line) == trim(line),
        trim(line) == code + "//"@ + rest && !(code.len() == 0 && rest.len() > 0 && rest[0] == '/')
            && (forall|k: int|
            0 <= k < code.len() ==> #[trigger] trim(line).subrange(k, k + 2) != "//"@) ==> code_of(
            line,
        ) == if quotes(code) % 2 == 0 {
            trim_end(code)
        } else {
            trim(line)
        },
{
    reveal_strlit("///");
    reveal_strlit("//");
    let t = trim(line);
    let mark = "//"@;
    found_place_is_first(t, mark, 0);
    if stands_at(t, "///"@, 0) {
        assert(t.subrange(0, 2) =~= mark) by {
            assert(t.subrange(0, 3)[0] == t[0] && t.subrange(0, 3)[1] == t[1]);
        }
    }
    if t == code + mark + rest && !(code.len() == 0 && rest.len() > 0 && rest[0] == '/') && (forall|
        k: int,
    |
        0 <= k < code.len() ==> #[trigger] t.subrange(k, k + 2) != mark) {
        let n = code.len() as int;
        assert(t.subrange(n, n + 2) =~= mark);
        assert(find_at(t, mark, 0) is Some) by {
            if find_at(t, mark, 0) is None {
                assert(t.subrange(n, n + mark.len()) != mark);
            }
        }
        let p = find_at(t, mark, 0)->0;
        assert(p == n) by {
            if p < n {
                assert(t.subrange(p, p + 2) != mark);
            } else if p > n {
                assert(t.subrange(n, n + mark.len()) != mark);
            }
        }
        assert(t.subrange(0, n) =~= code);
        if stands_at(t, "///"@, 0) {
            assert(t.subrange(0, 3)[2] == t[2]);
            if n > 0 {
                assert(t.subrange(0, 2) != mark);
            } else {
                assert(t[2] == rest[0]);
            }
        }
    }
}

/// Lines are compressed one by one, in order: each that still holds something
/// is kept with a newline, and the others go.
pub proof fn lines_are_compressed(lines: Seq<Seq<char>>, line: Seq<char>)
    ensures
        compressed(Seq::empty()).len() == 0,
        code_of(line).len() == 0 ==> compressed(lines.push(line)) == compressed(lines),
        code_of(line).len() > 0 ==> compressed(lines.push(line)) == compressed(lines) + code_of(
            line,
        ).push('\n'),
    decreases lines.len(),
{
    let all = lines.push(line);
    let rest = all.subrange(1, all.len() as int);
    if lines.len() == 0 {
        assert(all[0] == line);
        assert(rest =~= Seq::<Seq<char>>::empty());
        assert(compressed(rest) =~= Seq::<char>::empty());
        assert(compressed(lines) =~= Seq::<char>::empty());
        assert(compressed(all) =~= if code_of(line).len() == 0 {
            Seq::empty()
        } else {
            code_of(line).push('\n')
        });
    } else {
        let less = lines.subrange(1, lines.len() as int);
        assert(all[0] == lines[0]);
        assert(rest =~= less.push(line));
        lines_are_compressed(less, line);
        let first = if code_of(lines[0]).len() == 0 {
            Seq::<char>::empty()
        } else {
            code_of(lines[0]).push('\n')
        };
        assert(compressed(all) =~= first + compressed(less.push(line)));
        assert(compressed(lines) =~= first + compressed(less));
        assert(first + (compressed(less) + code_of(line).push('\n')) =~= first + compressed(less)
            + code_of(line).push('\n'));
    }
}

/// Every prompt for an app names the app and its purpose, and every prompt
/// holds the code in a fence; only the one for a better look also tells what
/// the app draws, and the note on frustration where it applies.
pub proof fn prompts_for_dreams(code: Seq<char>, app: Seq<char>, look: Seq<char>, f: bool)
    ensures
        fenced(code) == "\nCurrent code:\n```rust\n"@ + code + "\n```\n\n"@,
        app_context(app) == CONTEXT_APP@ + app + CONTEXT_PURPOSE@ + app + CONTEXT_END@,
        dream_prompt(DreamMode::Refactor, code, app, look, f) == REFACTOR_HEAD@ + app_context(app)
            + fenced(code) + REFACTOR_RULES@,
        dream_prompt(DreamMode::Nightmare, code, app, look, f) == NIGHTMARE_HEAD@ + app_context(app)
            + fenced(code) + NIGHTMARE_RULES@,
        dream_prompt(DreamMode::Creative, code, app, look, true) == dream_prompt(
            DreamMode::Creative,
            code,
            app,
            look,
            false,
        ) + FRUSTRATION_NOTE@,
        dream_prompt(DreamMode::Creative, code, app, look, false) == CREATIVE_HEAD@ + app_context(
            app,
        ) + fenced(code) + CREATIVE_OUTPUT@ + look + CREATIVE_RULES@,
        dream_prompt(DreamMode::DriverRefactor, code, app, look, f) == DRIVER_REFACTOR_HEAD@ + app
            + fenced(code) + DRIVER_REFACTOR_RULES@,
        dream_prompt(DreamMode::DriverNightmare, code, app, look, f) == DRIVER_NIGHTMARE_HEAD@ + app
            + fenced(code) + DRIVER_NIGHTMARE_RULES@,
{
    let plain = CREATIVE_HEAD@ + app_context(app) + fenced(code) + CREATIVE_OUTPUT@ + look
        + CREATIVE_RULES@;
    assert(plain + Seq::<char>::empty() =~= plain);
}

} // verus!

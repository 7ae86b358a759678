//! Pattern mining: telemetry as a prompt, and the insight that comes back.
use vstd::prelude::*;
use vstd::string::*;
use vstd::utf8::*;

use crate::bytes::{le16, le16_bytes, le32, le32_bytes, read_le16, read_le32};
use crate::chars::{
    find_at, find_chars, found_place_is_first, push_chars, to_chars, trim, trimmed,
};
use crate::draug::{
    DraugDaemon, PATTERN_MINE_CHUNK_SIZE, PATTERN_MINE_COOLDOWN_MS, PATTERN_MINE_IDLE_MS,
};
use crate::dream::hash_of;
use crate::friction::elapsed;
use crate::text::{
    dec_chars, hex_chars, padded_dec, push_dec, push_hex, push_padded_dec, text_of,
};

verus! {

broadcast use vstd::seq_lib::group_seq_properties;

/// Bytes of one telemetry event.
pub const EVENT_SIZE: usize = 16;

/// Names of the telemetry actions.
pub const ACTION_NAMES: [&'static str; 12] = [
    "AppOpened",
    "AppClosed",
    "IpcSent",
    "UiInteract",
    "AiReq",
    "AiDone",
    "FileRead",
    "FileWrite",
    "Omnibar",
    "Alert",
    "NetEvt",
    "AppErr",
];

pub const MINING_HEAD: &'static str =
    "Analyze this telemetry log from Folkering OS. Identify repeating patterns, high friction (apps that crash or are used inefficiently together), and suggest ONE concrete architectural improvement or IPC shortcut.\nBe concise (max 3 sentences).\n\nTELEMETRY LOG (";

pub const INSIGHT_HEAD: &'static str =
    "#AutoDreamInsight\n# Pattern-Mining Phase 1 — ";

/// Wall clock time.
#[derive(Debug, Clone, Copy, PartialEq, Eq, Structural)]
pub struct ClockTime {
    pub year: u16,
    pub month: u8,
    pub day: u8,
    pub hour: u8,
    pub minute: u8,
}

/// An insight, and the file to keep it in where it is a new one.
pub struct Insight {
    pub text: String,
    pub file: Option<InsightFile>,
}

pub struct InsightFile {
    pub name: String,
    pub content: String,
}

pub open spec fn action_name(action: u8) -> Seq<char> {
    if action < 12 {
        ACTION_NAMES@[action as int]@
    } else {
        "Unknown"@
    }
}

/// The duration in a log line, where there is one.
pub open spec fn duration_note(ms: nat) -> Seq<char> {
    if ms > 0 {
        " dur="@ + dec_chars(ms) + "ms"@
    } else {
        ""@
    }
}

/// One event as a log line: time, action, task, target, and the duration where
/// there is one.
pub open spec fn event_line(buf: Seq<u8>, off: int) -> Seq<char> {
    "T+"@ + dec_chars((le32(buf, off + 12) / 1000) as nat) + "s "@ + action_name(buf[off]) + " t"@
        + dec_chars(le16(buf, off + 2) as nat) + " id=0x"@ + hex_chars(le32(buf, off + 4) as nat)
        + duration_note(le32(buf, off + 8) as nat) + "\n"@
}

/// The first `count` events as a log; a cut-off event ends it.
pub open spec fn event_log(buf: Seq<u8>, count: int) -> Seq<char>
    decreases count,
{
    if count <= 0 {
        Seq::empty()
    } else if count * EVENT_SIZE > buf.len() {
        event_log(buf, count - 1)
    } else {
        event_log(buf, count - 1) + event_line(buf, (count - 1) * EVENT_SIZE)
    }
}

fn duration_text(ms: u32) -> (r: String)
    ensures
        r@ == duration_note(ms as nat),
{
    if ms > 0 {
        let mut out = " dur=".to_owned();
        push_dec(&mut out, ms as u64);
        out.push_str("ms");
        out
    } else {
        "".to_owned()
    }
}

fn action_text(action: u8) -> (r: &'static str)
    ensures
        r@ == action_name(action),
{
    if action < 12 {
        ACTION_NAMES[action as usize]
    } else {
        "Unknown"
    }
}

fn event_text(buf: &[u8], off: usize) -> (r: String)
    requires
        off + EVENT_SIZE <= buf.len(),
    ensures
        r@ == event_line(buf@, off as int),
{
    let task: u16 = read_le16(buf, off + 2);
    let target: u32 = read_le32(buf, off + 4);
    let duration: u32 = read_le32(buf, off + 8);
    let time: u32 = read_le32(buf, off + 12);
    let note = duration_text(duration);
    let mut out = "T+".to_owned();
    push_dec(&mut out, (time / 1000) as u64);
    out.push_str("s ");
    out.push_str(action_text(buf[off]));
    out.push_str(" t");
    push_dec(&mut out, task as u64);
    out.push_str(" id=0x");
    push_hex(&mut out, target as u64);
    out.push_str(note.as_str());
    out.push_str("\n");
    out
}

/// The events as a log, one line each.
pub fn format_telemetry_log(buf: &[u8], count: usize) -> (r: String)
    ensures
        r@ == event_log(buf@, count as int),
{
    let mut out = String::new();
    let mut i: usize = 0;
    let whole: usize = buf.len() / EVENT_SIZE;
    let n: usize = if count < whole {
        count
    } else {
        whole
    };
    while i < n
        invariant
            i <= n <= whole,
            whole * EVENT_SIZE <= buf.len(),
            out@ == event_log(buf@, i as int),
        decreases n - i,
    {
        let line = event_text(buf, i * EVENT_SIZE);
        out.push_str(line.as_str());
        i = i + 1;
        assert(i * EVENT_SIZE <= buf@.len());
    }
    proof {
        lemma_log_ends(buf@, n as int, count as int);
    }
    out
}

proof fn lemma_log_ends(buf: Seq<u8>, n: int, count: int)
    requires
        0 <= n <= count,
        n == count || (n + 1) * EVENT_SIZE > buf.len(),
    ensures
        event_log(buf, count) == event_log(buf, n),
    decreases count - n,
{
    if n < count {
        lemma_log_ends(buf, n, count - 1);
    }
}

/// The latest part of a log: whole lines from its last bytes, where it is too
/// long for one prompt.
pub open spec fn latest(log: Seq<char>) -> Seq<char> {
    if log.len() > PATTERN_MINE_CHUNK_SIZE {
        match find_at(log, "\n"@, log.len() - PATTERN_MINE_CHUNK_SIZE) {
            Some(p) => log.subrange(p + 1, log.len() as int),
            None => log.subrange(log.len() - PATTERN_MINE_CHUNK_SIZE + 1, log.len() as int),
        }
    } else {
        log
    }
}

/// The part of a log that goes into a prompt never exceeds the limit.
pub proof fn latest_is_bounded(log: Seq<char>)
    ensures
        latest(log).len() <= PATTERN_MINE_CHUNK_SIZE,
{
    if log.len() > PATTERN_MINE_CHUNK_SIZE {
        lemma_find_at_range(log, "\n"@, log.len() - PATTERN_MINE_CHUNK_SIZE);
        reveal_strlit("\n");
    }
}

proof fn lemma_find_at_range(s: Seq<char>, p: Seq<char>, i: int)
    requires
        0 <= i,
    ensures
        find_at(s, p, i) matches Some(k) ==> i <= k && k + p.len() <= s.len(),
    decreases s.len() - i + 1,
{
    if i <= s.len() && !crate::chars::stands_at(s, p, i) {
        lemma_find_at_range(s, p, i + 1);
    }
}

/// The prompt over a log.
pub open spec fn mining_prompt(events: nat, log: Seq<char>) -> Seq<char> {
    MINING_HEAD@ + dec_chars(events) + " events):\n"@ + latest(log)
}

/// Name of the file that keeps an insight.
pub open spec fn insight_name(t: ClockTime) -> Seq<char> {
    "autodream/insights/"@ + padded_dec(t.year as nat, 4) + "-"@ + padded_dec(t.month as nat, 2)
        + "-"@ + padded_dec(t.day as nat, 2) + "_"@ + padded_dec(t.hour as nat, 2) + padded_dec(
        t.minute as nat,
        2,
    ) + ".txt"@
}

/// Content of that file.
pub open spec fn insight_content(
    name: Seq<char>,
    events: nat,
    uptime_s: nat,
    text: Seq<char>,
) -> Seq<char> {
    INSIGHT_HEAD@ + name + "\n# Events analyzed: "@ + dec_chars(events) + " | Uptime: "@
        + dec_chars(uptime_s) + "s\n\n"@ + text + "\n"@
}

fn insight_file_name(t: ClockTime) -> (r: String)
    ensures
        r@ == insight_name(t),
{
    let mut name = "autodream/insights/".to_owned();
    push_padded_dec(&mut name, t.year as u64, 4);
    name.push_str("-");
    push_padded_dec(&mut name, t.month as u64, 2);
    name.push_str("-");
    push_padded_dec(&mut name, t.day as u64, 2);
    name.push_str("_");
    push_padded_dec(&mut name, t.hour as u64, 2);
    push_padded_dec(&mut name, t.minute as u64, 2);
    name.push_str(".txt");
    name
}

fn insight_file_content(name: &str, events: u64, uptime_s: u64, text: &str) -> (r: String)
    ensures
        r@ == insight_content(name@, events as nat, uptime_s as nat, text@),
{
    let mut out = INSIGHT_HEAD.to_owned();
    out.push_str(name);
    out.push_str("\n# Events analyzed: ");
    push_dec(&mut out, events);
    out.push_str(" | Uptime: ");
    push_dec(&mut out, uptime_s);
    out.push_str("s\n\n");
    out.push_str(text);
    out.push_str("\n");
    out
}

impl DraugDaemon {
    /// Whether a mining run is due.
    pub fn should_mine_patterns(&self, now_ms: u64) -> (r: bool)
        ensures
            r == (self.active && !self.dreaming && !self.waiting_for_llm && elapsed(
                now_ms,
                self.last_user_input_ms,
            ) > PATTERN_MINE_IDLE_MS && elapsed(now_ms, self.last_pattern_mine_ms)
                > PATTERN_MINE_COOLDOWN_MS),
    {
        self.active && !self.dreaming && !self.waiting_for_llm && now_ms.saturating_sub(
            self.last_user_input_ms,
        ) > PATTERN_MINE_IDLE_MS && now_ms.saturating_sub(self.last_pattern_mine_ms)
            > PATTERN_MINE_COOLDOWN_MS
    }

    /// The prompt of a mining run over `drained` events in `buf`. Where there
    /// are none the run is over and the cooldown begins.
    pub fn begin_pattern_mining(&mut self, now_ms: u64, buf: &[u8], drained: usize) -> (r: Option<
        String,
    >)
        ensures
            ({
                let log = event_log(buf@, drained as int);
                if log.len() == 0 {
                    r is None && *final(self) == (DraugDaemon {
                        last_pattern_mine_ms: now_ms,
                        ..*old(self)
                    })
                } else {
                    (r matches Some(p) && p@ == mining_prompt(drained as nat, log)) && *final(self)
                        == *old(self)
                }
            }),
    {
        if drained == 0 {
            self.last_pattern_mine_ms = now_ms;
            return None;
        }
        let log = format_telemetry_log(buf, drained);
        let v = to_chars(log.as_str());
        if v.len() == 0 {
            self.last_pattern_mine_ms = now_ms;
            return None;
        }
        let mut out = MINING_HEAD.to_owned();
        push_dec(&mut out, drained as u64);
        out.push_str(" events):\n");
        let from: usize = if v.len() > PATTERN_MINE_CHUNK_SIZE {
            let start: usize = v.len() - PATTERN_MINE_CHUNK_SIZE;
            let newline = to_chars("\n");
            proof {
                reveal_strlit("\n");
            }
            match find_chars(v.as_slice(), newline.as_slice(), start) {
                Some(p) => p + 1,
                None => start + 1,
            }
        } else {
            0
        };
        push_chars(&mut out, v.as_slice(), from, v.len());
        assert(v@.subrange(0, v@.len() as int) =~= v@);
        Some(out)
    }

    /// Ends a mining run with the reply of the model. An empty or undecodable
    /// reply gives no insight. A repeated insight is returned and not kept
    /// again.
    pub fn mine_patterns(
        &mut self,
        now_ms: u64,
        drained: usize,
        response: &[u8],
        clock: ClockTime,
    ) -> (r: Option<Insight>)
        requires
            old(self).pattern_mine_count < u32::MAX,
        ensures
            ({
                let text = trim(decode_utf8(response@));
                if response@.len() == 0 || !valid_utf8(response@) {
                    r is None && *final(self) == (DraugDaemon {
                        last_pattern_mine_ms: now_ms,
                        ..*old(self)
                    })
                } else if hash_of(text) == old(self).last_insight_hash {
                    (r matches Some(i) && i.text@ == text && i.file is None) && *final(self)
                        == (DraugDaemon { last_pattern_mine_ms: now_ms, ..*old(self) })
                } else {
                    (r matches Some(i) && i.text@ == text && (i.file matches Some(f) && f.name@
                        == insight_name(clock) && f.content@ == insight_content(
                        insight_name(clock),
                        drained as nat,
                        (now_ms / 1000) as nat,
                        text,
                    ))) && *final(self) == (DraugDaemon {
                        last_pattern_mine_ms: now_ms,
                        last_insight_hash: hash_of(text),
                        pattern_mine_count: (old(self).pattern_mine_count + 1) as u32,
                        ..*old(self)
                    })
                }
            }),
    {
        self.last_pattern_mine_ms = now_ms;
        if response.len() == 0 {
            return None;
        }
        proof {
            assert(response@.subrange(0, response@.len() as int) =~= response@);
        }
        let reply = match text_of(response, 0, response.len()) {
            Some(t) => t,
            None => {
                return None;
            },
        };
        let text = trimmed(reply.as_str());
        let hash: u32 = Self::key_hash_pub(text.as_str());
        if hash == self.last_insight_hash {
            return Some(Insight { text, file: None });
        }
        let name = insight_file_name(clock);
        let content = insight_file_content(
            name.as_str(),
            drained as u64,
            now_ms / 1000,
            text.as_str(),
        );
        self.last_insight_hash = hash;
        self.pattern_mine_count = self.pattern_mine_count + 1;
        Some(Insight { text, file: Some(InsightFile { name, content }) })
    }

    pub fn pattern_mine_count(&self) -> (r: u32)
        ensures
            r == self.pattern_mine_count,
    {
        self.pattern_mine_count
    }
}

// ---------------------------------------------------------------------
// What a log and an insight say
// ---------------------------------------------------------------------

/// The actions by their numbers.
pub proof fn actions_by_number(action: u8)
    ensures
        action_name(0) == "AppOpened"@,
        action_name(1) == "AppClosed"@,
        action_name(2) == "IpcSent"@,
        action_name(3) == "UiInteract"@,
        action_name(4) == "AiReq"@,
        action_name(5) == "AiDone"@,
        action_name(6) == "FileRead"@,
        action_name(7) == "FileWrite"@,
        action_name(8) == "Omnibar"@,
        action_name(9) == "Alert"@,
        action_name(10) == "NetEvt"@,
        action_name(11) == "AppErr"@,
        action >= 12 ==> action_name(action) == "Unknown"@,
{
}

/// An event of sixteen bytes: the action, a reserved byte, the task, the
/// target, the duration and the time.
pub open spec fn event_bytes(action: u8, r: u8, task: u16, id: u32, ms: u32, at: u32) -> Seq<u8> {
    seq![action, r] + le16_bytes(task) + le32_bytes(id) + le32_bytes(ms) + le32_bytes(at)
}

/// An event becomes one line of the log, and the lines stand in order: `before`
/// are `n` whole events.
#[verifier::rlimit(40)]
pub proof fn events_become_lines(
    before: Seq<u8>,
    n: int,
    action: u8,
    r: u8,
    task: u16,
    id: u32,
    ms: u32,
    at: u32,
    rest: Seq<u8>,
)
    requires
        0 <= n,
        before.len() == 16 * n,
    ensures
        event_log(before + event_bytes(action, r, task, id, ms, at) + rest, n + 1) == event_log(
            before + event_bytes(action, r, task, id, ms, at) + rest,
            n,
        ) + "T+"@ + dec_chars((at / 1000) as nat) + "s "@ + action_name(action) + " t"@ + dec_chars(
            task as nat,
        ) + " id=0x"@ + hex_chars(id as nat) + (if ms > 0 {
            " dur="@ + dec_chars(ms as nat) + "ms"@
        } else {
            Seq::<char>::empty()
        }) + "\n"@,
{
    let e = event_bytes(action, r, task, id, ms, at);
    let buf = before + e + rest;
    let o = 16 * n;
    assert(e.len() == 16);
    assert(buf[o] == e[0]);
    assert(buf.subrange(o + 2, o + 4) =~= le16_bytes(task));
    crate::bytes::le16_round_trip(buf, o + 2, task);
    assert(buf.subrange(o + 4, o + 8) =~= le32_bytes(id));
    crate::bytes::le32_round_trip(buf, o + 4, id);
    assert(buf.subrange(o + 8, o + 12) =~= le32_bytes(ms));
    crate::bytes::le32_round_trip(buf, o + 8, ms);
    assert(buf.subrange(o + 12, o + 16) =~= le32_bytes(at));
    crate::bytes::le32_round_trip(buf, o + 12, at);
    reveal_strlit("");
    assert(""@ =~= Seq::<char>::empty());
    let line = event_line(buf, o);
    let had = event_log(buf, n);
    assert(event_log(buf, n + 1) == had + line);
    assert(had + line =~= had + "T+"@ + dec_chars((at / 1000) as nat) + "s "@ + action_name(action)
        + " t"@ + dec_chars(task as nat) + " id=0x"@ + hex_chars(id as nat) + duration_note(
        ms as nat,
    ) + "\n"@);
}

/// A log does not depend on what stands behind its events, and an event that is
/// cut off is left out.
pub proof fn cut_events_are_left_out(buf: Seq<u8>, rest: Seq<u8>, n: int)
    requires
        0 <= n,
        buf.len() == 16 * n,
    ensures
        event_log(buf + rest, n) == event_log(buf, n),
        rest.len() < 16 ==> event_log(buf + rest, n + 1) == event_log(buf, n),
{
    lemma_log_front(buf, rest, n);
}

proof fn lemma_log_front(buf: Seq<u8>, rest: Seq<u8>, n: int)
    requires
        0 <= n,
        16 * n <= buf.len(),
    ensures
        event_log(buf + rest, n) == event_log(buf, n),
    decreases n,
{
    if n > 0 {
        lemma_log_front(buf, rest, n - 1);
        let o = 16 * (n - 1);
        let all = buf + rest;
        assert(all[o] == buf[o] && all[o + 2] == buf[o + 2] && all[o + 3] == buf[o + 3]);
        assert(all[o + 4] == buf[o + 4] && all[o + 5] == buf[o + 5] && all[o + 6] == buf[o + 6]
            && all[o + 7] == buf[o + 7]);
        assert(all[o + 8] == buf[o + 8] && all[o + 9] == buf[o + 9] && all[o + 10] == buf[o + 10]
            && all[o + 11] == buf[o + 11]);
        assert(all[o + 12] == buf[o + 12] && all[o + 13] == buf[o + 13] && all[o + 14] == buf[o
            + 14] && all[o + 15] == buf[o + 15]);
        assert(event_line(all, o) == event_line(buf, o));
    }
}

/// A prompt holds a short log whole, and of a longer one the end: behind the
/// first line end within its last 1800 characters.
pub proof fn prompts_hold_the_end(log: Seq<char>, k: int)
    ensures
        log.len() <= 1800 ==> latest(log) == log,
        latest(log).is_suffix_of(log),
        log.len() > 1800 && log.len() - 1800 <= k < log.len() && log[k] == '\n' && (forall|j: int|
            log.len() - 1800 <= j < k ==> #[trigger] log[j] != '\n') ==> latest(log)
            == log.subrange(k + 1, log.len() as int),
{
    reveal_strlit("\n");
    let nl = "\n"@;
    if log.len() > 1800 {
        let from = log.len() - 1800;
        found_place_is_first(log, nl, from);
        if from <= k < log.len() && log[k] == '\n' && (forall|j: int|
            from <= j < k ==> #[trigger] log[j] != '\n') {
            assert(log.subrange(k, k + 1) =~= nl);
            assert(find_at(log, nl, from) is Some) by {
                if find_at(log, nl, from) is None {
                    assert(log.subrange(k, k + nl.len()) != nl);
                }
            }
            let m = find_at(log, nl, from)->0;
            assert(log.subrange(m, m + 1)[0] == log[m]);
            if k < m {
                assert(log.subrange(k, k + nl.len()) != nl);
            }
        }
    } else {
        assert(log.subrange(0, log.len() as int) =~= log);
    }
}

/// The file of an insight is named by date and time, each in its usual width.
pub proof fn insights_are_named_by_time(t: ClockTime)
    requires
        1000 <= t.year <= 9999,
        t.month < 100,
        t.day < 100,
        t.hour < 100,
        t.minute < 100,
    ensures
        insight_name(t) == "autodream/insights/"@ + dec_chars(t.year as nat) + "-"@ + padded_dec(
            t.month as nat,
            2,
        ) + "-"@ + padded_dec(t.day as nat, 2) + "_"@ + padded_dec(t.hour as nat, 2) + padded_dec(
            t.minute as nat,
            2,
        ) + ".txt"@,
{
    reveal_with_fuel(crate::text::dec_len, 5);
    assert(padded_dec(t.year as nat, 4) =~= dec_chars(t.year as nat));
}

} // verus!

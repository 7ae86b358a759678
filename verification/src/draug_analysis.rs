//! Telemetry ticks and the self-analysis cycle of the agent.
use vstd::prelude::*;
use vstd::string::*;

use crate::draug::{
    DraugDaemon, ObservationSummary, ANALYSIS_BATCH, KNOWLEDGE_HUNT_IDLE_MS, MAX_LOG_ENTRIES,
    TICK_INTERVAL_MS,
};
use crate::friction::{decayed, elapsed, FRICTION_DECAY_MS};
use crate::text::{dec_chars, push_dec, str_eq};

verus! {

broadcast use vstd::seq_lib::group_seq_properties;

/// Analyses per session.
pub const MAX_ANALYSES: u32 = 5;

/// Idle time before an analysis.
pub const ANALYSIS_IDLE_MS: u64 = 30_000;

/// Pause between analyses.
pub const ANALYSIS_COOLDOWN_MS: u64 = 300_000;

/// Longest wait for an analysis.
pub const ANALYSIS_TIMEOUT_MS: u64 = 60_000;

/// Longest wait for a dream.
pub const DREAM_TIMEOUT_MS: u64 = 120_000;

/// Idle time that a tick reports.
pub const IDLE_REPORT_MS: u64 = 120_000;

/// Opening of the analysis prompt.
pub const ANALYSIS_HEAD: &'static str =
    "You are Draug, the ever-watchful background daemon of Folkering OS.\nAnalyze these system observations and suggest ONE action if needed.\nRespond with JSON: {\"action\": \"alert\", \"message\": \"...\"} or {\"action\": \"none\"}\n\nRecent observations:\n";

/// The event tag of a tick: memory pressure comes before idleness.
pub open spec fn tick_tag(mem_pct: u32, idle_ms: int) -> u8 {
    if mem_pct > 85 {
        1
    } else if idle_ms > IDLE_REPORT_MS {
        2
    } else {
        0
    }
}

/// What a tick observes.
pub open spec fn tick_summary(now_ms: u64, mem_pct: u32, last_input_ms: u64) -> ObservationSummary {
    ObservationSummary {
        timestamp_s: ((now_ms / 1000) % 0x1_0000_0000) as u32,
        mem_pct: (if mem_pct > 100 {
            100
        } else {
            mem_pct
        }) as u8,
        task_count: 0,
        event_tag: tick_tag(mem_pct, elapsed(now_ms, last_input_ms)),
    }
}

pub open spec fn event_name(tag: u8) -> Seq<char> {
    if tag == 1 {
        "MEM_WARNING"@
    } else if tag == 2 {
        "IDLE"@
    } else if tag == 3 {
        "BOOT"@
    } else {
        "TICK"@
    }
}

/// One observation as a prompt line.
pub open spec fn observation_line(o: ObservationSummary) -> Seq<char> {
    "  T+"@ + dec_chars(o.timestamp_s as nat) + "s: RAM="@ + dec_chars(o.mem_pct as nat)
        + "% event="@ + event_name(o.event_tag) + "\n"@
}

/// Observations as prompt lines.
pub open spec fn observation_lines(s: Seq<ObservationSummary>) -> Seq<char>
    decreases s.len(),
{
    if s.len() == 0 {
        Seq::empty()
    } else {
        observation_lines(s.drop_last()) + observation_line(s.last())
    }
}

/// The last `n` elements, or all where there are fewer.
pub open spec fn tail(s: Seq<ObservationSummary>, n: int) -> Seq<ObservationSummary> {
    if s.len() <= n {
        s
    } else {
        s.subrange(s.len() - n, s.len() as int)
    }
}

/// The log after one more observation: the oldest gives way when it is full.
pub open spec fn appended(
    s: Seq<ObservationSummary>,
    o: ObservationSummary,
) -> Seq<ObservationSummary> {
    (if s.len() < MAX_LOG_ENTRIES {
        s
    } else {
        s.subrange(1, s.len() as int)
    }).push(o)
}

/// The newest observation is always the last one, and all kept observations
/// keep their order.
pub proof fn log_keeps_the_newest(s: Seq<ObservationSummary>, o: ObservationSummary)
    requires
        s.len() <= MAX_LOG_ENTRIES,
    ensures
        appended(s, o).last() == o,
        appended(s, o).len() <= MAX_LOG_ENTRIES,
        appended(s, o) == tail(s, MAX_LOG_ENTRIES - 1).push(o),
{
    assert(appended(s, o) =~= tail(s, MAX_LOG_ENTRIES - 1).push(o));
}

fn push_observation(out: &mut String, o: ObservationSummary)
    ensures
        final(out)@ == old(out)@ + observation_line(o),
{
    out.push_str("  T+");
    push_dec(out, o.timestamp_s as u64);
    out.push_str("s: RAM=");
    push_dec(out, o.mem_pct as u64);
    out.push_str("% event=");
    if o.event_tag == 1 {
        out.push_str("MEM_WARNING");
    } else if o.event_tag == 2 {
        out.push_str("IDLE");
    } else if o.event_tag == 3 {
        out.push_str("BOOT");
    } else {
        out.push_str("TICK");
    }
    out.push_str("\n");
    assert(out@ =~= old(out)@ + observation_line(o));
}

impl DraugDaemon {
    /// Whether the knowledge hunt is due: once per boot, when the user is idle
    /// and nothing else is under way.
    pub fn should_hunt_knowledge(&self, now_ms: u64) -> (r: bool)
        ensures
            r == (!self.knowledge_hunted && self.active && !self.dreaming && !self.waiting_for_llm
                && elapsed(now_ms, self.last_user_input_ms) >= KNOWLEDGE_HUNT_IDLE_MS),
    {
        if self.knowledge_hunted {
            return false;
        }
        if !self.active {
            return false;
        }
        if self.dreaming || self.waiting_for_llm {
            return false;
        }
        now_ms.saturating_sub(self.last_user_input_ms) >= KNOWLEDGE_HUNT_IDLE_MS
    }

    pub fn mark_knowledge_hunted(&mut self)
        ensures
            *final(self) == (DraugDaemon { knowledge_hunted: true, ..*old(self) }),
    {
        self.knowledge_hunted = true;
    }

    /// Restarts the idle timer.
    pub fn on_user_input(&mut self, now_ms: u64)
        ensures
            *final(self) == (DraugDaemon { last_user_input_ms: now_ms, ..*old(self) }),
    {
        self.last_user_input_ms = now_ms;
    }

    pub fn should_tick(&self, now_ms: u64) -> (r: bool)
        ensures
            r == (self.active && elapsed(now_ms, self.last_tick_ms) >= TICK_INTERVAL_MS),
    {
        self.active && now_ms.saturating_sub(self.last_tick_ms) >= TICK_INTERVAL_MS
    }

    /// Logs one observation and lets the friction scores decay.
    pub fn tick(&mut self, now_ms: u64, mem_pct: u32)
        requires
            old(self).log_wf(),
        ensures
            *final(self) == (DraugDaemon {
                last_tick_ms: now_ms,
                friction: final(self).friction,
                log: final(self).log,
                log_head: final(self).log_head,
                log_count: final(self).log_count,
                ..*old(self)
            }),
            final(self).log_wf(),
            final(self).entries() == appended(
                old(self).entries(),
                tick_summary(now_ms, mem_pct, old(self).last_user_input_ms),
            ),
            elapsed(now_ms, old(self).friction.last_decay_ms) < FRICTION_DECAY_MS
                ==> final(self).friction == old(self).friction,
            elapsed(now_ms, old(self).friction.last_decay_ms) >= FRICTION_DECAY_MS
                ==> final(self).friction.last_decay_ms == now_ms && final(self).friction.scores@
                == decayed(old(self).friction.scores@),
    {
        self.last_tick_ms = now_ms;
        self.friction.decay(now_ms);
        let event_tag: u8 = if mem_pct > 85 {
            1
        } else if now_ms.saturating_sub(self.last_user_input_ms) > IDLE_REPORT_MS {
            2
        } else {
            0
        };
        let pct: u32 = if mem_pct > 100 {
            100
        } else {
            mem_pct
        };
        let summary = ObservationSummary {
            timestamp_s: ((now_ms / 1000) % 0x1_0000_0000) as u32,
            mem_pct: pct as u8,
            task_count: 0,
            event_tag,
        };
        let ghost before = *self;
        self.log[self.log_head] = Some(summary);
        self.log_head =
        if self.log_head + 1 == MAX_LOG_ENTRIES {
            0
        } else {
            self.log_head + 1
        };
        if self.log_count < MAX_LOG_ENTRIES {
            self.log_count = self.log_count + 1;
        }
        assert(self.entries() =~= appended(before.entries(), summary));
        assert(before.entries() == old(self).entries());
    }

    /// Whether an analysis is due.
    pub fn should_analyze(&self, now_ms: u64) -> (r: bool)
        ensures
            r == (self.active && !self.waiting_for_llm && self.log_count >= ANALYSIS_BATCH
                && self.analysis_count < MAX_ANALYSES && elapsed(now_ms, self.last_user_input_ms)
                > ANALYSIS_IDLE_MS && elapsed(now_ms, self.last_analysis_ms)
                > ANALYSIS_COOLDOWN_MS),
    {
        self.active && !self.waiting_for_llm && self.log_count >= ANALYSIS_BATCH
            && self.analysis_count < MAX_ANALYSES && now_ms.saturating_sub(self.last_user_input_ms)
            > ANALYSIS_IDLE_MS && now_ms.saturating_sub(self.last_analysis_ms)
            > ANALYSIS_COOLDOWN_MS
    }

    /// The analysis prompt over the latest observations.
    pub fn build_analysis_prompt(&self) -> (r: String)
        requires
            self.log_wf(),
        ensures
            r@ == ANALYSIS_HEAD@ + observation_lines(tail(self.entries(), ANALYSIS_BATCH as int)),
    {
        let mut prompt = ANALYSIS_HEAD.to_owned();
        let start: usize = if self.log_count >= ANALYSIS_BATCH {
            (self.log_head + MAX_LOG_ENTRIES - ANALYSIS_BATCH) % MAX_LOG_ENTRIES
        } else {
            0
        };
        let n: usize = if self.log_count < ANALYSIS_BATCH {
            self.log_count
        } else {
            ANALYSIS_BATCH
        };
        let ghost last = tail(self.entries(), ANALYSIS_BATCH as int);
        let mut i: usize = 0;
        while i < n
            invariant
                self.log_wf(),
                i <= n <= ANALYSIS_BATCH,
                n == last.len(),
                last == tail(self.entries(), ANALYSIS_BATCH as int),
                start < MAX_LOG_ENTRIES,
                self.log_count < ANALYSIS_BATCH ==> start == 0,
                self.log_count >= ANALYSIS_BATCH ==> start == (self.log_head + MAX_LOG_ENTRIES
                    - ANALYSIS_BATCH) % MAX_LOG_ENTRIES as int,
                prompt@ == ANALYSIS_HEAD@ + observation_lines(last.subrange(0, i as int)),
            decreases n - i,
        {
            let idx: usize = (start + i) % MAX_LOG_ENTRIES;
            assert(self.log@[idx as int] == Some(last[i as int]));
            match self.log[idx] {
                Some(obs) => {
                    push_observation(&mut prompt, obs);
                },
                None => {},
            }
            i = i + 1;
            assert(last.subrange(0, i as int).drop_last() =~= last.subrange(0, i - 1));
        }
        assert(last.subrange(0, n as int) =~= last);
        prompt
    }

    /// Books an analysis that was handed to the model, or not.
    pub fn start_analysis(&mut self, now_ms: u64, sent: bool) -> (r: bool)
        requires
            sent ==> old(self).analysis_count < u32::MAX,
        ensures
            r == sent,
            *final(self) == (if sent {
                DraugDaemon {
                    waiting_for_llm: true,
                    analysis_count: (old(self).analysis_count + 1) as u32,
                    last_analysis_ms: now_ms,
                    ..*old(self)
                }
            } else {
                *old(self)
            }),
    {
        if sent {
            self.waiting_for_llm = true;
            self.analysis_count = self.analysis_count + 1;
            self.last_analysis_ms = now_ms;
            true
        } else {
            false
        }
    }

    /// Books an analysis and returns its prompt.
    pub fn begin_analysis_cycle(&mut self, now_ms: u64) -> (r: String)
        requires
            old(self).log_wf(),
        ensures
            r@ == ANALYSIS_HEAD@ + observation_lines(
                tail(old(self).entries(), ANALYSIS_BATCH as int),
            ),
            *final(self) == (DraugDaemon {
                waiting_for_llm: true,
                analysis_count: if old(self).analysis_count < u32::MAX {
                    (old(self).analysis_count + 1) as u32
                } else {
                    u32::MAX
                },
                last_analysis_ms: now_ms,
                ..*old(self)
            }),
    {
        let prompt = self.build_analysis_prompt();
        self.waiting_for_llm = true;
        self.analysis_count = self.analysis_count.saturating_add(1);
        self.last_analysis_ms = now_ms;
        prompt
    }

    pub fn finish_analysis_cycle(&mut self)
        ensures
            *final(self) == (DraugDaemon { waiting_for_llm: false, ..*old(self) }),
    {
        self.waiting_for_llm = false;
    }

    /// Gives up on an overdue analysis, or else on an overdue dream. True where
    /// one was given up.
    pub fn check_waiting_timeout(&mut self, now_ms: u64) -> (r: bool)
        ensures
            ({
                let overdue = old(self).waiting_for_llm && old(self).last_analysis_ms > 0
                    && elapsed(now_ms, old(self).last_analysis_ms) > ANALYSIS_TIMEOUT_MS;
                let overslept = old(self).dreaming && old(self).last_dream_ms > 0 && elapsed(
                    now_ms,
                    old(self).last_dream_ms,
                ) > DREAM_TIMEOUT_MS;
                &&& r == (overdue || overslept)
                &&& *final(self) == (if overdue {
                    DraugDaemon { waiting_for_llm: false, ..*old(self) }
                } else if overslept {
                    DraugDaemon { dreaming: false, dream_target: None, ..*old(self) }
                } else {
                    *old(self)
                })
            }),
    {
        if self.waiting_for_llm && self.last_analysis_ms > 0 && now_ms.saturating_sub(
            self.last_analysis_ms,
        ) > ANALYSIS_TIMEOUT_MS {
            self.waiting_for_llm = false;
            return true;
        }
        if self.dreaming && self.last_dream_ms > 0 && now_ms.saturating_sub(self.last_dream_ms)
            > DREAM_TIMEOUT_MS {
            self.dreaming = false;
            self.dream_target = None;
            return true;
        }
        false
    }

    /// Ends an analysis. `action` and `message` are the fields of the reply; an
    /// alert with a message is passed on.
    pub fn on_analysis_response(&mut self, action: Option<&str>, message: Option<&str>) -> (r:
        Option<String>)
        ensures
            *final(self) == (DraugDaemon { waiting_for_llm: false, ..*old(self) }),
            match (action, message) {
                (Some(a), Some(m)) => if a@ == "alert"@ {
                    r matches Some(t) && t@ == "[Draug] "@ + m@
                } else {
                    r is None
                },
                _ => r is None,
            },
    {
        self.waiting_for_llm = false;
        match action {
            Some(a) => {
                if str_eq(a, "alert") {
                    match message {
                        Some(m) => {
                            let mut t = "[Draug] ".to_owned();
                            t.push_str(m);
                            return Some(t);
                        },
                        None => {},
                    }
                }
            },
            None => {},
        }
        None
    }

    pub fn observation_count(&self) -> (r: usize)
        ensures
            r == self.log_count,
            r == self.entries().len(),
    {
        self.log_count
    }

    pub fn is_waiting(&self) -> (r: bool)
        ensures
            r == self.waiting_for_llm,
    {
        self.waiting_for_llm
    }

    pub fn analysis_count(&self) -> (r: u32)
        ensures
            r == self.analysis_count,
    {
        self.analysis_count
    }

    pub fn last_input_ms(&self) -> (r: u64)
        ensures
            r == self.last_user_input_ms,
    {
        self.last_user_input_ms
    }

    /// Whether the agent leaves the model to the user: while a session of the
    /// user's is active, and shortly after any input.
    pub fn should_yield_tokens(&self, active_agent: bool, now_ms: u64) -> (r: bool)
        ensures
            r == (active_agent || elapsed(now_ms, self.last_user_input_ms) < ANALYSIS_IDLE_MS),
    {
        if active_agent {
            return true;
        }
        now_ms.saturating_sub(self.last_user_input_ms) < ANALYSIS_IDLE_MS
    }
}

/// What a tick observes: the seconds, the memory in use up to a hundred, and
/// what is worth a mention: memory above 85 per cent before a user who was away
/// for more than two minutes.
pub proof fn ticks_observe(now_ms: u64, mem_pct: u32, last_input_ms: u64)
    requires
        now_ms / 1000 <= u32::MAX,
        last_input_ms <= now_ms,
    ensures
        ({
            let o = tick_summary(now_ms, mem_pct, last_input_ms);
            &&& o.timestamp_s == now_ms / 1000
            &&& mem_pct <= 100 ==> o.mem_pct == mem_pct
            &&& mem_pct > 100 ==> o.mem_pct == 100
            &&& o.event_tag == 1 <==> mem_pct > 85
            &&& o.event_tag == 2 <==> mem_pct <= 85 && now_ms - last_input_ms > 120_000
            &&& o.event_tag == 0 <==> mem_pct <= 85 && now_ms - last_input_ms <= 120_000
        }),
{
}

/// The words for what was observed.
pub proof fn events_have_names(tag: u8)
    ensures
        event_name(0) == "TICK"@,
        event_name(1) == "MEM_WARNING"@,
        event_name(2) == "IDLE"@,
        event_name(3) == "BOOT"@,
        tag > 3 ==> event_name(tag) == "TICK"@,
{
}

/// One observation is one line of a prompt, and the lines of several follow
/// each other in order.
pub proof fn observations_are_lines(s: Seq<ObservationSummary>, o: ObservationSummary)
    ensures
        observation_lines(Seq::empty()).len() == 0,
        observation_lines(s.push(o)) == observation_lines(s) + observation_line(o),
        observation_line(o) == "  T+"@ + dec_chars(o.timestamp_s as nat) + "s: RAM="@ + dec_chars(
            o.mem_pct as nat,
        ) + "% event="@ + event_name(o.event_tag) + "\n"@,
{
    assert(s.push(o).drop_last() =~= s);
}

/// A prompt looks at the last observations: at all of them where they are no
/// more than that many.
pub proof fn tails_are_last(s: Seq<ObservationSummary>, n: int)
    requires
        0 <= n,
    ensures
        tail(s, n).is_suffix_of(s),
        s.len() <= n ==> tail(s, n).len() == s.len(),
        s.len() > n ==> tail(s, n).len() == n,
{
    if s.len() <= n {
        assert(s.subrange(0, s.len() as int) =~= s);
    }
}

} // verus!

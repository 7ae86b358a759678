//! The service loop of the agent: commands, ticks, and what it publishes.
use vstd::prelude::*;
use vstd::string::*;
use vstd::utf8::*;

use crate::bytes::{le16, le16_bytes, le32, le32_bytes, read_le16, read_le32};
use crate::draug::{
    next_skill, AsyncPhase, DraugDaemon, DreamMode, ANALYSIS_BATCH, DREAM_COOLDOWN_MS,
    DREAM_IDLE_DAY_MS, DREAM_IDLE_NIGHT_MS, DREAM_MAX_PER_SESSION, KNOWLEDGE_HUNT_IDLE_MS,
    PATTERN_MINE_COOLDOWN_MS, PATTERN_MINE_IDLE_MS, TASK_COUNT, TICK_INTERVAL_MS,
};
use crate::draug_analysis::{
    appended, tick_summary, ANALYSIS_COOLDOWN_MS, ANALYSIS_IDLE_MS, MAX_ANALYSES,
};
use crate::dream::{hash_of, journaled, night, texts};
use crate::friction::{
    decayed, elapsed, signalled, FrictionTracker, FRICTION_DECAY_MS, FRICTION_QUICK_CLOSE,
};
use crate::text::{str_eq, text_of};

verus! {

broadcast use vstd::seq_lib::group_seq_properties;

/// Keys in one dream request.
pub const DREAM_DECIDE_MAX_KEYS: usize = 32;

/// Bytes of one key.
pub const DREAM_DECIDE_MAX_KEY_LEN: usize = 64;

/// Bytes of a dream request that are looked at.
pub const DREAM_DECIDE_MAX_SHMEM_BYTES: usize = 4096;

/// How a dream ended.
#[derive(Debug, Clone, Copy, PartialEq, Eq, Structural)]
pub enum DreamEnd {
    Complete,
    Cancel,
    Unknown,
}

/// A command to the agent.
#[derive(Debug, Clone, Copy, PartialEq, Eq, Structural)]
pub enum DraugCommand {
    Ping,
    UserInput { ms: u64 },
    /// An app crashed; its hash has 48 bits.
    WasmCrash { hash48: u64 },
    InstallRefactorTasks,
    GetStatusHandle,
    FrictionSignal { hash: u32, weight: u16 },
    DreamResult { end: DreamEnd },
    Unknown,
}

/// The reply to a command.
#[derive(Debug, Clone, Copy, PartialEq, Eq, Structural)]
pub enum DraugReply {
    Version,
    Done,
    Refused,
    Handle { handle: u32 },
}

/// A 48-bit hash folded into 32 bits.
pub open spec fn folded(h: u64) -> u32 {
    ((h % 0x1_0000_0000) as u32) ^ ((h / 0x1_0000_0000) as u32)
}

/// Executes a command. `status_handle` is the handle of the published status,
/// 0 for none.
pub fn handle_command(
    cmd: DraugCommand,
    draug: &mut DraugDaemon,
    status_handle: u32,
    now_ms: u64,
) -> (r: DraugReply)
    requires
        cmd == (DraugCommand::DreamResult { end: DreamEnd::Complete }) ==> old(draug).dream_count
            < u32::MAX,
    ensures
        match cmd {
            DraugCommand::Ping => r == DraugReply::Version && *final(draug) == *old(draug),
            DraugCommand::UserInput { ms } => r == DraugReply::Done && *final(draug) == (
            DraugDaemon { last_user_input_ms: ms, ..*old(draug) }),
            DraugCommand::WasmCrash { hash48 } => r == DraugReply::Done
                && final(draug).friction.scores@ == signalled(
                old(draug).friction.scores@,
                folded(hash48),
                FRICTION_QUICK_CLOSE,
            ) && *final(draug) == (DraugDaemon {
                friction: FrictionTracker {
                    scores: final(draug).friction.scores,
                    ..old(draug).friction
                },
                ..*old(draug)
            }),
            DraugCommand::InstallRefactorTasks => r == DraugReply::Done && *final(draug) == *old(
                draug,
            ),
            DraugCommand::GetStatusHandle => *final(draug) == *old(draug) && r == (
            if status_handle == 0 {
                DraugReply::Refused
            } else {
                DraugReply::Handle { handle: status_handle }
            }),
            DraugCommand::FrictionSignal { hash, weight } => r == DraugReply::Done
                && final(draug).friction.scores@ == signalled(
                old(draug).friction.scores@,
                hash,
                weight,
            ) && *final(draug) == (DraugDaemon {
                friction: FrictionTracker {
                    scores: final(draug).friction.scores,
                    ..old(draug).friction
                },
                ..*old(draug)
            }),
            DraugCommand::DreamResult { end } => match end {
                DreamEnd::Complete => r == DraugReply::Done && *final(draug) == (DraugDaemon {
                    dreaming: false,
                    dream_count: (old(draug).dream_count + 1) as u32,
                    last_dream_ms: now_ms,
                    dream_target: None,
                    ..*old(draug)
                }),
                DreamEnd::Cancel => r == DraugReply::Done && *final(draug) == (if old(
                    draug,
                ).dreaming {
                    DraugDaemon { dreaming: false, dream_target: None, ..*old(draug) }
                } else {
                    *old(draug)
                }),
                DreamEnd::Unknown => r == DraugReply::Refused && *final(draug) == *old(draug),
            },
            DraugCommand::Unknown => r == DraugReply::Refused && *final(draug) == *old(draug),
        },
{
    match cmd {
        DraugCommand::Ping => DraugReply::Version,
        DraugCommand::UserInput { ms } => {
            draug.on_user_input(ms);
            DraugReply::Done
        },
        DraugCommand::WasmCrash { hash48 } => {
            let key_hash: u32 = ((hash48 % 0x1_0000_0000) as u32) ^ ((hash48
                / 0x1_0000_0000) as u32);
            draug.friction.record_signal(key_hash, FRICTION_QUICK_CLOSE);
            DraugReply::Done
        },
        DraugCommand::InstallRefactorTasks => DraugReply::Done,
        DraugCommand::GetStatusHandle => {
            if status_handle == 0 {
                DraugReply::Refused
            } else {
                DraugReply::Handle { handle: status_handle }
            }
        },
        DraugCommand::FrictionSignal { hash, weight } => {
            draug.friction.record_signal(hash, weight);
            DraugReply::Done
        },
        DraugCommand::DreamResult { end } => match end {
            DreamEnd::Complete => {
                draug.on_dream_complete(now_ms);
                DraugReply::Done
            },
            DreamEnd::Cancel => {
                draug.wake_up();
                DraugReply::Done
            },
            DreamEnd::Unknown => DraugReply::Refused,
        },
        DraugCommand::Unknown => DraugReply::Refused,
    }
}

// ---------------------------------------------------------------------
// Dream requests
// ---------------------------------------------------------------------

/// The keys of a request from offset `p` on; `None` where it is malformed. A
/// key is its length, two reserved bytes, and that many bytes of UTF-8.
pub open spec fn keys_from(buf: Seq<u8>, p: int, n: int) -> Option<Seq<Seq<char>>>
    decreases n,
{
    if n <= 0 {
        Some(Seq::empty())
    } else if p + 4 > buf.len() {
        None
    } else {
        let len = le16(buf, p);
        if len == 0 || len > DREAM_DECIDE_MAX_KEY_LEN || p + 4 + len > buf.len() {
            None
        } else {
            let bytes = buf.subrange(p + 4, p + 4 + len);
            if !valid_utf8(bytes) {
                None
            } else {
                match keys_from(buf, p + 4 + len, n - 1) {
                    Some(rest) => Some(seq![decode_utf8(bytes)] + rest),
                    None => None,
                }
            }
        }
    }
}

/// The keys of a request: their number and a reserved word, then the keys.
pub open spec fn request_keys(buf: Seq<u8>) -> Option<Seq<Seq<char>>> {
    if buf.len() < 8 {
        None
    } else {
        let n = le32(buf, 0);
        if n == 0 || n > DREAM_DECIDE_MAX_KEYS {
            None
        } else {
            keys_from(buf, 8, n)
        }
    }
}

/// The texts of owned strings.
pub open spec fn owned_texts(s: Seq<String>) -> Seq<Seq<char>> {
    Seq::new(s.len(), |i: int| s[i]@)
}

/// Decodes the keys of a request.
pub fn parse_dream_keys(buf: &[u8]) -> (r: Option<Vec<String>>)
    ensures
        match r {
            Some(keys) => request_keys(buf@) == Some(owned_texts(keys@)) && 0 < keys@.len()
                <= DREAM_DECIDE_MAX_KEYS,
            None => request_keys(buf@) is None,
        },
{
    if buf.len() < 8 {
        return None;
    }
    let n: u32 = read_le32(buf, 0);
    if n == 0 || n as usize > DREAM_DECIDE_MAX_KEYS {
        return None;
    }
    let mut keys: Vec<String> = Vec::new();
    let mut off: usize = 8;
    let mut i: u32 = 0;
    assert(owned_texts(keys@) =~= Seq::<Seq<char>>::empty());
    while i < n
        invariant
            i <= n <= DREAM_DECIDE_MAX_KEYS,
            keys@.len() == i,
            off <= buf.len(),
            request_keys(buf@) == keys_from(buf@, 8, n as int),
            match keys_from(buf@, off as int, n - i) {
                Some(rest) => keys_from(buf@, 8, n as int) == Some(owned_texts(keys@) + rest),
                None => keys_from(buf@, 8, n as int) is None,
            },
        decreases n - i,
    {
        if buf.len() - off < 4 {
            return None;
        }
        let len: usize = read_le16(buf, off) as usize;
        off = off + 4;
        if len == 0 || len > DREAM_DECIDE_MAX_KEY_LEN || buf.len() - off < len {
            return None;
        }
        let ghost before = owned_texts(keys@);
        match text_of(buf, off, off + len) {
            Some(s) => {
                keys.push(s);
                proof {
                    assert(owned_texts(keys@) =~= before.push(s@));
                    match keys_from(buf@, off + len, n - i - 1) {
                        Some(rest) => {
                            assert(before + (seq![s@] + rest) =~= owned_texts(keys@) + rest);
                        },
                        None => {},
                    }
                }
            },
            None => {
                return None;
            },
        }
        off = off + len;
        i = i + 1;
    }
    assert(owned_texts(keys@) + Seq::<Seq<char>>::empty() =~= owned_texts(keys@));
    Some(keys)
}

/// The reply to a dream request.
#[derive(Debug, Clone, Copy, PartialEq, Eq, Structural)]
pub enum DreamReply {
    /// The request is malformed.
    Refused,
    /// No dream now.
    Skip { dream_count: u32 },
    /// Dream about the key with this index.
    Dream { mode: DreamMode, index: u16, dream_count: u32 },
}

/// The first place of a key.
pub open spec fn place_of(keys: Seq<Seq<char>>, key: Seq<char>, i: int) -> Option<int>
    decreases keys.len() - i,
{
    if i >= keys.len() {
        None
    } else if keys[i] == key {
        Some(i)
    } else {
        place_of(keys, key, i + 1)
    }
}

proof fn lemma_place_of(keys: Seq<Seq<char>>, k: int, i: int)
    requires
        0 <= i <= k < keys.len(),
    ensures
        place_of(keys, keys[k], i) matches Some(j) && i <= j <= k && keys[j] == keys[k],
    decreases k - i,
{
    if i < k && keys[i] != keys[k] {
        lemma_place_of(keys, k, i + 1);
    }
}

fn find_place(keys: &[&str], key: &str) -> (r: Option<usize>)
    ensures
        match r {
            Some(i) => i < keys@.len() && place_of(texts(keys@), key@, 0) == Some(i as int),
            None => place_of(texts(keys@), key@, 0) is None,
        },
{
    let mut i: usize = 0;
    while i < keys.len()
        invariant
            i <= keys.len(),
            place_of(texts(keys@), key@, 0) == place_of(texts(keys@), key@, i as int),
        decreases keys.len() - i,
    {
        if str_eq(keys[i], key) {
            return Some(i);
        }
        i = i + 1;
    }
    None
}

fn borrow_all<'a>(owned: &'a Vec<String>) -> (r: Vec<&'a str>)
    ensures
        texts(r@) == owned_texts(owned@),
{
    let mut keys: Vec<&'a str> = Vec::new();
    let mut i: usize = 0;
    while i < owned.len()
        invariant
            i <= owned.len(),
            keys@.len() == i,
            forall|k: int| 0 <= k < i ==> (#[trigger] keys@[k])@ == owned@[k]@,
        decreases owned.len() - i,
    {
        keys.push(owned[i].as_str());
        i = i + 1;
    }
    assert(texts(keys@) =~= owned_texts(owned@));
    keys
}

/// Decodes a dream request, decides, and enters the dream.
pub fn parse_and_decide(draug: &mut DraugDaemon, buf: &[u8], now_ms: u64, hour: u8) -> (r:
    DreamReply)
    ensures
        match request_keys(buf@) {
            None => r == DreamReply::Refused && *final(draug) == *old(draug),
            Some(keys) => match old(draug).dream_choice(keys, hour) {
                None => r == (DreamReply::Skip { dream_count: old(draug).dream_count })
                    && *final(draug) == *old(draug),
                Some((i, mode)) => {
                    &&& 0 <= i < keys.len()
                    &&& r matches DreamReply::Dream { mode: m, index, dream_count } && m == mode
                        && dream_count == old(draug).dream_count && index <= i && keys[index as int]
                        == keys[i] && place_of(keys, keys[i], 0) == Some(index as int)
                    &&& final(draug).dream_target matches Some(t) && t@ == keys[i]
                    &&& final(draug).dream_journal@ == journaled(
                        old(draug).dream_journal@,
                        hash_of(keys[i]),
                        old(draug).dream_count,
                    )
                    &&& *final(draug) == (DraugDaemon {
                        dream_journal: final(draug).dream_journal,
                        dream_target: final(draug).dream_target,
                        dream_mode: mode,
                        dreaming: true,
                        last_dream_ms: now_ms,
                        ..*old(draug)
                    })
                },
            },
        },
{
    let owned = match parse_dream_keys(buf) {
        Some(k) => k,
        None => {
            return DreamReply::Refused;
        },
    };
    let keys = borrow_all(&owned);
    let ghost ks = texts(keys@);
    let dream_count: u32 = draug.dream_count();
    match draug.start_dream(keys.as_slice(), now_ms, hour) {
        None => DreamReply::Skip { dream_count },
        Some((target, mode)) => {
            proof {
                let i = old(draug).dream_choice(ks, hour).unwrap().0;
                assert(ks[i] == target@);
                lemma_place_of(ks, i, 0);
            }
            match find_place(keys.as_slice(), target.as_str()) {
                Some(at) => DreamReply::Dream {
                    mode,
                    index: at as u16,
                    dream_count: draug.dream_count(),
                },
                None => DreamReply::Refused,
            }
        },
    }
}

// ---------------------------------------------------------------------
// Ticks
// ---------------------------------------------------------------------

/// What one round of ticks looks at, in this order.
#[derive(Debug, Clone, Copy, PartialEq, Eq, Structural)]
pub enum TickStage {
    Telemetry,
    Analysis,
    Mining,
    Hunt,
    Refactor,
}

/// What the caller does in a stage.
#[derive(Debug, Clone, Copy, PartialEq, Eq, Structural)]
pub enum TickAction {
    Nothing,
    StartAnalysis,
    MinePatterns,
    HuntKnowledge,
    /// Advance the exchange that is under way, or begin one.
    AdvanceExchange,
}

impl DraugDaemon {
    pub open spec fn analysis_due(self, now_ms: u64) -> bool {
        self.active && !self.waiting_for_llm && self.log_count >= ANALYSIS_BATCH
            && self.analysis_count < MAX_ANALYSES && elapsed(now_ms, self.last_user_input_ms)
            > ANALYSIS_IDLE_MS && elapsed(now_ms, self.last_analysis_ms) > ANALYSIS_COOLDOWN_MS
    }

    pub open spec fn mining_due(self, now_ms: u64) -> bool {
        self.active && !self.dreaming && !self.waiting_for_llm && elapsed(
            now_ms,
            self.last_user_input_ms,
        ) > PATTERN_MINE_IDLE_MS && elapsed(now_ms, self.last_pattern_mine_ms)
            > PATTERN_MINE_COOLDOWN_MS
    }

    pub open spec fn hunt_due(self, now_ms: u64) -> bool {
        !self.knowledge_hunted && self.active && !self.dreaming && !self.waiting_for_llm && elapsed(
            now_ms,
            self.last_user_input_ms,
        ) >= KNOWLEDGE_HUNT_IDLE_MS
    }

    pub open spec fn dream_due(self, now_ms: u64, hour: u8) -> bool {
        self.active && !self.dreaming && !self.waiting_for_llm && self.dream_count
            < DREAM_MAX_PER_SESSION && elapsed(now_ms, self.last_user_input_ms) > (if night(hour) {
            DREAM_IDLE_NIGHT_MS
        } else {
            DREAM_IDLE_DAY_MS
        }) && elapsed(now_ms, self.last_dream_ms) > DREAM_COOLDOWN_MS
    }
}

/// One stage of a round of ticks. `mem_pct` is the share of memory in use;
/// `reachable` is as for `should_run_refactor_step`. An exchange that is under
/// way goes before a new analysis and a new iteration.
pub fn run_draug_tick(
    draug: &mut DraugDaemon,
    stage: TickStage,
    now_ms: u64,
    mem_pct: u32,
    reachable: bool,
) -> (r: TickAction)
    requires
        old(draug).log_wf(),
    ensures
        final(draug).log_wf(),
        match stage {
            TickStage::Telemetry => r == TickAction::Nothing && (if old(draug).active && elapsed(
                now_ms,
                old(draug).last_tick_ms,
            ) >= TICK_INTERVAL_MS {
                &&& *final(draug) == (DraugDaemon {
                    last_tick_ms: now_ms,
                    friction: final(draug).friction,
                    log: final(draug).log,
                    log_head: final(draug).log_head,
                    log_count: final(draug).log_count,
                    ..*old(draug)
                })
                &&& final(draug).entries() == appended(
                    old(draug).entries(),
                    tick_summary(now_ms, mem_pct, old(draug).last_user_input_ms),
                )
                &&& if elapsed(now_ms, old(draug).friction.last_decay_ms) < FRICTION_DECAY_MS {
                    final(draug).friction == old(draug).friction
                } else {
                    final(draug).friction.last_decay_ms == now_ms && final(draug).friction.scores@
                        == decayed(old(draug).friction.scores@)
                }
            } else {
                *final(draug) == *old(draug)
            }),
            TickStage::Analysis => *final(draug) == *old(draug) && r == (if old(draug).async_phase
                == AsyncPhase::Idle && old(draug).analysis_due(now_ms) {
                TickAction::StartAnalysis
            } else {
                TickAction::Nothing
            }),
            TickStage::Mining => *final(draug) == *old(draug) && r == (if old(draug).mining_due(
                now_ms,
            ) {
                TickAction::MinePatterns
            } else {
                TickAction::Nothing
            }),
            TickStage::Hunt => *final(draug) == *old(draug) && r == (if old(draug).hunt_due(
                now_ms,
            ) {
                TickAction::HuntKnowledge
            } else {
                TickAction::Nothing
            }),
            TickStage::Refactor => if old(draug).async_phase != AsyncPhase::Idle {
                r == TickAction::AdvanceExchange && *final(draug) == *old(draug)
            } else {
                *final(draug) == (if old(draug).ping_due(now_ms, mem_pct) {
                    if reachable {
                        DraugDaemon {
                            last_refactor_ms: now_ms,
                            consecutive_skips: 0,
                            refactor_hibernating: false,
                            ..*old(draug)
                        }
                    } else {
                        DraugDaemon { last_refactor_ms: now_ms, ..*old(draug) }
                    }
                } else {
                    *old(draug)
                }) && r == (if old(draug).may_refactor(mem_pct)
                    && !final(draug).refactor_hibernating && final(draug).step_due(now_ms) {
                    TickAction::AdvanceExchange
                } else {
                    TickAction::Nothing
                })
            },
        },
{
    match stage {
        TickStage::Telemetry => {
            if draug.should_tick(now_ms) {
                draug.tick(now_ms, mem_pct);
            }
            TickAction::Nothing
        },
        TickStage::Analysis => {
            if draug.async_phase == AsyncPhase::Idle && draug.should_analyze(now_ms) {
                TickAction::StartAnalysis
            } else {
                TickAction::Nothing
            }
        },
        TickStage::Mining => {
            if draug.should_mine_patterns(now_ms) && !draug.should_yield_tokens(false, now_ms) {
                TickAction::MinePatterns
            } else {
                TickAction::Nothing
            }
        },
        TickStage::Hunt => {
            if draug.should_hunt_knowledge(now_ms) {
                TickAction::HuntKnowledge
            } else {
                TickAction::Nothing
            }
        },
        TickStage::Refactor => {
            if draug.async_phase != AsyncPhase::Idle {
                TickAction::AdvanceExchange
            } else if draug.should_run_refactor_step(now_ms, mem_pct, reachable) {
                TickAction::AdvanceExchange
            } else {
                TickAction::Nothing
            }
        },
    }
}

/// What the agent publishes about itself.
pub struct DraugStatus {
    pub refactor_iter: u32,
    pub refactor_passed: u32,
    pub refactor_failed: u32,
    pub refactor_retries: u32,
    pub complex_task_idx: usize,
    pub consecutive_skips: u32,
    pub last_input_ms: u64,
    pub tasks_at_l1: usize,
    pub tasks_at_l2: usize,
    pub tasks_at_l3: usize,
    pub task_levels: [u8; 20],
    pub plan_mode_active: bool,
    pub refactor_hibernating: bool,
    pub waiting_for_llm: bool,
    pub dream_ready: bool,
    pub skill_tree_has_work: bool,
}

/// The status of the agent.
pub fn publish_status(draug: &DraugDaemon, now_ms: u64, hour: u8) -> (r: DraugStatus)
    ensures
        r.refactor_iter == draug.refactor_iter,
        r.refactor_passed == draug.refactor_passed,
        r.refactor_failed == draug.refactor_failed,
        r.refactor_retries == draug.refactor_retries,
        r.complex_task_idx == draug.complex_task_idx,
        r.consecutive_skips == draug.consecutive_skips,
        r.last_input_ms == draug.last_user_input_ms,
        r.tasks_at_l1 == crate::draug::count_at(draug.task_levels@, 1, TASK_COUNT as int),
        r.tasks_at_l2 == crate::draug::count_at(draug.task_levels@, 2, TASK_COUNT as int),
        r.tasks_at_l3 == crate::draug::count_at(draug.task_levels@, 3, TASK_COUNT as int),
        r.task_levels@ == draug.task_levels@,
        r.plan_mode_active == draug.plan_mode_active,
        r.refactor_hibernating == draug.refactor_hibernating,
        r.waiting_for_llm == draug.waiting_for_llm,
        r.dream_ready == draug.dream_due(now_ms, hour),
        r.skill_tree_has_work == (next_skill(draug.task_levels@, 1) is Some),
{
    DraugStatus {
        refactor_iter: draug.refactor_iter,
        refactor_passed: draug.refactor_passed,
        refactor_failed: draug.refactor_failed,
        refactor_retries: draug.refactor_retries,
        complex_task_idx: draug.complex_task_idx,
        consecutive_skips: draug.consecutive_skips,
        last_input_ms: draug.last_input_ms(),
        tasks_at_l1: draug.tasks_at_level(1),
        tasks_at_l2: draug.tasks_at_level(2),
        tasks_at_l3: draug.tasks_at_level(3),
        task_levels: draug.task_levels,
        plan_mode_active: draug.plan_mode_active,
        refactor_hibernating: draug.refactor_hibernating,
        waiting_for_llm: draug.is_waiting(),
        dream_ready: draug.should_dream(now_ms, hour),
        skill_tree_has_work: draug.next_task_and_level().is_some(),
    }
}

/// A paused agent, and one whose user is active, starts nothing on its own.
pub proof fn agent_never_interrupts(d: DraugDaemon, now_ms: u64, mem_pct: u32, hour: u8)
    requires
        !d.active || elapsed(now_ms, d.last_user_input_ms) < KNOWLEDGE_HUNT_IDLE_MS,
    ensures
        !d.analysis_due(now_ms),
        !d.mining_due(now_ms),
        !d.hunt_due(now_ms),
        !d.dream_due(now_ms, hour),
        !(d.may_refactor(mem_pct) && d.step_due(now_ms)),
{
}

// ---------------------------------------------------------------------
// What requests and the times of work mean
// ---------------------------------------------------------------------

/// A hash of 48 bits is folded by laying its upper part over its lower one.
pub proof fn hashes_are_folded(low: u32, high: u32)
    ensures
        high < 0x1_0000 ==> folded((high * 0x1_0000_0000 + low) as u64) == low ^ high,
{
    if high < 0x1_0000 {
        let h = (high * 0x1_0000_0000 + low) as u64;
        assert(h % 0x1_0000_0000 == low);
        assert(h / 0x1_0000_0000 == high);
    }
}

/// The bytes of keys in a request: for each its length in two bytes, two
/// reserved bytes, and its UTF-8.
pub open spec fn key_bytes(keys: Seq<Seq<char>>, r: u16) -> Seq<u8>
    decreases keys.len(),
{
    if keys.len() == 0 {
        Seq::empty()
    } else {
        le16_bytes(encode_utf8(keys[0]).len() as u16) + le16_bytes(r) + encode_utf8(keys[0])
            + key_bytes(keys.drop_first(), r)
    }
}

#[verifier::rlimit(40)]
proof fn lemma_keys_read_back(front: Seq<u8>, keys: Seq<Seq<char>>, r: u16, rest: Seq<u8>)
    requires
        forall|i: int| 0 <= i < keys.len() ==> 0 < encode_utf8(#[trigger] keys[i]).len() <= 64,
    ensures
        keys_from(
            front + key_bytes(keys, r) + rest,
            front.len() as int,
            keys.len() as int,
        ) == Some(keys),
    decreases keys.len(),
{
    let buf = front + key_bytes(keys, r) + rest;
    let p = front.len() as int;
    if keys.len() == 0 {
        assert(keys =~= Seq::<Seq<char>>::empty());
    } else {
        let b = encode_utf8(keys[0]);
        let less = keys.drop_first();
        let len = b.len() as u16;
        let head = le16_bytes(len) + le16_bytes(r) + b;
        let more = front + head;
        assert(0 < b.len() <= 64);
        assert(head.len() == 4 + b.len());
        assert(key_bytes(keys, r) =~= head + key_bytes(less, r));
        assert(buf =~= more + key_bytes(less, r) + rest);
        assert(buf.subrange(p, p + 2) =~= le16_bytes(len));
        crate::bytes::le16_round_trip(buf, p, len);
        assert(buf.subrange(p + 4, p + 4 + len) =~= b);
        assert forall|i: int| 0 <= i < less.len() implies 0 < encode_utf8(#[trigger] less[i]).len()
            <= 64 by {
            assert(less[i] == keys[i + 1]);
        }
        encode_utf8_valid_utf8(keys[0]);
        encode_utf8_decode_utf8(keys[0]);
        lemma_keys_read_back(more, less, r, rest);
        assert(seq![keys[0]] + less =~= keys);
    }
}

/// A request with up to 32 keys of up to 64 bytes reads back, whatever stands
/// in its reserved places and behind it.
#[verifier::rlimit(40)]
pub proof fn dream_requests_read_back(keys: Seq<Seq<char>>, word: u32, r: u16, rest: Seq<u8>)
    requires
        0 < keys.len() <= 32,
        forall|i: int| 0 <= i < keys.len() ==> 0 < encode_utf8(#[trigger] keys[i]).len() <= 64,
    ensures
        request_keys(
            le32_bytes(keys.len() as u32) + le32_bytes(word) + key_bytes(keys, r) + rest,
        ) == Some(keys),
{
    let front = le32_bytes(keys.len() as u32) + le32_bytes(word);
    let buf = front + key_bytes(keys, r) + rest;
    assert(buf.subrange(0, 4) =~= le32_bytes(keys.len() as u32));
    crate::bytes::le32_round_trip(buf, 0, keys.len() as u32);
    lemma_keys_read_back(front, keys, r, rest);
}

/// What is refused: a request without a header, without keys or with more than
/// 32; and behind the header one whose first key is cut off, empty, longer than
/// 64 bytes, or no UTF-8.
pub proof fn malformed_requests_are_refused(buf: Seq<u8>)
    ensures
        buf.len() < 8 ==> request_keys(buf) is None,
        buf.len() >= 8 && (le32(buf, 0) == 0 || le32(buf, 0) > 32) ==> request_keys(buf) is None,
        8 <= buf.len() < 12 ==> request_keys(buf) is None,
        buf.len() >= 12 && (le16(buf, 8) == 0 || le16(buf, 8) > 64 || 12 + le16(buf, 8) > buf.len()
            || !valid_utf8(buf.subrange(12, 12 + le16(buf, 8)))) ==> request_keys(buf) is None,
{
    reveal_with_fuel(keys_from, 2);
}

/// The first place of a key that is there.
pub proof fn first_place_of_a_key(keys: Seq<Seq<char>>, key: Seq<char>, i: int)
    requires
        0 <= i,
    ensures
        match place_of(keys, key, i) {
            Some(k) => i <= k < keys.len() && keys[k] == key && forall|j: int|
                i <= j < k ==> #[trigger] keys[j] != key,
            None => forall|j: int| i <= j < keys.len() ==> #[trigger] keys[j] != key,
        },
    decreases keys.len() - i,
{
    if i < keys.len() && keys[i] != key {
        first_place_of_a_key(keys, key, i + 1);
    }
}

/// An analysis is due exactly where the agent is active and waits for no reply,
/// has seen three things, has made fewer than five analyses, the user was away
/// for more than half a minute, and the last one is more than five minutes ago.
pub proof fn analyses_in_numbers(d: DraugDaemon, now_ms: u64)
    ensures
        d.analysis_due(now_ms) <==> d.active && !d.waiting_for_llm && d.log_count >= 3
            && d.analysis_count < 5 && now_ms > d.last_user_input_ms + 30_000 && now_ms
            > d.last_analysis_ms + 300_000,
{
}

/// Mining is due exactly where nothing else is under way, the user was away for
/// more than five minutes, and the last run is more than half an hour ago.
pub proof fn mining_in_numbers(d: DraugDaemon, now_ms: u64)
    ensures
        d.mining_due(now_ms) <==> d.active && !d.dreaming && !d.waiting_for_llm && now_ms
            > d.last_user_input_ms + 300_000 && now_ms > d.last_pattern_mine_ms + 1_800_000,
{
}

/// The hunt is due once, where nothing else is under way and the user was away
/// for a quarter of a minute.
pub proof fn hunts_in_numbers(d: DraugDaemon, now_ms: u64)
    requires
        d.last_user_input_ms <= now_ms,
    ensures
        d.hunt_due(now_ms) <==> !d.knowledge_hunted && d.active && !d.dreaming && !d.waiting_for_llm
            && now_ms >= d.last_user_input_ms + 15_000,
{
}

/// A dream is due where nothing else is under way, fewer than ten were dreamt,
/// the last one is more than ten minutes ago, and the user was away for more
/// than five minutes at night, or three quarters of an hour by day.
pub proof fn dreams_in_numbers(d: DraugDaemon, now_ms: u64, hour: u8)
    requires
        hour < 24,
    ensures
        d.dream_due(now_ms, hour) <==> d.active && !d.dreaming && !d.waiting_for_llm
            && d.dream_count < 10 && now_ms > d.last_dream_ms + 600_000 && now_ms
            > d.last_user_input_ms + (if hour == 23 || hour <= 5 {
            300_000int
        } else {
            2_700_000
        }),
{
}

} // verus!

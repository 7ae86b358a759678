//! What the agent keeps across boots: its progress and its level 1 code.
use vstd::prelude::*;
use vstd::string::*;
use vstd::utf8::*;

use crate::bytes::{le32, le32_bytes, le32_round_trip, push_le32, read_le32};
use crate::draug::{DraugDaemon, CODE_MAX_BYTES, COMPLEX_TASK_COUNT, STATE_BYTES, TASK_COUNT};
use crate::text::{dec_chars, push_dec, text_of};

verus! {

broadcast use vstd::seq_lib::group_seq_properties;

/// Name of the state file.
pub const STATE_FILE: &'static str = "draug_state.bin";

/// The stored state: twenty levels, the iteration count, the plan index and
/// the plan mode flag.
pub open spec fn state_bytes(levels: Seq<u8>, iter: u32, idx: int, plan_mode: bool) -> Seq<u8> {
    levels + le32_bytes(iter) + seq![
        (idx % 256) as u8,
        if plan_mode {
            1u8
        } else {
            0u8
        },
    ]
}

/// The plan index that a stored byte stands for; one behind the end is taken
/// for a fresh start.
pub open spec fn stored_index(b: u8) -> int {
    if b <= COMPLEX_TASK_COUNT {
        b as int
    } else {
        0
    }
}

/// What was saved is what is restored, for every plan index that occurs.
pub proof fn state_round_trip(levels: Seq<u8>, iter: u32, idx: int, plan_mode: bool)
    requires
        levels.len() == TASK_COUNT,
        0 <= idx <= COMPLEX_TASK_COUNT,
    ensures
        ({
            let s = state_bytes(levels, iter, idx, plan_mode);
            &&& s.len() == STATE_BYTES
            &&& s.subrange(0, 20) == levels
            &&& le32(s, 20) == iter
            &&& stored_index(s[24]) == idx
            &&& (s[25] != 0) == plan_mode
        }),
{
    let s = state_bytes(levels, iter, idx, plan_mode);
    assert(s.subrange(0, 20) =~= levels);
    assert(s.subrange(20, 24) =~= le32_bytes(iter));
    le32_round_trip(s, 20, iter);
}

/// Name of the file that holds the code of a task.
pub open spec fn code_name(idx: int) -> Seq<char> {
    "draug_code_"@ + dec_chars(idx as nat) + ".rs"@
}

/// The name of the file that holds the code of a task.
pub fn code_file_name(idx: usize) -> (r: String)
    ensures
        r@ == code_name(idx as int),
{
    let mut name = "draug_code_".to_owned();
    push_dec(&mut name, idx as u64);
    name.push_str(".rs");
    name
}

impl DraugDaemon {
    /// The bytes of the state file.
    pub fn save_state(&self) -> (r: Vec<u8>)
        ensures
            r@ == state_bytes(
                self.task_levels@,
                self.refactor_iter,
                self.complex_task_idx as int,
                self.plan_mode_active,
            ),
            r@.len() == STATE_BYTES,
    {
        let mut out: Vec<u8> = Vec::new();
        let mut i: usize = 0;
        while i < TASK_COUNT
            invariant
                i <= TASK_COUNT,
                out@ == self.task_levels@.subrange(0, i as int),
            decreases TASK_COUNT - i,
        {
            out.push(self.task_levels[i]);
            i = i + 1;
            assert(self.task_levels@.subrange(0, i as int) =~= self.task_levels@.subrange(
                0,
                i - 1,
            ).push(self.task_levels@[i - 1]));
        }
        assert(out@ =~= self.task_levels@);
        push_le32(&mut out, self.refactor_iter);
        out.push((self.complex_task_idx % 256) as u8);
        out.push(
            if self.plan_mode_active {
                1
            } else {
                0
            },
        );
        assert(out@ =~= state_bytes(
            self.task_levels@,
            self.refactor_iter,
            self.complex_task_idx as int,
            self.plan_mode_active,
        ));
        out
    }

    /// The code file of a task: its name and content, where there is code.
    pub fn save_task_code(&self, idx: usize) -> (r: Option<(String, String)>)
        ensures
            match r {
                Some((name, code)) => idx < TASK_COUNT && name@ == code_name(idx as int)
                    && (self.task_code@[idx as int] matches Some(c) && c@ == code@),
                None => idx >= TASK_COUNT || self.task_code@[idx as int] is None,
            },
    {
        if idx >= TASK_COUNT {
            return None;
        }
        match &self.task_code[idx] {
            Some(code) => Some((code_file_name(idx), code.clone())),
            None => None,
        }
    }

    /// Takes over the state file. False, and nothing changes, where it is too
    /// short. The knowledge hunt is not repeated afterwards.
    pub fn restore_state(&mut self, data: &[u8]) -> (r: bool)
        ensures
            r == (data@.len() >= STATE_BYTES),
            !r ==> *final(self) == *old(self),
            r ==> *final(self) == (DraugDaemon {
                task_levels: final(self).task_levels,
                refactor_iter: le32(data@, 20) as u32,
                complex_task_idx: stored_index(data@[24]) as usize,
                plan_mode_active: data@[25] != 0,
                knowledge_hunted: true,
                ..*old(self)
            }),
            r ==> final(self).task_levels@ == data@.subrange(0, 20),
    {
        if data.len() < STATE_BYTES {
            return false;
        }
        let ghost before = *self;
        let mut i: usize = 0;
        while i < TASK_COUNT
            invariant
                i <= TASK_COUNT,
                data.len() >= STATE_BYTES,
                *self == (DraugDaemon { task_levels: self.task_levels, ..before }),
                forall|k: int| 0 <= k < i ==> self.task_levels@[k] == data@[k],
            decreases TASK_COUNT - i,
        {
            self.task_levels[i] = data[i];
            i = i + 1;
        }
        assert(self.task_levels@ =~= data@.subrange(0, 20));
        self.refactor_iter = read_le32(data, 20);
        let idx: u8 = data[24];
        self.complex_task_idx =
        if idx as usize <= COMPLEX_TASK_COUNT {
            idx as usize
        } else {
            0
        };
        self.plan_mode_active = data[25] != 0;
        self.knowledge_hunted = true;
        true
    }

    /// Whether the code file of a task is worth reading after a restore.
    pub fn wants_task_code(&self, idx: usize) -> (r: bool)
        ensures
            r == (idx < TASK_COUNT && self.task_levels@[idx as int] >= 1),
    {
        idx < TASK_COUNT && self.task_levels[idx] >= 1
    }

    /// Takes over the code file of a task that has completed level 1. Empty,
    /// oversized and undecodable files are left alone.
    pub fn restore_task_code(&mut self, idx: usize, data: &[u8]) -> (r: bool)
        ensures
            r == (idx < TASK_COUNT && old(self).task_levels@[idx as int] >= 1 && 0 < data@.len()
                < CODE_MAX_BYTES && valid_utf8(data@)),
            *final(self) == (DraugDaemon { task_code: final(self).task_code, ..*old(self) }),
            !r ==> final(self).task_code@ == old(self).task_code@,
            r ==> (final(self).task_code@[idx as int] matches Some(c) && c@ == decode_utf8(data@)
                && final(self).task_code@ == old(self).task_code@.update(idx as int, Some(c))),
    {
        if !self.wants_task_code(idx) {
            return false;
        }
        if data.len() == 0 || data.len() >= CODE_MAX_BYTES {
            return false;
        }
        proof {
            assert(data@.subrange(0, data@.len() as int) =~= data@);
        }
        match text_of(data, 0, data.len()) {
            Some(code) => {
                self.task_code[idx] = Some(code);
                true
            },
            None => false,
        }
    }
}

/// Where the state stands in its file: twenty levels, then the iterations, the
/// lowest byte first, the plan index, and the flag.
pub proof fn states_are_laid_out(levels: Seq<u8>, iter: u32, idx: int, plan_mode: bool)
    requires
        levels.len() == 20,
        0 <= idx <= 8,
    ensures
        ({
            let s = state_bytes(levels, iter, idx, plan_mode);
            &&& s.len() == 26
            &&& s.subrange(0, 20) == levels
            &&& s[20] + 256 * s[21] + 65_536 * s[22] + 16_777_216 * s[23] == iter
            &&& s[24] == idx
            &&& s[25] == (if plan_mode {
                1u8
            } else {
                0u8
            })
        }),
        forall|b: u8| b > 8 ==> #[trigger] stored_index(b) == 0,
        forall|b: u8| b <= 8 ==> #[trigger] stored_index(b) == b,
{
    state_round_trip(levels, iter, idx, plan_mode);
    let s = state_bytes(levels, iter, idx, plan_mode);
    assert(s[24] == idx as u8);
}

/// No two tasks share a code file.
#[verifier::rlimit(40)]
pub proof fn code_files_differ(i: nat, j: nat)
    requires
        code_name(i as int) == code_name(j as int),
    ensures
        i == j,
{
    let a = dec_chars(i);
    let b = dec_chars(j);
    let h = "draug_code_"@;
    let e = ".rs"@;
    let s = code_name(i as int);
    assert(s.len() == h.len() + a.len() + e.len());
    assert(s.len() == h.len() + b.len() + e.len());
    assert(a =~= s.subrange(h.len() as int, (h.len() + a.len()) as int));
    assert(b =~= s.subrange(h.len() as int, (h.len() + a.len()) as int));
    crate::text::rendering_is_short(i);
    crate::text::rendering_is_short(j);
    crate::text::dec_round_trip(i);
    crate::text::dec_round_trip(j);
    assert forall|k: int| 0 <= k < crate::text::dec_bytes(i).len() implies crate::text::dec_bytes(
        i,
    )[k] == crate::text::dec_bytes(j)[k] by {
        assert(a[k] == b[k]);
        assert(dec_chars(i)[k] as int == crate::text::dec_bytes(i)[k]);
        assert(dec_chars(j)[k] as int == crate::text::dec_bytes(j)[k]);
    }
    assert(crate::text::dec_bytes(i) =~= crate::text::dec_bytes(j));
}

} // verus!

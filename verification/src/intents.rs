//! The command router: which task handles a command, and what is forwarded.
use vstd::prelude::*;

verus! {

broadcast use vstd::seq_lib::group_seq_properties;

/// Handlers that can be registered.
pub const MAX_HANDLERS: usize = 8;

/// Confidence that a query reports.
pub const QUERY_CONFIDENCE: u64 = 100;

/// One registered handler.
#[derive(Debug, Clone, Copy, PartialEq, Eq, Structural)]
pub struct HandlerEntry {
    pub task_id: u32,
    pub capability_flags: u64,
    pub active: bool,
}

/// What a shell command asks for.
#[derive(Debug, Clone, Copy, PartialEq, Eq, Structural)]
pub enum ShellOp {
    ListFiles,
    CatFile,
    Search,
    Ps,
    Uptime,
    Exec,
    Other,
}

/// What a handler must be able to do.
#[derive(Debug, Clone, Copy, PartialEq, Eq, Structural)]
pub enum Capability {
    FileOps,
    SearchOps,
    ProcessOps,
    SystemOps,
    ExecOps,
}

/// The capability that a command needs.
pub open spec fn needed(op: ShellOp) -> Capability {
    match op {
        ShellOp::ListFiles | ShellOp::CatFile => Capability::FileOps,
        ShellOp::Search => Capability::SearchOps,
        ShellOp::Ps => Capability::ProcessOps,
        ShellOp::Uptime => Capability::SystemOps,
        ShellOp::Exec | ShellOp::Other => Capability::ExecOps,
    }
}

pub fn opcode_to_capability(op: ShellOp) -> (r: Capability)
    ensures
        r == needed(op),
{
    match op {
        ShellOp::ListFiles => Capability::FileOps,
        ShellOp::CatFile => Capability::FileOps,
        ShellOp::Search => Capability::SearchOps,
        ShellOp::Ps => Capability::ProcessOps,
        ShellOp::Uptime => Capability::SystemOps,
        ShellOp::Exec => Capability::ExecOps,
        ShellOp::Other => Capability::ExecOps,
    }
}

/// The first handler at or behind `i` with one of the capabilities.
pub open spec fn handler_at(s: Seq<HandlerEntry>, capability: u64, i: int) -> Option<int>
    decreases s.len() - i,
{
    if i >= s.len() {
        None
    } else if s[i].active && (s[i].capability_flags & capability) != 0 {
        Some(i)
    } else {
        handler_at(s, capability, i + 1)
    }
}

/// The first entry at or behind `i` of a task.
pub open spec fn entry_of(s: Seq<HandlerEntry>, task: u32, i: int) -> Option<int>
    decreases s.len() - i,
{
    if i >= s.len() {
        None
    } else if s[i].task_id == task {
        Some(i)
    } else {
        entry_of(s, task, i + 1)
    }
}

/// The table after a registration: the entry of the task is replaced, or a new
/// one is added where there is room.
pub open spec fn registered(s: Seq<HandlerEntry>, task: u32, flags: u64) -> Seq<HandlerEntry> {
    let entry = HandlerEntry { task_id: task, capability_flags: flags, active: true };
    match entry_of(s, task, 0) {
        Some(i) => s.update(i, entry),
        None => if s.len() < MAX_HANDLERS {
            s.push(entry)
        } else {
            s
        },
    }
}

/// Whether a registration is accepted.
pub open spec fn accepts(s: Seq<HandlerEntry>, task: u32) -> bool {
    entry_of(s, task, 0) is Some || s.len() < MAX_HANDLERS
}

proof fn lemma_entry_of(s: Seq<HandlerEntry>, task: u32, i: int)
    requires
        0 <= i,
    ensures
        match entry_of(s, task, i) {
            Some(k) => i <= k < s.len() && s[k].task_id == task && forall|j: int|
                i <= j < k ==> (#[trigger] s[j]).task_id != task,
            None => forall|j: int| i <= j < s.len() ==> (#[trigger] s[j]).task_id != task,
        },
    decreases s.len() - i,
{
    if i < s.len() && s[i].task_id != task {
        lemma_entry_of(s, task, i + 1);
    }
}

proof fn lemma_handler_at(s: Seq<HandlerEntry>, capability: u64, i: int)
    requires
        0 <= i,
    ensures
        match handler_at(s, capability, i) {
            Some(k) => i <= k < s.len() && s[k].active && (s[k].capability_flags & capability) != 0,
            None => forall|j: int|
                i <= j < s.len() ==> !((#[trigger] s[j]).active && (s[j].capability_flags
                    & capability) != 0),
        },
    decreases s.len() - i,
{
    if i < s.len() && !(s[i].active && (s[i].capability_flags & capability) != 0) {
        lemma_handler_at(s, capability, i + 1);
    }
}

/// After an accepted registration a handler is found for every capability that
/// was registered.
pub proof fn registration_serves(s: Seq<HandlerEntry>, task: u32, flags: u64, capability: u64)
    requires
        accepts(s, task),
        (flags & capability) != 0,
    ensures
        handler_at(registered(s, task, flags), capability, 0) is Some,
{
    lemma_entry_of(s, task, 0);
    let t = registered(s, task, flags);
    lemma_handler_at(t, capability, 0);
    match entry_of(s, task, 0) {
        Some(i) => {
            assert(t[i].active && (t[i].capability_flags & capability) != 0);
        },
        None => {
            let i = s.len() as int;
            assert(t[i].active && (t[i].capability_flags & capability) != 0);
        },
    }
}

/// No task has two entries.
pub open spec fn one_entry_each(s: Seq<HandlerEntry>) -> bool {
    forall|i: int, j: int|
        0 <= i < j < s.len() ==> (#[trigger] s[i]).task_id != (#[trigger] s[j]).task_id
}

/// Registering keeps one entry per task, keeps the entries of all other tasks,
/// and never exceeds the limit.
pub proof fn registration_keeps_others(s: Seq<HandlerEntry>, task: u32, flags: u64)
    requires
        one_entry_each(s),
        s.len() <= MAX_HANDLERS,
    ensures
        one_entry_each(registered(s, task, flags)),
        registered(s, task, flags).len() <= MAX_HANDLERS,
        forall|i: int|
            0 <= i < s.len() && (#[trigger] s[i]).task_id != task ==> registered(s, task, flags)[i]
                == s[i],
{
    lemma_entry_of(s, task, 0);
}

/// The routing table.
pub struct Router {
    pub handlers: Vec<HandlerEntry>,
    pub routes_total: u64,
}

/// A command to forward to a task.
pub struct Forward {
    pub task_id: u32,
    pub request: u64,
}

/// The operation of a message: its lowest byte.
pub fn message_op(payload: u64) -> (r: u8)
    ensures
        r == payload % 256,
{
    (payload % 256) as u8
}

/// The shell operation of a submitted command: the second byte.
pub fn shell_opcode(payload: u64) -> (r: u8)
    ensures
        r == (payload / 256) % 256,
{
    ((payload / 256) % 256) as u8
}

/// The shell request inside a submitted command: the operation and its
/// argument.
pub open spec fn shell_request(payload: u64) -> int {
    (payload / 256) % 256 + 256 * (payload / 65536)
}

/// The forwarded request is the command without its own operation byte.
pub proof fn request_is_the_rest(payload: u64)
    ensures
        shell_request(payload) == payload / 256,
{
}

impl Router {
    pub open spec fn wf(self) -> bool {
        self.handlers@.len() <= MAX_HANDLERS && one_entry_each(self.handlers@)
    }

    /// A router with the shell as its handler for everything.
    pub fn new(shell_task: u32, all_capabilities: u64) -> (r: Self)
        ensures
            r.wf(),
            r.handlers@ == seq![
                HandlerEntry {
                    task_id: shell_task,
                    capability_flags: all_capabilities,
                    active: true,
                },
            ],
            r.routes_total == 0,
    {
        let mut handlers: Vec<HandlerEntry> = Vec::new();
        handlers.push(
            HandlerEntry { task_id: shell_task, capability_flags: all_capabilities, active: true },
        );
        Router { handlers, routes_total: 0 }
    }

    /// The first active handler with one of the capabilities.
    pub fn find_handler(&self, capability: u64) -> (r: Option<u32>)
        ensures
            r == (match handler_at(self.handlers@, capability, 0) {
                Some(i) => Some(self.handlers@[i].task_id),
                None => None,
            }),
    {
        let mut i: usize = 0;
        while i < self.handlers.len()
            invariant
                i <= self.handlers.len(),
                handler_at(self.handlers@, capability, 0) == handler_at(
                    self.handlers@,
                    capability,
                    i as int,
                ),
            decreases self.handlers.len() - i,
        {
            let e: HandlerEntry = self.handlers[i];
            if e.active && (e.capability_flags & capability) != 0 {
                return Some(e.task_id);
            }
            i = i + 1;
        }
        None
    }

    /// Registers the sender with the flags above the lowest 16 bits. False
    /// where the table is full.
    pub fn handle_register(&mut self, sender: u32, payload: u64) -> (r: bool)
        requires
            old(self).wf(),
        ensures
            final(self).wf(),
            r == accepts(old(self).handlers@, sender),
            final(self).handlers@ == registered(old(self).handlers@, sender, payload / 65536),
            final(self).routes_total == old(self).routes_total,
    {
        let flags: u64 = payload / 65536;
        proof {
            registration_keeps_others(self.handlers@, sender, flags);
        }
        let mut i: usize = 0;
        while i < self.handlers.len()
            invariant
                i <= self.handlers.len(),
                *self == *old(self),
                flags == payload / 65536,
                one_entry_each(registered(self.handlers@, sender, flags)),
                self.handlers@.len() <= MAX_HANDLERS,
                entry_of(self.handlers@, sender, 0) == entry_of(self.handlers@, sender, i as int),
            decreases self.handlers.len() - i,
        {
            if self.handlers[i].task_id == sender {
                self.handlers.set(
                    i,
                    HandlerEntry { task_id: sender, capability_flags: flags, active: true },
                );
                return true;
            }
            i = i + 1;
        }
        if self.handlers.len() < MAX_HANDLERS {
            self.handlers.push(
                HandlerEntry { task_id: sender, capability_flags: flags, active: true },
            );
            true
        } else {
            false
        }
    }

    /// Where a submitted command goes: to a handler with the capability it
    /// needs, else to the shell.
    pub fn handle_submit(&mut self, payload: u64, required_cap: u64, shell_task: u32) -> (r:
        Forward)
        requires
            old(self).routes_total < u64::MAX,
        ensures
            final(self).handlers@ == old(self).handlers@,
            final(self).routes_total == old(self).routes_total + 1,
            r.request == shell_request(payload),
            r.task_id == (match handler_at(old(self).handlers@, required_cap, 0) {
                Some(i) => old(self).handlers@[i].task_id,
                None => shell_task,
            }),
    {
        self.routes_total = self.routes_total + 1;
        let opcode: u64 = (payload / 256) % 256;
        let arg: u64 = payload / 65536;
        let task_id: u32 = match self.find_handler(required_cap) {
            Some(id) => id,
            None => shell_task,
        };
        Forward { task_id, request: opcode + 256 * arg }
    }

    /// The reply to a query: the handler for commands and the confidence in
    /// the upper half; `None` where there is no handler.
    pub fn handle_query(&self, exec_cap: u64) -> (r: Option<u64>)
        ensures
            match handler_at(self.handlers@, exec_cap, 0) {
                Some(i) => r == Some(
                    (self.handlers@[i].task_id + QUERY_CONFIDENCE * 0x1_0000_0000) as u64,
                ),
                None => r is None,
            },
    {
        match self.find_handler(exec_cap) {
            Some(id) => Some(id as u64 + QUERY_CONFIDENCE * 0x1_0000_0000),
            None => None,
        }
    }
}

/// What each command needs of its handler.
pub proof fn commands_need_their_capability()
    ensures
        needed(ShellOp::ListFiles) == Capability::FileOps,
        needed(ShellOp::CatFile) == Capability::FileOps,
        needed(ShellOp::Search) == Capability::SearchOps,
        needed(ShellOp::Ps) == Capability::ProcessOps,
        needed(ShellOp::Uptime) == Capability::SystemOps,
        needed(ShellOp::Exec) == Capability::ExecOps,
        needed(ShellOp::Other) == Capability::ExecOps,
{
}

/// The handler of a capability is the first active entry that has it, and there
/// is none only where no active entry has it.
pub proof fn first_capable_entry_serves(s: Seq<HandlerEntry>, capability: u64)
    ensures
        match handler_at(s, capability, 0) {
            Some(k) => {
                &&& 0 <= k < s.len()
                &&& s[k].active
                &&& (s[k].capability_flags & capability) != 0
                &&& forall|j: int|
                    0 <= j < k ==> !((#[trigger] s[j]).active && (s[j].capability_flags
                        & capability) != 0)
            },
            None => forall|j: int|
                0 <= j < s.len() ==> !((#[trigger] s[j]).active && (s[j].capability_flags
                    & capability) != 0),
        },
{
    lemma_first_capable(s, capability, 0);
}

proof fn lemma_first_capable(s: Seq<HandlerEntry>, capability: u64, i: int)
    requires
        0 <= i,
    ensures
        match handler_at(s, capability, i) {
            Some(k) => {
                &&& i <= k < s.len()
                &&& s[k].active
                &&& (s[k].capability_flags & capability) != 0
                &&& forall|j: int|
                    i <= j < k ==> !((#[trigger] s[j]).active && (s[j].capability_flags
                        & capability) != 0)
            },
            None => forall|j: int|
                i <= j < s.len() ==> !((#[trigger] s[j]).active && (s[j].capability_flags
                    & capability) != 0),
        },
    decreases s.len() - i,
{
    if i < s.len() && !(s[i].active && (s[i].capability_flags & capability) != 0) {
        lemma_first_capable(s, capability, i + 1);
    }
}

/// A registration is refused exactly where eight other tasks are registered,
/// and then nothing changes; an accepted one is active with its flags.
pub proof fn registrations_are_kept(s: Seq<HandlerEntry>, task: u32, flags: u64)
    requires
        s.len() <= 8,
    ensures
        accepts(s, task) <==> s.len() < 8 || exists|i: int|
            0 <= i < s.len() && (#[trigger] s[i]).task_id == task,
        !accepts(s, task) ==> registered(s, task, flags) == s,
        accepts(s, task) ==> exists|i: int|
            0 <= i < registered(s, task, flags).len() && (#[trigger] registered(
                s,
                task,
                flags,
            )[i]) == (HandlerEntry { task_id: task, capability_flags: flags, active: true }),
        forall|i: int|
            0 <= i < s.len() && (#[trigger] s[i]).task_id != task ==> registered(s, task, flags)[i]
                == s[i],
        registered(s, task, flags).len() == s.len() || (registered(s, task, flags).len() == s.len()
            + 1 && forall|i: int| 0 <= i < s.len() ==> (#[trigger] s[i]).task_id != task),
{
    lemma_entry_of(s, task, 0);
    let e = HandlerEntry { task_id: task, capability_flags: flags, active: true };
    match entry_of(s, task, 0) {
        Some(i) => {
            assert(s[i].task_id == task);
            assert(registered(s, task, flags)[i] == e);
        },
        None => {
            if s.len() < 8 {
                assert(registered(s, task, flags)[s.len() as int] == e);
            }
        },
    }
}

} // verus!

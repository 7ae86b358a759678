//! Intents, the applications that can handle them, and the messages of the
//! intent bus. A confidence is a number of millionths.
use vstd::prelude::*;
use vstd::string::*;

use crate::text::str_eq;
use crate::tokenizer::texts;

verus! {

broadcast use vstd::seq_lib::group_seq_properties;

/// A task or an application.
pub type TaskId = u32;

/// Full confidence.
pub const FULL_CONFIDENCE: u64 = 1_000_000;

/// What a user wants.
#[derive(Debug)]
pub enum Intent {
    /// Open or find a file, such as "my presentation from last week".
    OpenFile { query: String, context: Option<Context> },
    /// Send a message; recipients are names, handles or groups.
    SendMessage { text: String, recipients: Vec<String>, medium: Option<MessageMedium> },
    /// Execute a command or a workflow, such as "run tests".
    RunCommand { command: String, args: Vec<String>, context: Option<Context> },
    /// Transform data between applications.
    Transform {
        data: Vec<u8>,
        from_format: String,
        to_format: String,
        operation: Option<String>,
    },
    /// Create new content.
    Create {
        content_type: String,
        initial_content: Option<String>,
        metadata: Vec<(String, String)>,
    },
    /// Search across applications and data.
    Search { query: String, filters: Vec<SearchFilter> },
}

/// The circumstances of an intent.
#[derive(Debug)]
pub struct Context {
    /// When the intent was created.
    pub timestamp: u64,
    /// The application in focus.
    pub focused_app: Option<TaskId>,
    /// Applications used recently.
    pub recent_apps: Vec<TaskId>,
    pub tags: Vec<String>,
    pub metadata: Vec<(String, String)>,
}

/// How a message is to be sent.
#[derive(Debug)]
pub enum MessageMedium {
    Chat,
    Email,
    SMS,
    Notification,
    /// Whichever suits.
    Any,
}

/// What a search is limited to.
#[derive(Debug)]
pub enum SearchFilter {
    TimeRange { start: u64, end: u64 },
    Tag(String),
    AppType(String),
    FileType(String),
}

/// Where an intent is routed to.
#[derive(Debug)]
pub struct RoutingResult {
    /// The tasks that can handle the intent, the most confident one first.
    pub handlers: Vec<Handler>,
    /// The steps to execute.
    pub execution_plan: Vec<IntentStep>,
    /// The confidence of the routing, between none and full.
    pub confidence: u64,
}

/// A task that can handle an intent.
#[derive(Debug)]
pub struct Handler {
    pub task_id: TaskId,
    pub task_name: String,
    pub confidence: u64,
    pub capabilities: Vec<String>,
}

/// A step of an execution.
#[derive(Debug)]
pub struct IntentStep {
    pub handler: TaskId,
    pub action: String,
    pub data: Option<Vec<u8>>,
}

/// What an application can do.
#[derive(Debug)]
pub struct Capability {
    pub task_id: TaskId,
    pub task_name: String,
    /// Such as "open_file" and "send_message".
    pub actions: Vec<String>,
    /// Such as ".txt" and ".md".
    pub file_types: Vec<String>,
    /// Such as "editor" and "communication".
    pub tags: Vec<String>,
}

/// A message of the intent bus.
#[derive(Debug)]
pub enum IntentMessage {
    Register(Capability),
    Unregister(TaskId),
    SubmitIntent(Intent),
    RoutingResponse(RoutingResult),
    ExecuteStep(IntentStep),
    ExecutionResult { success: bool, output: Option<Vec<u8>>, error: Option<String> },
}

/// What a message asks of the bus.
#[derive(Debug, Clone, Copy, PartialEq, Eq, Structural)]
pub enum BusDuty {
    Register,
    Unregister,
    Route,
    Report,
    /// Nothing: the message is not for the bus.
    Ignore,
}

pub fn duty_of(message: &IntentMessage) -> (r: BusDuty)
    ensures
        r == (match *message {
            IntentMessage::Register(_) => BusDuty::Register,
            IntentMessage::Unregister(_) => BusDuty::Unregister,
            IntentMessage::SubmitIntent(_) => BusDuty::Route,
            IntentMessage::ExecutionResult { .. } => BusDuty::Report,
            _ => BusDuty::Ignore,
        }),
{
    match message {
        IntentMessage::Register(_) => BusDuty::Register,
        IntentMessage::Unregister(_) => BusDuty::Unregister,
        IntentMessage::SubmitIntent(_) => BusDuty::Route,
        IntentMessage::ExecutionResult { .. } => BusDuty::Report,
        _ => BusDuty::Ignore,
    }
}

/// What a handler is.
pub struct HandlerView {
    pub task_id: TaskId,
    pub task_name: Seq<char>,
    pub confidence: int,
    pub capabilities: Seq<Seq<char>>,
}

impl View for Handler {
    type V = HandlerView;

    open spec fn view(&self) -> HandlerView {
        HandlerView {
            task_id: self.task_id,
            task_name: self.task_name@,
            confidence: self.confidence as int,
            capabilities: texts(self.capabilities@),
        }
    }
}

/// What a capability is.
pub struct CapabilityView {
    pub task_id: TaskId,
    pub task_name: Seq<char>,
    pub actions: Seq<Seq<char>>,
    pub file_types: Seq<Seq<char>>,
    pub tags: Seq<Seq<char>>,
}

impl View for Capability {
    type V = CapabilityView;

    open spec fn view(&self) -> CapabilityView {
        CapabilityView {
            task_id: self.task_id,
            task_name: self.task_name@,
            actions: texts(self.actions@),
            file_types: texts(self.file_types@),
            tags: texts(self.tags@),
        }
    }
}

impl CapabilityView {
    /// The application as a handler.
    pub open spec fn handler(self, confidence: int) -> HandlerView {
        HandlerView {
            task_id: self.task_id,
            task_name: self.task_name,
            confidence,
            capabilities: self.actions,
        }
    }
}

pub fn copy_texts(v: &Vec<String>) -> (r: Vec<String>)
    ensures
        texts(r@) == texts(v@),
{
    let mut out: Vec<String> = Vec::new();
    let mut i: usize = 0;
    while i < v.len()
        invariant
            i <= v@.len(),
            out@.len() == i,
            forall|k: int| 0 <= k < i ==> (#[trigger] out@[k])@ == v@[k]@,
        decreases v@.len() - i,
    {
        out.push(v[i].as_str().to_owned());
        i = i + 1;
    }
    assert(texts(out@) =~= texts(v@));
    out
}

/// Whether a text is among some texts.
pub fn has_text(v: &Vec<String>, t: &str) -> (r: bool)
    ensures
        r == texts(v@).contains(t@),
{
    let mut i: usize = 0;
    while i < v.len()
        invariant
            i <= v@.len(),
            forall|k: int| 0 <= k < i ==> (#[trigger] v@[k])@ != t@,
        decreases v@.len() - i,
    {
        if str_eq(v[i].as_str(), t) {
            assert(texts(v@)[i as int] == t@);
            return true;
        }
        i = i + 1;
    }
    assert forall|k: int| 0 <= k < texts(v@).len() implies texts(v@)[k] != t@ by {
        assert(v@[k]@ != t@);
    }
    false
}

impl Capability {
    /// The application as a handler.
    pub fn to_handler(&self, confidence: u64) -> (r: Handler)
        ensures
            r@ == self@.handler(confidence as int),
    {
        Handler {
            task_id: self.task_id,
            task_name: self.task_name.as_str().to_owned(),
            confidence,
            capabilities: copy_texts(&self.actions),
        }
    }
}

} // verus!

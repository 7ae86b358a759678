//! The knowledge hunt: text of a fetched page, its record, and the self-tests
//! that run with it.
use vstd::prelude::*;
use vstd::string::*;
use vstd::utf8::*;

use crate::draug::{DraugDaemon, KNOWLEDGE_HUNT_ROOM, KNOWLEDGE_HUNT_URL};
use crate::refactor_step::{head, Reply, REPLY_MAX};
use crate::skill_prompt::{code_block, extract_rust_code_block};
use crate::text::{
    byte_len, bytes_eq, clip, clip_fits, clipped, dec_chars, is_blank, push_dec, str_eq, text_of,
};

verus! {

broadcast use vstd::seq_lib::group_seq_properties;

/// Bytes of text that a hunt keeps.
pub const SUMMARY_CHAR_CAP: usize = 65536;

/// Bytes of text in the log.
pub const PREVIEW_CAP: usize = 120;

/// Kind of the stored text.
pub const HUNT_MIME: &'static str = "text/folk-aaak";

/// One node of a fetched page.
pub struct PageNode {
    pub tag: Vec<u8>,
    pub text: Vec<u8>,
}

/// Whether a node adds to the text: it is not the address of the page, and its
/// text is not empty and is UTF-8.
pub open spec fn node_counts(n: PageNode) -> bool {
    n.tag@ != encode_utf8("__url__"@) && n.text@.len() > 0 && valid_utf8(n.text@)
}

/// The text so far with that of one more node, with a space between.
pub open spec fn joined(blob: Seq<char>, text: Seq<char>) -> Seq<char> {
    (if blob.len() == 0 {
        blob
    } else {
        blob.push(' ')
    }) + text
}

/// The text of the nodes from `i` on behind `blob`. It ends where the limit is
/// reached.
pub open spec fn gathered(nodes: Seq<PageNode>, i: int, blob: Seq<char>) -> Seq<char>
    decreases nodes.len() - i,
{
    if i >= nodes.len() {
        blob
    } else if !node_counts(nodes[i]) {
        gathered(nodes, i + 1, blob)
    } else {
        let grown = joined(blob, decode_utf8(nodes[i].text@));
        if encode_utf8(grown).len() >= SUMMARY_CHAR_CAP {
            clip(grown, SUMMARY_CHAR_CAP as int)
        } else {
            gathered(nodes, i + 1, grown)
        }
    }
}

/// The text of a page never exceeds the limit.
pub proof fn gathered_is_bounded(nodes: Seq<PageNode>, i: int, blob: Seq<char>)
    requires
        0 <= i,
        encode_utf8(blob).len() <= SUMMARY_CHAR_CAP,
    ensures
        encode_utf8(gathered(nodes, i, blob)).len() <= SUMMARY_CHAR_CAP,
    decreases nodes.len() - i,
{
    if i < nodes.len() {
        if !node_counts(nodes[i]) {
            gathered_is_bounded(nodes, i + 1, blob);
        } else {
            let grown = joined(blob, decode_utf8(nodes[i].text@));
            if encode_utf8(grown).len() >= SUMMARY_CHAR_CAP {
                clip_fits(grown, SUMMARY_CHAR_CAP as int);
            } else {
                gathered_is_bounded(nodes, i + 1, grown);
            }
        }
    }
}

/// The text of a page.
pub fn collect_text(nodes: &[PageNode]) -> (r: String)
    ensures
        r@ == gathered(nodes@, 0, Seq::empty()),
{
    let url_tag = "__url__".as_bytes();
    let mut blob = String::new();
    let mut empty: bool = true;
    let mut i: usize = 0;
    assert(blob@ =~= Seq::<char>::empty());
    while i < nodes.len()
        invariant
            i <= nodes.len(),
            url_tag@ == encode_utf8("__url__"@),
            empty == (blob@.len() == 0),
            gathered(nodes@, 0, Seq::empty()) == gathered(nodes@, i as int, blob@),
        decreases nodes.len() - i,
    {
        let node = &nodes[i];
        if !bytes_eq(node.tag.as_slice(), url_tag) && node.text.len() > 0 {
            proof {
                assert(node.text@.subrange(0, node.text@.len() as int) =~= node.text@);
            }
            match text_of(node.text.as_slice(), 0, node.text.len()) {
                Some(t) => {
                    let ghost before = blob@;
                    if !empty {
                        blob.push(' ');
                    }
                    blob.push_str(t.as_str());
                    assert(blob@ =~= joined(before, t@));
                    proof {
                        lemma_text_not_empty(node.text@);
                    }
                    empty = false;
                    if byte_len(blob.as_str()) >= SUMMARY_CHAR_CAP {
                        return clipped(blob.as_str(), SUMMARY_CHAR_CAP);
                    }
                },
                None => {},
            }
        }
        i = i + 1;
    }
    blob
}

proof fn lemma_text_not_empty(b: Seq<u8>)
    requires
        valid_utf8(b),
        b.len() > 0,
    ensures
        decode_utf8(b).len() > 0,
{
}

/// The beginning of a text for the log, with dots where it was cut.
pub fn preview(text: &str, cap: usize) -> (r: String)
    ensures
        r@ == (if encode_utf8(text@).len() <= cap {
            text@
        } else {
            clip(text@, cap as int) + "..."@
        }),
{
    if byte_len(text) <= cap {
        text.to_owned()
    } else {
        let mut out = clipped(text, cap);
        out.push_str("...");
        out
    }
}

/// The record of a stored page, with its node and byte counts as 32-bit
/// numbers.
pub open spec fn intent_json(chars: nat, nodes: nat) -> Seq<char> {
    "{\"source_url\":\""@ + KNOWLEDGE_HUNT_URL@ + "\",\"room\":\"/"@ + KNOWLEDGE_HUNT_ROOM@
        + "\",\"compression\":\"AAAK\",\"fetcher\":\"draug_v1\",\"nodes\":"@ + dec_chars(
        nodes % 0x1_0000_0000,
    ) + ",\"chars\":"@ + dec_chars(chars % 0x1_0000_0000) + "}"@
}

pub fn build_intent_json(blob: &str, node_count: usize) -> (r: String)
    ensures
        r@ == intent_json(encode_utf8(blob@).len(), node_count as nat),
{
    let chars: u64 = byte_len(blob) as u64 % 0x1_0000_0000;
    let nodes: u64 = node_count as u64 % 0x1_0000_0000;
    let mut out = "{\"source_url\":\"".to_owned();
    out.push_str(KNOWLEDGE_HUNT_URL);
    out.push_str("\",\"room\":\"/");
    out.push_str(KNOWLEDGE_HUNT_ROOM);
    out.push_str("\",\"compression\":\"AAAK\",\"fetcher\":\"draug_v1\",\"nodes\":");
    push_dec(&mut out, nodes);
    out.push_str(",\"chars\":");
    push_dec(&mut out, chars);
    out.push_str("}");
    out
}

// ---------------------------------------------------------------------
// Course of a hunt
// ---------------------------------------------------------------------

/// Steps of a hunt.
#[derive(Debug, Clone, Copy, PartialEq, Eq, Structural)]
pub enum HuntStep {
    /// Fetch the page.
    Fetch,
    /// Decode it into nodes.
    Decode,
    /// Store its text.
    Store,
    /// Store the record.
    Stamp,
    /// Run the self-test.
    SelfTest,
    /// The hunt is over.
    Over,
}

/// The step after one that went well or not. A missing record is no reason to
/// stop.
pub open spec fn hunt_after(step: HuntStep, ok: bool) -> HuntStep {
    match step {
        HuntStep::Fetch => if ok {
            HuntStep::Decode
        } else {
            HuntStep::Over
        },
        HuntStep::Decode => if ok {
            HuntStep::Store
        } else {
            HuntStep::Over
        },
        HuntStep::Store => if ok {
            HuntStep::Stamp
        } else {
            HuntStep::Over
        },
        HuntStep::Stamp => HuntStep::SelfTest,
        HuntStep::SelfTest => HuntStep::Over,
        HuntStep::Over => HuntStep::Over,
    }
}

/// Goes on with a hunt. Once nothing more is fetched or stored, the hunt counts
/// as done for this boot, whether it went well or not.
pub fn run(draug: &mut DraugDaemon, step: HuntStep, ok: bool) -> (r: HuntStep)
    ensures
        r == hunt_after(step, ok),
        *final(draug) == (if r is SelfTest || r is Over {
            DraugDaemon { knowledge_hunted: true, ..*old(draug) }
        } else {
            *old(draug)
        }),
{
    let next = match step {
        HuntStep::Fetch => if ok {
            HuntStep::Decode
        } else {
            HuntStep::Over
        },
        HuntStep::Decode => if ok {
            HuntStep::Store
        } else {
            HuntStep::Over
        },
        HuntStep::Store => if ok {
            HuntStep::Stamp
        } else {
            HuntStep::Over
        },
        HuntStep::Stamp => HuntStep::SelfTest,
        HuntStep::SelfTest => HuntStep::Over,
        HuntStep::Over => HuntStep::Over,
    };
    if next == HuntStep::SelfTest || next == HuntStep::Over {
        draug.mark_knowledge_hunted();
    }
    next
}

/// Every hunt is over after at most five steps.
pub proof fn hunts_end(a: bool, b: bool, c: bool, d: bool, e: bool)
    ensures
        hunt_after(
            hunt_after(
                hunt_after(hunt_after(hunt_after(HuntStep::Fetch, a), b), c),
                d,
            ),
            e,
        ) == HuntStep::Over,
{
}

// ---------------------------------------------------------------------
// Self-test of the build pipeline
// ---------------------------------------------------------------------

/// The outcome that a reply of the model leads to, where it ends the test.
pub open spec fn reply_outcome(reply: Option<Reply>) -> Option<Seq<char>> {
    match reply {
        None => Some("llm_ipc_error"@),
        Some(a) => {
            let bytes = head(a.output@, REPLY_MAX as int);
            if a.status != 0 {
                Some("llm_http_error"@)
            } else if !valid_utf8(bytes) {
                Some("llm_non_utf8"@)
            } else if code_block(decode_utf8(bytes)).len() == 0 {
                Some("llm_parse_failed"@)
            } else {
                None
            }
        },
    }
}

/// The code in the reply to the self-test, or the outcome.
pub fn run_auto_refactor_test(reply: Option<Reply>) -> (r: Result<String, &'static str>)
    ensures
        match r {
            Ok(code) => reply_outcome(reply) is None && (reply matches Some(a) && code@
                == code_block(decode_utf8(head(a.output@, REPLY_MAX as int)))),
            Err(outcome) => reply_outcome(reply) == Some(outcome@),
        },
{
    let a = match reply {
        Some(a) => a,
        None => {
            return Err("llm_ipc_error");
        },
    };
    if a.status != 0 {
        return Err("llm_http_error");
    }
    let n: usize = if a.output.len() <= REPLY_MAX {
        a.output.len()
    } else {
        REPLY_MAX
    };
    assert(a.output@.subrange(0, n as int) =~= head(a.output@, REPLY_MAX as int));
    let raw = match text_of(a.output, 0, n) {
        Some(t) => t,
        None => {
            return Err("llm_non_utf8");
        },
    };
    let code = extract_rust_code_block(raw.as_str());
    if is_blank(code.as_str()) {
        return Err("llm_parse_failed");
    }
    Ok(code)
}

/// The name of a build status; no status is an exchange that failed.
pub open spec fn build_outcome(status: Option<u32>) -> Seq<char> {
    match status {
        None => "refactor_ipc_error"@,
        Some(s) => if s == 0 {
            "refactor_ok"@
        } else if s == 1 {
            "refactor_build_failed"@
        } else if s == 2 {
            "refactor_bad_filename"@
        } else if s == 3 {
            "refactor_io_error"@
        } else if s == 4 {
            "refactor_timeout"@
        } else if s == 5 {
            "refactor_too_large"@
        } else {
            "refactor_unknown"@
        },
    }
}

pub fn patch_outcome(status: Option<u32>) -> (r: &'static str)
    ensures
        r@ == build_outcome(status),
{
    match status {
        None => "refactor_ipc_error",
        Some(s) => if s == 0 {
            "refactor_ok"
        } else if s == 1 {
            "refactor_build_failed"
        } else if s == 2 {
            "refactor_bad_filename"
        } else if s == 3 {
            "refactor_io_error"
        } else if s == 4 {
            "refactor_timeout"
        } else if s == 5 {
            "refactor_too_large"
        } else {
            "refactor_unknown"
        },
    }
}

// ---------------------------------------------------------------------
// Knowledge graph
// ---------------------------------------------------------------------

/// A change of the knowledge graph.
pub enum GraphOp {
    Entity { id: String, name: String, kind: String },
    Edge { id: String, from: String, relation: String, to: String },
}

pub open spec fn is_entity(op: GraphOp, id: Seq<char>, name: Seq<char>, kind: Seq<char>) -> bool {
    op matches GraphOp::Entity { id: i, name: n, kind: k } && i@ == id && n@ == name && k@ == kind
}

pub open spec fn is_edge(
    op: GraphOp,
    id: Seq<char>,
    from: Seq<char>,
    relation: Seq<char>,
    to: Seq<char>,
) -> bool {
    op matches GraphOp::Edge { id: i, from: f, relation: r, to: t } && i@ == id && f@ == from && r@
        == relation && t@ == to
}

fn entity(id: &str, name: &str, kind: &str) -> (r: GraphOp)
    ensures
        is_entity(r, id@, name@, kind@),
{
    GraphOp::Entity { id: id.to_owned(), name: name.to_owned(), kind: kind.to_owned() }
}

fn edge(id: &str, from: &str, relation: &str, to: &str) -> (r: GraphOp)
    ensures
        is_edge(r, id@, from@, relation@, to@),
{
    GraphOp::Edge {
        id: id.to_owned(),
        from: from.to_owned(),
        relation: relation.to_owned(),
        to: to.to_owned(),
    }
}

/// The graph changes that record the outcome of a refactor.
pub fn record_outcome(outcome: &str) -> (r: Vec<GraphOp>)
    ensures
        r@.len() == 7,
        is_entity(r@[0], outcome@, outcome@, "REFACTOR_OUTCOME"@),
        is_entity(r@[1], "draug_latest_rs"@, "draug_latest.rs"@, "SOURCE_FILE"@),
        is_entity(r@[2], "draug"@, "Draug daemon"@, "DAEMON"@),
        is_entity(r@[3], "gemma4_31b_cloud"@, "Gemma4 31B cloud"@, "LLM"@),
        is_edge(r@[4], "edge_draug_patches_file"@, "draug"@, "patches"@, "draug_latest_rs"@),
        is_edge(r@[5], "edge_file_outcome"@, "draug_latest_rs"@, "last_check"@, outcome@),
        is_edge(r@[6], "edge_draug_uses_llm"@, "draug"@, "uses"@, "gemma4_31b_cloud"@),
{
    let mut ops: Vec<GraphOp> = Vec::new();
    ops.push(entity(outcome, outcome, "REFACTOR_OUTCOME"));
    ops.push(entity("draug_latest_rs", "draug_latest.rs", "SOURCE_FILE"));
    ops.push(entity("draug", "Draug daemon", "DAEMON"));
    ops.push(entity("gemma4_31b_cloud", "Gemma4 31B cloud", "LLM"));
    ops.push(edge("edge_draug_patches_file", "draug", "patches", "draug_latest_rs"));
    ops.push(edge("edge_file_outcome", "draug_latest_rs", "last_check", outcome));
    ops.push(edge("edge_draug_uses_llm", "draug", "uses", "gemma4_31b_cloud"));
    ops
}

/// Number of graph changes before the graph is walked.
pub const GRAPH_TEST_OPS: usize = 5;

/// What the graph test does next.
pub enum GraphAction {
    Apply { op: GraphOp },
    /// Walk the graph from the browser.
    Walk,
    /// A change failed: the test is over.
    Stop,
}

/// The course of the supersession test after `done` changes: three entities,
/// then an edge, then the edge that must expire it, then the walk. It stops at
/// the first change that fails.
pub fn run_graph_supersession_test(done: usize, last_ok: bool) -> (r: GraphAction)
    ensures
        done > 0 && !last_ok ==> r is Stop,
        done == 0 || last_ok ==> (if done == 0 {
            r matches GraphAction::Apply { op } && is_entity(
                op,
                "folk_browser"@,
                "Folkering Browser"@,
                "MODULE"@,
            )
        } else if done == 1 {
            r matches GraphAction::Apply { op } && is_entity(
                op,
                "wasmi"@,
                "wasmi interpreter"@,
                "DEPENDENCY"@,
            )
        } else if done == 2 {
            r matches GraphAction::Apply { op } && is_entity(
                op,
                "Silverfir"@,
                "Silverfir-nano engine"@,
                "DEPENDENCY"@,
            )
        } else if done == 3 {
            r matches GraphAction::Apply { op } && is_edge(
                op,
                "edge_fb_wasmi"@,
                "folk_browser"@,
                "uses"@,
                "wasmi"@,
            )
        } else if done == 4 {
            r matches GraphAction::Apply { op } && is_edge(
                op,
                "edge_fb_silverfir"@,
                "folk_browser"@,
                "uses"@,
                "Silverfir"@,
            )
        } else {
            r is Walk
        }),
{
    if done > 0 && !last_ok {
        return GraphAction::Stop;
    }
    if done == 0 {
        GraphAction::Apply { op: entity("folk_browser", "Folkering Browser", "MODULE") }
    } else if done == 1 {
        GraphAction::Apply { op: entity("wasmi", "wasmi interpreter", "DEPENDENCY") }
    } else if done == 2 {
        GraphAction::Apply { op: entity("Silverfir", "Silverfir-nano engine", "DEPENDENCY") }
    } else if done == 3 {
        GraphAction::Apply { op: edge("edge_fb_wasmi", "folk_browser", "uses", "wasmi") }
    } else if done == 4 {
        GraphAction::Apply { op: edge("edge_fb_silverfir", "folk_browser", "uses", "Silverfir") }
    } else {
        GraphAction::Walk
    }
}

/// Result of the graph test.
#[derive(Debug, Clone, Copy, PartialEq, Eq, Structural)]
pub enum GraphVerdict {
    /// Only the new dependency is reachable.
    Superseded,
    /// The old dependency is still reachable.
    StillReachable,
    /// The new dependency is not reachable.
    NotReached,
}

/// Whether one of the hops is the named entity.
pub open spec fn reached(hops: Seq<String>, name: Seq<char>) -> bool {
    exists|i: int| 0 <= i < hops.len() && (#[trigger] hops[i])@ == name
}

/// Judges the hops of the walk.
pub fn graph_verdict(hops: &[String]) -> (r: GraphVerdict)
    ensures
        r == (if reached(hops@, "wasmi"@) {
            GraphVerdict::StillReachable
        } else if reached(hops@, "Silverfir"@) {
            GraphVerdict::Superseded
        } else {
            GraphVerdict::NotReached
        }),
{
    let mut saw_silverfir: bool = false;
    let mut saw_wasmi: bool = false;
    let mut i: usize = 0;
    while i < hops.len()
        invariant
            i <= hops.len(),
            saw_silverfir == exists|j: int| 0 <= j < i && (#[trigger] hops@[j])@ == "Silverfir"@,
            saw_wasmi == exists|j: int| 0 <= j < i && (#[trigger] hops@[j])@ == "wasmi"@,
        decreases hops.len() - i,
    {
        if str_eq(hops[i].as_str(), "Silverfir") {
            assert(hops@[i as int]@ == "Silverfir"@);
            saw_silverfir = true;
        }
        if str_eq(hops[i].as_str(), "wasmi") {
            assert(hops@[i as int]@ == "wasmi"@);
            saw_wasmi = true;
        }
        i = i + 1;
    }
    if saw_silverfir && !saw_wasmi {
        GraphVerdict::Superseded
    } else if saw_wasmi {
        GraphVerdict::StillReachable
    } else {
        GraphVerdict::NotReached
    }
}

/// The boot count to store, from the bytes that were stored before.
pub fn next_boot_count(stored: Option<&[u8]>) -> (r: u8)
    ensures
        r == (match stored {
            Some(b) => if b@.len() >= 1 {
                if b@[0] < 255 {
                    (b@[0] + 1) as u8
                } else {
                    255u8
                }
            } else {
                1
            },
            None => 1,
        }),
{
    let prev: u8 = match stored {
        Some(b) => if b.len() >= 1 {
            b[0]
        } else {
            0
        },
        None => 0,
    };
    prev.saturating_add(1)
}

/// Result of the file store test.
#[derive(Debug, Clone, Copy, PartialEq, Eq, Structural)]
pub enum StoreVerdict {
    /// What was written was read back.
    Matches,
    /// Something else was read back.
    Differs,
    /// Nothing was read back.
    Missing,
}

/// Judges what was read back.
pub fn store_verdict(written: &[u8], read: Option<&[u8]>) -> (r: StoreVerdict)
    ensures
        r == (match read {
            Some(b) => if b@ == written@ {
                StoreVerdict::Matches
            } else {
                StoreVerdict::Differs
            },
            None => StoreVerdict::Missing,
        }),
{
    match read {
        Some(b) => if bytes_eq(b, written) {
            StoreVerdict::Matches
        } else {
            StoreVerdict::Differs
        },
        None => StoreVerdict::Missing,
    }
}

// ---------------------------------------------------------------------
// What a hunt keeps
// ---------------------------------------------------------------------

/// A node with a text adds it behind a space, the first one without; the
/// address of the page, an empty text and one that is no UTF-8 add nothing. This
/// goes on as long as there is room.
pub proof fn nodes_add_their_text(nodes: Seq<PageNode>, i: int, blob: Seq<char>, text: Seq<char>)
    requires
        0 <= i < nodes.len(),
    ensures
        nodes[i].text@.len() == 0 || !valid_utf8(nodes[i].text@) || nodes[i].tag@ == encode_utf8(
            "__url__"@,
        ) ==> gathered(nodes, i, blob) == gathered(nodes, i + 1, blob),
        nodes[i].text@ == encode_utf8(text) && text.len() > 0 && nodes[i].tag@ != encode_utf8(
            "__url__"@,
        ) && blob.len() == 0 && encode_utf8(text).len() < 65_536 ==> gathered(nodes, i, blob)
            == gathered(nodes, i + 1, text),
        nodes[i].text@ == encode_utf8(text) && text.len() > 0 && nodes[i].tag@ != encode_utf8(
            "__url__"@,
        ) && blob.len() > 0 && encode_utf8(blob.push(' ') + text).len() < 65_536 ==> gathered(
            nodes,
            i,
            blob,
        ) == gathered(nodes, i + 1, blob.push(' ') + text),
        gathered(nodes, nodes.len() as int, blob) == blob,
{
    encode_utf8_valid_utf8(text);
    encode_utf8_decode_utf8(text);
    if text.len() > 0 {
        assert(encode_utf8(text).len() > 0) by {
            reveal_with_fuel(encode_utf8, 2);
        }
    }
    if blob.len() == 0 {
        assert(blob + text =~= text);
    }
}

/// The record of a stored page is an object with these fields.
pub proof fn records_have_their_fields(chars: nat, nodes: nat)
    requires
        chars <= u32::MAX,
        nodes <= u32::MAX,
    ensures
        intent_json(chars, nodes) == "{\"source_url\":\""@ + KNOWLEDGE_HUNT_URL@
            + "\",\"room\":\"/"@ + KNOWLEDGE_HUNT_ROOM@
            + "\",\"compression\":\"AAAK\",\"fetcher\":\"draug_v1\",\"nodes\":"@ + dec_chars(nodes)
            + ",\"chars\":"@ + dec_chars(chars) + "}"@,
{
}

/// The steps of a hunt follow each other: fetch, decode, store, stamp, test.
/// Whatever fails before the text is stored ends it, and a failed stamp does
/// not.
pub proof fn hunts_take_their_steps(ok: bool)
    ensures
        hunt_after(HuntStep::Fetch, true) == HuntStep::Decode,
        hunt_after(HuntStep::Decode, true) == HuntStep::Store,
        hunt_after(HuntStep::Store, true) == HuntStep::Stamp,
        hunt_after(HuntStep::Stamp, ok) == HuntStep::SelfTest,
        hunt_after(HuntStep::SelfTest, ok) == HuntStep::Over,
        hunt_after(HuntStep::Fetch, false) == HuntStep::Over,
        hunt_after(HuntStep::Decode, false) == HuntStep::Over,
        hunt_after(HuntStep::Store, false) == HuntStep::Over,
        hunt_after(HuntStep::Over, ok) == HuntStep::Over,
{
}

/// The names of the outcomes of a build.
pub proof fn builds_have_outcomes(s: u32)
    ensures
        build_outcome(None) == "refactor_ipc_error"@,
        build_outcome(Some(0)) == "refactor_ok"@,
        build_outcome(Some(1)) == "refactor_build_failed"@,
        build_outcome(Some(2)) == "refactor_bad_filename"@,
        build_outcome(Some(3)) == "refactor_io_error"@,
        build_outcome(Some(4)) == "refactor_timeout"@,
        build_outcome(Some(5)) == "refactor_too_large"@,
        s > 5 ==> build_outcome(Some(s)) == "refactor_unknown"@,
{
}

} // verus!

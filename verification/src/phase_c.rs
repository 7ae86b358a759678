//! Projects of several files: the prompt, and the files in the reply.
use vstd::prelude::*;
use vstd::string::*;
use vstd::utf8::encode_utf8;

use crate::chars::{
    chars_at, chars_to_string, ends_line, find_at, find_at_none, find_chars, find_end, find_start,
    is_white, joined_lines, joined_lines_are_the_text, lemma_trim_newline, lemma_trim_range, line_at,
    line_of_one, lines_from, lines_of_two, newline_at_the_end, no_crlf, push_chars, rfind_at,
    rfind_at_is_last, rfind_chars, skip_white, stands_at, to_chars, trim, trim_is_trimmed, trimmed,
};
use crate::project::{qualified, Project, WriteRequest};
use crate::skill_prompt::{lemma_first_mark, lemma_first_newline};
use crate::text::{dec_chars, push_dec};

verus! {

broadcast use vstd::seq_lib::group_seq_properties;

/// The projects to write: a name and what to write.
pub const MULTI_FILE_PROJECTS: [(&'static str, &'static str); 1] = [
    (
        "demo-calc",
        "a tiny no_std calculator library. Two files: `src/lib.rs` defines `pub fn add(a: i32, b: i32) -> i32` and `pub fn sub(a: i32, b: i32) -> i32`; `src/tests.rs` is a `#[cfg(test)] mod` with three tests that verify add and sub via assert_eq! including a negative case. Both files compile as parts of a no_std `lib.rs` crate.",
    ),
];

pub const MULTI_FILE_RULES: &'static str =
    "\n\nFormat your response as a single Rust source listing with each file separated by a marker line of the exact form:\n    // === FILE: <relative-path>\nExample:\n    // === FILE: src/lib.rs\n    pub fn foo() {}\n    // === FILE: src/tests.rs\n    #[cfg(test)]\n    mod tests { /* ... */ }\n\nRules: include only file content between markers, no explanation outside, no Cargo.toml (we'll generate one), no top-level `fn main`. Wrap the whole thing in one ```rust fenced block.";

/// What a line begins with that names a file.
pub const MARKER: &'static str = "// === FILE:";

/// One file of a reply.
#[derive(Debug, Clone)]
pub struct MultiFileEntry {
    pub path: String,
    pub content: String,
}

pub fn build_multi_file_prompt(project_id: &str, body: &str) -> (r: String)
    ensures
        r@ == "Write "@ + body@ + MULTI_FILE_RULES@,
{
    let mut p = "Write ".to_owned();
    p.push_str(body);
    p.push_str(MULTI_FILE_RULES);
    p
}

/// What stands inside the fence marked as Rust: from the line behind it to the
/// last fence. Without such a fence everything.
pub open spec fn fence_inside(raw: Seq<char>) -> Seq<char> {
    match find_at(raw, "```rust"@, 0) {
        Some(p) => {
            let a = match find_at(raw, "\n"@, p + 7) {
                Some(i) => i + 1,
                None => p + 7,
            };
            let inner = raw.subrange(a, raw.len() as int);
            match rfind_at(inner, "```"@, inner.len() as int) {
                Some(e) => inner.subrange(0, e),
                None => inner,
            }
        },
        None => raw,
    }
}

/// The path in a marker line, `None` for any other line.
pub open spec fn marked_path(line: Seq<char>) -> Option<Seq<char>> {
    let a = skip_white(line, 0, line.len() as int);
    if stands_at(line, MARKER@, a) {
        Some(trim(line.subrange(a + MARKER@.len(), line.len() as int)))
    } else {
        None
    }
}

/// A finished file, where one was begun.
pub open spec fn finished(path: Option<Seq<char>>, content: Seq<char>) -> Seq<
    (Seq<char>, Seq<char>),
> {
    match path {
        Some(p) => seq![(p, trim(content))],
        None => Seq::empty(),
    }
}

/// The files in the lines, where `path` and `content` are the file under way.
/// Lines before the first marker are left out.
pub open spec fn files_in(
    lines: Seq<Seq<char>>,
    path: Option<Seq<char>>,
    content: Seq<char>,
) -> Seq<(Seq<char>, Seq<char>)>
    decreases lines.len(),
{
    if lines.len() == 0 {
        finished(path, content)
    } else {
        let rest = lines.subrange(1, lines.len() as int);
        match marked_path(lines[0]) {
            Some(p) => finished(path, content) + files_in(rest, Some(p), Seq::empty()),
            None => files_in(
                rest,
                path,
                if path is Some {
                    content + lines[0].push('\n')
                } else {
                    content
                },
            ),
        }
    }
}

/// The files in a reply.
pub open spec fn reply_files(raw: Seq<char>) -> Seq<(Seq<char>, Seq<char>)> {
    files_in(lines_from(fence_inside(raw), 0), None, Seq::empty())
}

/// The files as texts.
pub open spec fn entry_texts(s: Seq<MultiFileEntry>) -> Seq<(Seq<char>, Seq<char>)> {
    Seq::new(s.len(), |i: int| (s[i].path@, s[i].content@))
}

proof fn lemma_plain_lines(
    lines: Seq<Seq<char>>,
    rest: Seq<Seq<char>>,
    path: Seq<char>,
    content: Seq<char>,
)
    requires
        forall|i: int| 0 <= i < lines.len() ==> marked_path(#[trigger] lines[i]) is None,
    ensures
        files_in(lines + rest, Some(path), content) == files_in(
            rest,
            Some(path),
            content + joined_lines(lines),
        ),
    decreases lines.len(),
{
    if lines.len() == 0 {
        assert(lines + rest =~= rest);
        assert(content + joined_lines(lines) =~= content);
    } else {
        let less = lines.subrange(1, lines.len() as int);
        let all = lines + rest;
        assert(all[0] == lines[0]);
        assert(marked_path(lines[0]) is None);
        assert(all.subrange(1, all.len() as int) =~= less + rest);
        assert forall|i: int| 0 <= i < less.len() implies marked_path(#[trigger] less[i]) is None by {
            assert(less[i] == lines[i + 1]);
        }
        lemma_plain_lines(less, rest, path, content + lines[0].push('\n'));
        assert(content + lines[0].push('\n') + joined_lines(less) =~= content + joined_lines(
            lines,
        ));
    }
}

/// A marker line and the lines up to the next marker are one file: its path is
/// the one in the marker, its content those lines without white space around
/// them, and the files behind it do not depend on it.
pub proof fn marker_opens_a_file(
    marker: Seq<char>,
    lines: Seq<Seq<char>>,
    rest: Seq<Seq<char>>,
    path: Seq<char>,
)
    requires
        marked_path(marker) == Some(path),
        forall|i: int| 0 <= i < lines.len() ==> marked_path(#[trigger] lines[i]) is None,
        rest.len() == 0 || marked_path(rest[0]) is Some,
    ensures
        files_in(seq![marker] + lines + rest, None, Seq::empty()) == seq![
            (path, trim(joined_lines(lines))),
        ] + files_in(rest, None, Seq::empty()),
{
    let all = seq![marker] + lines + rest;
    assert(all[0] == marker);
    assert(all.subrange(1, all.len() as int) =~= lines + rest);
    let empty = Seq::<char>::empty();
    lemma_plain_lines(lines, rest, path, empty);
    assert(empty + joined_lines(lines) =~= joined_lines(lines));
    assert(files_in(all, None, empty) =~= files_in(lines + rest, Some(path), empty));
    let content = joined_lines(lines);
    if rest.len() == 0 {
        assert(files_in(rest, Some(path), content) =~= seq![(path, trim(content))] + files_in(
            rest,
            None,
            empty,
        ));
    } else {
        let p = marked_path(rest[0]).unwrap();
        let after = rest.subrange(1, rest.len() as int);
        assert(files_in(rest, None, empty) =~= files_in(after, Some(p), empty));
    }
}

/// A marker line gives back what stands behind the marker, without white space
/// around it.
pub proof fn marker_names_the_path(path: Seq<char>)
    ensures
        marked_path(MARKER@ + path) == Some(trim(path)),
{
    reveal_strlit("// === FILE:");
    let line = MARKER@ + path;
    assert(line[0] == '/');
    assert(skip_white(line, 0, line.len() as int) == 0);
    assert(line.subrange(0, MARKER@.len() as int) =~= MARKER@);
    assert(line.subrange(MARKER@.len() as int, line.len() as int) =~= path);
}

/// The marker line of a path.
pub open spec fn marker_line(path: Seq<char>) -> Seq<char> {
    MARKER@ + " "@ + path
}

/// Files one after the other, each with its marker line.
pub open spec fn listing(files: Seq<(Seq<char>, Seq<char>)>) -> Seq<char>
    decreases files.len(),
{
    if files.len() == 0 {
        Seq::empty()
    } else {
        marker_line(files[0].0).push('\n') + (files[0].1 + listing(
            files.subrange(1, files.len() as int),
        ))
    }
}

/// Whether no line of a text is a marker.
pub open spec fn unmarked(s: Seq<char>) -> bool {
    forall|i: int|
        0 <= i < lines_from(s, 0).len() ==> marked_path(#[trigger] lines_from(s, 0)[i]) is None
}

/// A file that a listing can hold: its path is trimmed and on one line, and no
/// line of its text is a marker or ends with a carriage return.
pub open spec fn listable(file: (Seq<char>, Seq<char>)) -> bool {
    trim(file.0) == file.0 && !file.0.contains('\n') && unmarked(file.1) && no_crlf(file.1)
}

/// Files that a listing can hold, each of which ends with a line, but for the
/// last.
pub open spec fn all_listable(files: Seq<(Seq<char>, Seq<char>)>) -> bool {
    forall|i: int|
        0 <= i < files.len() ==> listable(#[trigger] files[i]) && (i + 1 < files.len()
            ==> ends_line(files[i].1))
}

/// The files with their texts trimmed.
pub open spec fn all_trimmed(files: Seq<(Seq<char>, Seq<char>)>) -> Seq<(Seq<char>, Seq<char>)> {
    Seq::new(files.len(), |i: int| (files[i].0, trim(files[i].1)))
}

/// The files with a newline behind each text.
pub open spec fn with_newlines(files: Seq<(Seq<char>, Seq<char>)>) -> Seq<(Seq<char>, Seq<char>)> {
    Seq::new(files.len(), |i: int| (files[i].0, files[i].1.push('\n')))
}

#[verifier::rlimit(40)]
proof fn lemma_marker_line(path: Seq<char>)
    requires
        trim(path) == path,
        !path.contains('\n'),
    ensures
        marked_path(marker_line(path)) == Some(path),
        lines_from(marker_line(path).push('\n'), 0) == seq![marker_line(path)],
{
    reveal_strlit("// === FILE:");
    reveal_strlit(" ");
    let rest = " "@ + path;
    let line = marker_line(path);
    assert(line =~= MARKER@ + rest);
    marker_names_the_path(rest);
    lemma_space_before(path);
    lemma_marker_on_one_line(path);
    trim_is_trimmed(path);
    assert(path.len() > 0 ==> line.last() == path.last());
    assert(path.len() == 0 ==> line.last() == ' ');
    line_of_one(line);
}

/// A space before a text is trimmed away.
proof fn lemma_space_before(path: Seq<char>)
    ensures
        trim(" "@ + path) == trim(path),
{
    reveal_strlit(" ");
    let rest = " "@ + path;
    let n = rest.len() as int;
    assert(is_white(rest[0]));
    assert(rest.subrange(0, n) =~= rest);
    assert(rest.subrange(1, n) =~= path);
    lemma_trim_range(rest, 0, n);
    lemma_trim_range(rest, 1, n);
}

#[verifier::rlimit(40)]
proof fn lemma_marker_on_one_line(path: Seq<char>)
    requires
        !path.contains('\n'),
    ensures
        !marker_line(path).contains('\n'),
{
    reveal_strlit("// === FILE:");
    reveal_strlit(" ");
    let line = marker_line(path);
    assert forall|i: int| 0 <= i < line.len() implies line[i] != '\n' by {
        if i >= 13 {
            assert(path.contains(path[i - 13]));
            assert(line[i] == path[i - 13]);
        } else if i == 12 {
            assert(line[i] == ' ');
        } else {
            assert(line[i] == MARKER@[i]);
        }
    }
}

proof fn lemma_intro(intro: Seq<Seq<char>>, rest: Seq<Seq<char>>)
    requires
        forall|i: int| 0 <= i < intro.len() ==> marked_path(#[trigger] intro[i]) is None,
    ensures
        files_in(intro + rest, None, Seq::empty()) == files_in(rest, None, Seq::empty()),
    decreases intro.len(),
{
    if intro.len() == 0 {
        assert(intro + rest =~= rest);
    } else {
        let less = intro.subrange(1, intro.len() as int);
        let all = intro + rest;
        assert(all[0] == intro[0]);
        assert(all.subrange(1, all.len() as int) =~= less + rest);
        assert forall|i: int| 0 <= i < less.len() implies marked_path(#[trigger] less[i]) is None by {
            assert(less[i] == intro[i + 1]);
        }
        lemma_intro(less, rest);
    }
}

#[verifier::rlimit(40)]
proof fn lemma_listing(files: Seq<(Seq<char>, Seq<char>)>)
    requires
        all_listable(files),
    ensures
        files_in(lines_from(listing(files), 0), None, Seq::empty()) == all_trimmed(files),
        files.len() > 0 ==> lines_from(listing(files), 0).len() > 0 && marked_path(
            lines_from(listing(files), 0)[0],
        ) is Some,
        files.len() == 0 ==> lines_from(listing(files), 0).len() == 0,
    decreases files.len(),
{
    if files.len() == 0 {
        assert(all_trimmed(files) =~= Seq::<(Seq<char>, Seq<char>)>::empty());
    } else {
        let (path, text) = files[0];
        let marker = marker_line(path);
        let less = files.subrange(1, files.len() as int);
        assert(listable(files[0]));
        assert forall|i: int| 0 <= i < less.len() implies listable(#[trigger] less[i]) && (i + 1
            < less.len() ==> ends_line(less[i].1)) by {
            assert(less[i] == files[i + 1]);
        }
        lemma_listing(less);
        let lines = lines_from(text, 0);
        let rest = lines_from(listing(less), 0);
        lemma_marker_line(path);
        lines_of_two(marker.push('\n'), text + listing(less));
        if less.len() == 0 {
            assert(text + listing(less) =~= text);
            assert(lines + rest =~= lines);
        } else {
            lines_of_two(text, listing(less));
        }
        let all = lines_from(listing(files), 0);
        assert(all =~= seq![marker] + lines + rest);
        assert(all[0] == marker);
        marker_opens_a_file(marker, lines, rest, path);
        joined_lines_are_the_text(text);
        assert forall|i: int| 0 <= i < less.len() implies #[trigger] all_trimmed(less)[i]
            == all_trimmed(files)[i + 1] by {
            assert(less[i] == files[i + 1]);
        }
        assert(all_trimmed(files) =~= seq![(path, trim(text))] + all_trimmed(less));
    }
}

/// A listing is split into its files again: every path comes back, and every
/// text without white space around it, in order. A text before the listing is
/// left out.
pub proof fn listing_is_split(intro: Seq<char>, files: Seq<(Seq<char>, Seq<char>)>)
    requires
        unmarked(intro),
        ends_line(intro),
        all_listable(files),
    ensures
        files_in(lines_from(intro + listing(files), 0), None, Seq::empty()) == all_trimmed(files),
{
    lemma_listing(files);
    lines_of_two(intro, listing(files));
    lemma_intro(lines_from(intro, 0), lines_from(listing(files), 0));
}

/// The files of a reply without a fence come back.
pub proof fn bare_files_come_back(intro: Seq<char>, files: Seq<(Seq<char>, Seq<char>)>)
    requires
        unmarked(intro),
        ends_line(intro),
        all_listable(files),
        forall|j: int| !stands_at(intro + listing(files), "```rust"@, j),
    ensures
        reply_files(intro + listing(files)) == all_trimmed(files),
{
    find_at_none(intro + listing(files), "```rust"@, 0);
    listing_is_split(intro, files);
}

/// The files of a reply inside a fence come back, whatever stands before the
/// fence and behind its mark, as long as no earlier fence is marked and none
/// stands behind the closing one. The texts may hold fences themselves.
#[verifier::rlimit(40)]
pub proof fn fenced_files_come_back(
    before: Seq<char>,
    info: Seq<char>,
    intro: Seq<char>,
    files: Seq<(Seq<char>, Seq<char>)>,
    after: Seq<char>,
)
    requires
        forall|j: int| !stands_at(before, "```rust"@, j),
        !info.contains('\n'),
        unmarked(intro),
        ends_line(intro),
        all_listable(files),
        forall|j: int| j > 0 ==> !stands_at("```"@ + after, "```"@, j),
    ensures
        reply_files(
            before + "```rust"@ + info + "\n"@ + (intro + listing(files)) + "```"@ + after,
        ) == all_trimmed(files),
{
    reveal_strlit("```rust");
    reveal_strlit("```");
    reveal_strlit("\n");
    let mark = "```rust"@;
    let fence = "```"@;
    let body = intro + listing(files);
    let raw = before + mark + info + "\n"@ + body + fence + after;
    assert(raw =~= before + mark + (info + "\n"@ + body + fence + after));
    lemma_first_mark(before, info + "\n"@ + body + fence + after);
    assert(raw =~= before + mark + info + "\n"@ + (body + fence + after));
    lemma_first_newline(before + mark, info, body + fence + after);
    let a = before.len() as int + 7 + info.len() + 1;
    let inner = raw.subrange(a, raw.len() as int);
    let n = body.len() as int;
    assert(inner =~= body + (fence + after));
    assert(inner.subrange(n, n + 3) =~= fence);
    assert(stands_at(inner, fence, n));
    assert forall|j: int| n < j <= inner.len() implies !#[trigger] stands_at(inner, fence, j) by {
        if stands_at(inner, fence, j) {
            assert((fence + after).subrange(j - n, j - n + 3) =~= inner.subrange(j, j + 3));
            assert(stands_at(fence + after, fence, j - n));
        }
    }
    rfind_at_is_last(inner, fence, inner.len() as int, n);
    assert(inner.subrange(0, n) =~= body);
    listing_is_split(intro, files);
}

/// The lines of a trimmed text do not change with a newline behind it.
proof fn lemma_closed_text(text: Seq<char>)
    requires
        trim(text) == text,
        unmarked(text),
        no_crlf(text),
    ensures
        unmarked(text.push('\n')),
        no_crlf(text.push('\n')),
        trim(text.push('\n')) == text,
{
    let t = text.push('\n');
    lemma_trim_newline(text);
    trim_is_trimmed(text);
    assert forall|i: int| 0 <= i && i + 1 < t.len() implies !(#[trigger] t[i] == '\r' && t[i + 1]
        == '\n') by {
        assert(t[i] == text[i]);
        if i + 1 < text.len() {
            assert(t[i + 1] == text[i + 1]);
        } else {
            assert(text[i] == text.last());
        }
    }
    if text.len() == 0 {
        line_of_one(text);
        reveal_strlit("// === FILE:");
        assert(marked_path(text) is None);
        assert(lines_from(t, 0)[0] == text);
    } else {
        newline_at_the_end(text);
    }
}

proof fn lemma_closed(files: Seq<(Seq<char>, Seq<char>)>)
    requires
        forall|i: int|
            0 <= i < files.len() ==> listable(#[trigger] files[i]) && trim(files[i].1)
                == files[i].1,
    ensures
        all_listable(with_newlines(files)),
        all_trimmed(with_newlines(files)) == files,
{
    let closed = with_newlines(files);
    assert forall|i: int| 0 <= i < closed.len() implies listable(#[trigger] closed[i])
        && ends_line(closed[i].1) && (closed[i].0, trim(closed[i].1)) == files[i] by {
        assert(listable(files[i]));
        lemma_closed_text(files[i].1);
    }
    assert(all_trimmed(closed) =~= files);
}

/// A reply built from pairs of a path and a text, inside a fence or without
/// one, gives back exactly those pairs in order, where paths and texts are
/// trimmed and no text holds a marker line.
#[verifier::rlimit(40)]
pub proof fn pairs_come_back(files: Seq<(Seq<char>, Seq<char>)>)
    requires
        forall|i: int|
            0 <= i < files.len() ==> listable(#[trigger] files[i]) && trim(files[i].1)
                == files[i].1,
    ensures
        reply_files("```rust\n"@ + listing(with_newlines(files)) + "```"@) == files,
        (forall|j: int| !stands_at(listing(with_newlines(files)), "```rust"@, j)) ==> reply_files(
            listing(with_newlines(files)),
        ) == files,
{
    reveal_strlit("```rust\n");
    reveal_strlit("```rust");
    reveal_strlit("```");
    reveal_strlit("\n");
    let closed = with_newlines(files);
    let none = Seq::<char>::empty();
    let list = listing(closed);
    lemma_closed(files);
    assert(none + list =~= list);
    assert("```"@ + none =~= "```"@);
    fenced_files_come_back(none, none, none, closed, none);
    assert(none + "```rust"@ + none + "\n"@ + (none + list) + "```"@ + none =~= "```rust\n"@ + list
        + "```"@);
    if forall|j: int| !stands_at(list, "```rust"@, j) {
        bare_files_come_back(none, closed);
    }
}

fn entry(path: &str, content: &str) -> (r: MultiFileEntry)
    ensures
        r.path@ == path@,
        r.content@ == trim(content@),
{
    MultiFileEntry { path: path.to_owned(), content: trimmed(content) }
}

/// The files in the lines of a text.
fn parse_lines(v: &[char]) -> (r: Vec<MultiFileEntry>)
    ensures
        entry_texts(r@) == files_in(lines_from(v@, 0), None, Seq::empty()),
{
    let marker = to_chars(MARKER);
    let mut out: Vec<MultiFileEntry> = Vec::new();
    let mut path: Option<String> = None;
    let mut content = String::new();
    let mut at: usize = 0;
    let ghost all = files_in(lines_from(v@, 0), None, Seq::empty());
    proof {
        assert(entry_texts(out@) =~= Seq::<(Seq<char>, Seq<char>)>::empty());
        assert(content@ =~= Seq::<char>::empty());
        assert(all =~= entry_texts(out@) + files_in(lines_from(v@, 0), None, content@));
    }
    while at < v.len()
        invariant
            at <= v.len(),
            marker@ == MARKER@,
            path is None ==> content@ == Seq::<char>::empty(),
            all == entry_texts(out@) + files_in(
                lines_from(v@, at as int),
                match path {
                    Some(p) => Some(p@),
                    None => None,
                },
                content@,
            ),
        decreases v.len() - at,
    {
        let line = line_at(v, at);
        let text = &v[at..line.to];
        let ghost lines = lines_from(v@, at as int);
        let ghost rest = lines_from(v@, line.next as int);
        let ghost before = entry_texts(out@);
        proof {
            assert(lines[0] == text@);
            assert(lines.subrange(1, lines.len() as int) =~= rest);
        }
        let a: usize = find_start(text, 0, text.len());
        if chars_at(text, marker.as_slice(), a) {
            let from: usize = a + marker.len();
            proof {
                lemma_trim_range(text@, from as int, text@.len() as int);
            }
            let x: usize = find_start(text, from, text.len());
            let y: usize = find_end(text, x, text.len());
            let next = chars_to_string(text, x, y);
            assert(marked_path(text@) == Some(next@));
            match path {
                Some(p) => {
                    let e = entry(p.as_str(), content.as_str());
                    out.push(e);
                    assert(entry_texts(out@) =~= before + finished(Some(p@), content@));
                },
                None => {
                    assert(before + finished(None, content@) =~= before);
                },
            }
            path = Some(next);
            content = String::new();
            proof {
                assert(content@ =~= Seq::<char>::empty());
                assert(all =~= entry_texts(out@) + files_in(rest, Some(next@), content@));
            }
        } else {
            assert(marked_path(text@) is None);
            if path.is_some() {
                let ghost had = content@;
                push_chars(&mut content, text, 0, text.len());
                content.push('\n');
                assert(text@.subrange(0, text@.len() as int) =~= text@);
                assert(content@ =~= had + text@.push('\n'));
            }
        }
        at = line.next;
    }
    let ghost before = entry_texts(out@);
    assert(lines_from(v@, at as int) =~= Seq::<Seq<char>>::empty());
    match path {
        Some(p) => {
            let e = entry(p.as_str(), content.as_str());
            out.push(e);
            assert(entry_texts(out@) =~= before + finished(Some(p@), content@));
        },
        None => {
            assert(before + finished(None, content@) =~= before);
        },
    }
    out
}

/// The files in a reply. None where it holds no marker.
pub fn parse_multi_file_response(raw: &str) -> (r: Vec<MultiFileEntry>)
    ensures
        entry_texts(r@) == reply_files(raw@),
{
    let v = to_chars(raw);
    let all = v.as_slice();
    let fence = to_chars("```rust");
    let close = to_chars("```");
    let newline = to_chars("\n");
    proof {
        reveal_strlit("```rust");
        reveal_strlit("\n");
        assert(fence@.len() == 7 && newline@.len() == 1);
        assert(all@.len() == all.len());
    }
    match find_chars(all, fence.as_slice(), 0) {
        Some(p) => {
            let a: usize = match find_chars(all, newline.as_slice(), p + 7) {
                Some(i) => i + 1,
                None => p + 7,
            };
            let inner = &all[a..all.len()];
            match rfind_chars(inner, close.as_slice()) {
                Some(e) => parse_lines(&inner[0..e]),
                None => parse_lines(inner),
            }
        },
        None => parse_lines(all),
    }
}

/// The requests that store a project, one for each file.
pub fn persist_multi_file_project(project_id: &str, files: &[MultiFileEntry]) -> (r: Vec<
    WriteRequest,
>)
    ensures
        r@.len() == files@.len(),
        forall|i: int|
            0 <= i < files@.len() ==> (#[trigger] r@[i]).name@ == qualified(
                project_id@,
                files@[i].path@,
            ) && r@[i].content@ == encode_utf8(files@[i].content@),
{
    let proj = Project::new(project_id);
    let mut out: Vec<WriteRequest> = Vec::new();
    let mut i: usize = 0;
    while i < files.len()
        invariant
            i <= files.len(),
            proj.name@ == project_id@,
            out@.len() == i,
            forall|k: int|
                0 <= k < i ==> (#[trigger] out@[k]).name@ == qualified(project_id@, files@[k].path@)
                    && out@[k].content@ == encode_utf8(files@[k].content@),
        decreases files.len() - i,
    {
        out.push(proj.write(files[i].path.as_str(), files[i].content.as_str().as_bytes()));
        i = i + 1;
    }
    out
}

/// How many of the first `k` requests were stored.
pub open spec fn stored_among(results: Seq<bool>, k: int) -> int
    decreases k,
{
    if k <= 0 {
        0
    } else {
        stored_among(results, k - 1) + (if results[k - 1] {
            1int
        } else {
            0
        })
    }
}

/// How many requests were stored. A failed one does not stop the others.
pub fn count_stored(results: &[bool]) -> (r: usize)
    ensures
        r == stored_among(results@, results@.len() as int),
        r <= results@.len(),
{
    let mut n: usize = 0;
    let mut i: usize = 0;
    while i < results.len()
        invariant
            n <= i <= results.len(),
            n == stored_among(results@, i as int),
        decreases results.len() - i,
    {
        if results[i] {
            n = n + 1;
        }
        i = i + 1;
    }
    n
}

/// A one-line summary of a finished project.
pub fn summary_line(project_id: &str, written: usize, parsed: usize) -> (r: String)
    ensures
        r@ == "[Phase-C] "@ + project_id@ + " done: "@ + dec_chars(written as nat) + " of "@
            + dec_chars(parsed as nat) + " file(s) persisted"@,
{
    let mut out = "[Phase-C] ".to_owned();
    out.push_str(project_id);
    out.push_str(" done: ");
    push_dec(&mut out, written as u64);
    out.push_str(" of ");
    push_dec(&mut out, parsed as u64);
    out.push_str(" file(s) persisted");
    out
}

/// A request that was stored counts, and any other does not.
pub proof fn stored_requests_are_counted(results: Seq<bool>)
    ensures
        stored_among(results, results.len() as int) == results.filter(|r: bool| r).len(),
    decreases results.len(),
{
    reveal(Seq::filter);
    if results.len() > 0 {
        stored_requests_are_counted(results.drop_last());
        lemma_stored_front(results, results.len() - 1);
    }
}

proof fn lemma_stored_front(results: Seq<bool>, k: int)
    requires
        0 <= k < results.len(),
    ensures
        stored_among(results, k) == stored_among(results.drop_last(), k),
    decreases k,
{
    if k > 0 {
        lemma_stored_front(results, k - 1);
    }
}

} // verus!

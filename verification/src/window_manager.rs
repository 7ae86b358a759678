//! The window stack: text lines, focus, stacking order and hit testing.
//!
//! Windows are kept bottom to top. The last one is drawn over the others and
//! is the first that a click reaches.
use vstd::prelude::*;
use vstd::string::*;
use vstd::utf8::*;

use crate::text::capped;
use crate::widgets::{fitting, pad128, pad32, padded, UiWidget};

verus! {

broadcast use vstd::seq_lib::group_seq_properties;

pub const TITLE_BAR_H: usize = 22;

pub const BORDER_W: usize = 2;

pub const CLOSE_BTN_W: usize = 16;

pub const CLOSE_BTN_MARGIN: usize = 4;

/// Lines that a window keeps.
pub const MAX_LINES: usize = 30;

/// Bytes that a line takes.
pub const MAX_LINE_LEN: usize = 127;

// ---------------------------------------------------------------------
// Text lines
// ---------------------------------------------------------------------

/// One line of window text.
pub struct TextLine {
    pub buf: [u8; 128],
    pub len: usize,
}

/// A line as the contracts see it.
#[verifier::ext_equal]
pub struct LineView {
    pub buf: Seq<u8>,
    pub len: nat,
}

impl View for TextLine {
    type V = LineView;

    open spec fn view(&self) -> LineView {
        LineView { buf: self.buf@, len: self.len as nat }
    }
}

/// The line that holds the first bytes of a text.
pub open spec fn line_with(text: Seq<u8>) -> LineView {
    let len = fitting(text, MAX_LINE_LEN as int);
    LineView { buf: padded(text, len, 128), len: len as nat }
}

/// Valid UTF-8 as text; anything else as the empty text.
pub open spec fn text_or_empty(s: Seq<u8>) -> Seq<char> {
    if valid_utf8(s) {
        decode_utf8(s)
    } else {
        Seq::empty()
    }
}

/// Valid UTF-8 as text; anything else as the empty text.
pub fn str_or_empty(s: &[u8]) -> (r: &str)
    ensures
        r@ == text_or_empty(s@),
{
    match core::str::from_utf8(s) {
        Ok(t) => {
            proof {
                encode_utf8_decode_utf8(t@);
            }
            t
        },
        Err(_) => {
            proof {
                reveal_strlit("");
                assert(""@ =~= Seq::<char>::empty());
            }
            ""
        },
    }
}

impl TextLine {
    pub fn empty() -> (r: Self)
        ensures
            r@ == line_with(Seq::empty()),
    {
        let r = TextLine { buf: [0u8;128], len: 0 };
        assert(r@ =~= line_with(Seq::empty()));
        r
    }

    /// The text of the line, or the empty text where the line ends in the
    /// middle of a character.
    pub fn as_str(&self) -> (r: &str)
        requires
            self.len <= 128,
        ensures
            r@ == text_or_empty(self.buf@.subrange(0, self.len as int)),
    {
        let all = self.buf.as_slice();
        str_or_empty(&all[0..self.len])
    }
}

/// The lines of a window.
pub open spec fn lines_view(lines: Seq<TextLine>) -> Seq<LineView> {
    lines.map_values(|l: TextLine| l@)
}

/// A line more; the oldest goes where the window is full.
pub open spec fn push_line_view(ls: Seq<LineView>, l: LineView) -> Seq<LineView> {
    if ls.len() >= MAX_LINES {
        ls.drop_first().push(l)
    } else {
        ls.push(l)
    }
}

/// A byte more in a line.
pub open spec fn line_push(l: LineView, b: u8) -> LineView {
    LineView { buf: l.buf.update(l.len as int, b), len: l.len + 1 }
}

/// One byte of text: a newline opens a line, any other byte goes into the last
/// line, and a full line wraps.
pub open spec fn append_byte(ls: Seq<LineView>, b: u8) -> Seq<LineView> {
    let blank = line_with(Seq::empty());
    if b == 0x0A {
        push_line_view(ls, blank)
    } else if ls.len() == 0 {
        seq![line_push(blank, b)]
    } else if ls.last().len >= MAX_LINE_LEN {
        push_line_view(ls, line_push(blank, b))
    } else {
        ls.update(ls.len() - 1, line_push(ls.last(), b))
    }
}

/// A run of bytes, one after the other.
pub open spec fn append_bytes(ls: Seq<LineView>, data: Seq<u8>) -> Seq<LineView>
    decreases data.len(),
{
    if data.len() == 0 {
        ls
    } else {
        append_byte(append_bytes(ls, data.drop_last()), data.last())
    }
}

/// What every window keeps: at most thirty lines of at most 127 bytes.
pub open spec fn lines_fit(ls: Seq<LineView>) -> bool {
    &&& ls.len() <= MAX_LINES
    &&& forall|i: int| 0 <= i < ls.len() ==> (#[trigger] ls[i]).len <= MAX_LINE_LEN
}

/// A new line keeps the window within its limits.
pub proof fn push_line_keeps_limits(ls: Seq<LineView>, text: Seq<u8>)
    requires
        lines_fit(ls),
    ensures
        lines_fit(push_line_view(ls, line_with(text))),
{
    let l = line_with(text);
    let out = push_line_view(ls, l);
    assert forall|i: int| 0 <= i < out.len() implies (#[trigger] out[i]).len <= MAX_LINE_LEN by {
        if i < out.len() - 1 {
            if ls.len() >= MAX_LINES {
                assert(out[i] == ls[i + 1]);
            } else {
                assert(out[i] == ls[i]);
            }
        }
    }
}

/// Streamed text keeps the window within its limits.
pub proof fn append_keeps_limits(ls: Seq<LineView>, data: Seq<u8>)
    requires
        lines_fit(ls),
    ensures
        lines_fit(append_bytes(ls, data)),
    decreases data.len(),
{
    if data.len() > 0 {
        append_keeps_limits(ls, data.drop_last());
        let before = append_bytes(ls, data.drop_last());
        let b = data.last();
        let blank = line_with(Seq::empty());
        push_line_keeps_limits(before, Seq::empty());
        let out = append_byte(before, b);
        assert forall|i: int| 0 <= i < out.len() implies (#[trigger] out[i]).len
            <= MAX_LINE_LEN by {
            if b != 0x0A && before.len() > 0 && before.last().len >= MAX_LINE_LEN && i < out.len()
                - 1 {
                if before.len() >= MAX_LINES {
                    assert(out[i] == before[i + 1]);
                } else {
                    assert(out[i] == before[i]);
                }
            }
        }
    }
}

/// Appending two runs of bytes is appending them as one.
pub proof fn append_in_pieces(ls: Seq<LineView>, a: Seq<u8>, b: Seq<u8>)
    ensures
        append_bytes(append_bytes(ls, a), b) == append_bytes(ls, a + b),
    decreases b.len(),
{
    if b.len() == 0 {
        assert(a + b =~= a);
    } else {
        append_in_pieces(ls, a, b.drop_last());
        assert((a + b).drop_last() =~= a + b.drop_last());
    }
}

// ---------------------------------------------------------------------
// Windows
// ---------------------------------------------------------------------

#[derive(Debug, PartialEq, Eq, Structural, Clone, Copy)]
pub enum WindowKind {
    /// Text-only window.
    Terminal,
    /// Window with widgets.
    App,
}

pub struct Window {
    pub id: u32,
    pub title: [u8; 32],
    pub title_len: usize,
    pub x: i32,
    pub y: i32,
    /// Width of the content, inside the border.
    pub width: u32,
    /// Height of the content, inside the border and below the title bar.
    pub height: u32,
    pub lines: Vec<TextLine>,
    pub widgets: Vec<UiWidget>,
    pub kind: WindowKind,
    pub visible: bool,
    pub dragging: bool,
    pub drag_offset_x: i32,
    pub drag_offset_y: i32,
    /// Task that gets the events of this window.
    pub owner_task: u32,
    pub interactive: bool,
    pub input_buf: [u8; 128],
    pub input_len: usize,
    pub input_cursor: usize,
    /// Index of the widget with the keyboard focus, in focus order.
    pub focused_widget: Option<usize>,
    /// Content changed since the last redraw.
    pub dirty: bool,
    /// Text is being streamed in.
    pub typing: bool,
}

impl Window {
    /// Pixels from the left border to the right one.
    pub open spec fn outer_w(self) -> int {
        self.width + 2 * BORDER_W
    }

    /// Pixels from the top border to the bottom one.
    pub open spec fn outer_h(self) -> int {
        TITLE_BAR_H + self.height + 2 * BORDER_W
    }

    pub fn total_w(&self) -> (r: usize)
        ensures
            r == capped(self.outer_w()),
    {
        (self.width as usize).saturating_add(BORDER_W * 2)
    }

    pub fn total_h(&self) -> (r: usize)
        ensures
            r == capped(self.outer_h()),
    {
        (self.height as usize).saturating_add(TITLE_BAR_H + BORDER_W * 2)
    }

    /// The current input, or the empty text where it is no valid UTF-8.
    pub fn input_str(&self) -> (r: &str)
        requires
            self.input_len <= 128,
        ensures
            r@ == text_or_empty(self.input_buf@.subrange(0, self.input_len as int)),
    {
        let all = self.input_buf.as_slice();
        str_or_empty(&all[0..self.input_len])
    }

    /// Empties the input.
    pub fn clear_input(&mut self)
        ensures
            *final(self) == (Window {
                input_len: 0,
                input_cursor: 0,
                input_buf: final(self).input_buf,
                ..*old(self)
            }),
            final(self).input_buf@ == Seq::new(128, |i: int| 0u8),
    {
        self.input_len = 0;
        self.input_cursor = 0;
        self.input_buf = [0u8;128];
        assert(self.input_buf@ =~= Seq::new(128, |i: int| 0u8));
    }

    /// Adds a line.
    fn add_line(&mut self, line: TextLine)
        ensures
            lines_view(final(self).lines@) == push_line_view(lines_view(old(self).lines@), line@),
            final(self).lines@.len() > 0,
            *final(self) == (Window { lines: final(self).lines, dirty: true, ..*old(self) }),
    {
        let ghost before = lines_view(self.lines@);
        if self.lines.len() >= MAX_LINES {
            self.lines.remove(0);
            assert(lines_view(self.lines@) =~= before.drop_first());
        }
        let ghost kept = lines_view(self.lines@);
        self.lines.push(line);
        assert(lines_view(self.lines@) =~= kept.push(line@));
        self.dirty = true;
    }

    /// Appends a text line, dropping the oldest where the window is full. Text
    /// beyond 127 bytes is cut.
    pub fn push_line(&mut self, text: &str)
        ensures
            lines_view(final(self).lines@) == push_line_view(
                lines_view(old(self).lines@),
                line_with(text.spec_bytes()),
            ),
            final(self).lines@.len() > 0,
            *final(self) == (Window { lines: final(self).lines, dirty: true, ..*old(self) }),
    {
        let bytes = text.as_bytes();
        let len: usize = if bytes.len() < MAX_LINE_LEN {
            bytes.len()
        } else {
            MAX_LINE_LEN
        };
        let line = TextLine { buf: pad128(bytes, len), len };
        assert(line@ =~= line_with(text.spec_bytes()));
        self.add_line(line);
    }

    /// Puts a byte behind the last line's text.
    fn extend_last(&mut self, byte: u8)
        requires
            old(self).lines@.len() > 0,
            old(self).lines@.last().len < MAX_LINE_LEN,
        ensures
            lines_view(final(self).lines@) == lines_view(old(self).lines@).update(
                old(self).lines@.len() - 1,
                line_push(old(self).lines@.last()@, byte),
            ),
            *final(self) == (Window { lines: final(self).lines, ..*old(self) }),
    {
        let ghost before = lines_view(self.lines@);
        let last: usize = self.lines.len() - 1;
        let mut buf: [u8; 128] = self.lines[last].buf;
        let len: usize = self.lines[last].len;
        buf[len] = byte;
        let line = TextLine { buf, len: len + 1 };
        assert(line@ =~= line_push(before.last(), byte));
        self.lines.set(last, line);
        assert(lines_view(self.lines@) =~= before.update(last as int, line@));
    }

    /// Appends raw bytes: a newline opens a line, a full line wraps, and the
    /// oldest line goes where there are too many.
    pub fn append_text(&mut self, data: &[u8])
        ensures
            lines_view(final(self).lines@) == append_bytes(lines_view(old(self).lines@), data@),
            *final(self) == (Window { lines: final(self).lines, dirty: true, ..*old(self) }),
    {
        let ghost start = *self;
        let ghost first = lines_view(self.lines@);
        let mut i: usize = 0;
        assert(append_bytes(first, data@.subrange(0, 0)) =~= first);
        while i < data.len()
            invariant
                i <= data.len(),
                lines_view(self.lines@) == append_bytes(first, data@.subrange(0, i as int)),
                *self == (Window { lines: self.lines, dirty: self.dirty, ..start }),
            decreases data.len() - i,
        {
            let byte: u8 = data[i];
            let ghost before = lines_view(self.lines@);
            proof {
                assert(data@.subrange(0, i + 1).drop_last() =~= data@.subrange(0, i as int));
                assert(self.lines@.len() == before.len());
                if self.lines@.len() > 0 {
                    assert(before.last() == self.lines@.last()@);
                }
            }
            if byte == 0x0A {
                self.add_line(TextLine::empty());
            } else {
                if self.lines.len() == 0 || self.lines[self.lines.len() - 1].len
                    >= MAX_LINE_LEN {
                    self.add_line(TextLine::empty());
                    let ghost mid = lines_view(self.lines@);
                    proof {
                        assert(mid.last() == self.lines@.last()@);
                        assert(mid.last() == line_with(Seq::empty()));
                    }
                    self.extend_last(byte);
                    proof {
                        let l = line_push(line_with(Seq::empty()), byte);
                        assert(lines_view(self.lines@) =~= push_line_view(before, l));
                    }
                } else {
                    self.extend_last(byte);
                }
            }
            i = i + 1;
        }
        assert(data@.subrange(0, i as int) =~= data@);
        self.dirty = true;
    }
}

// ---------------------------------------------------------------------
// The stack
// ---------------------------------------------------------------------

/// Part of a window that a click reaches.
#[derive(Debug, Copy, Clone, PartialEq, Eq, Structural)]
pub enum HitZone {
    TitleBar,
    CloseButton,
    Content,
}

pub struct WindowManager {
    /// Bottom to top.
    pub windows: Vec<Window>,
    pub next_id: u32,
    pub focused_id: Option<u32>,
}

/// Whether a point lies in a window, its frame included.
pub open spec fn covers(w: Window, cx: int, cy: int) -> bool {
    w.x <= cx < w.x + w.outer_w() && w.y <= cy < w.y + w.outer_h()
}

/// The zone of a point in a window: the title bar, with the close button at its
/// right end, or the rest.
pub open spec fn zone_of(w: Window, cx: int, cy: int) -> HitZone {
    let in_bar = BORDER_W <= cy - w.y < BORDER_W + TITLE_BAR_H;
    if in_bar && cx - w.x >= w.outer_w() - (CLOSE_BTN_W + CLOSE_BTN_MARGIN) {
        HitZone::CloseButton
    } else if in_bar {
        HitZone::TitleBar
    } else {
        HitZone::Content
    }
}

/// What a point hits among the first `n` windows: the topmost visible one that
/// covers it.
pub open spec fn hit_window(ws: Seq<Window>, n: int, cx: int, cy: int) -> Option<(u32, HitZone)>
    decreases n,
{
    if n <= 0 {
        None
    } else if ws[n - 1].visible && covers(ws[n - 1], cx, cy) {
        Some((ws[n - 1].id, zone_of(ws[n - 1], cx, cy)))
    } else {
        hit_window(ws, n - 1, cx, cy)
    }
}

/// The first window at or above place `i` that has the id.
pub open spec fn place_of(ws: Seq<Window>, id: u32, i: int) -> Option<int>
    decreases ws.len() - i,
{
    if i >= ws.len() {
        None
    } else if ws[i].id == id {
        Some(i)
    } else {
        place_of(ws, id, i + 1)
    }
}

/// The place of the topmost visible window among the first `n`.
pub open spec fn top_visible(ws: Seq<Window>, n: int) -> Option<int>
    decreases n,
{
    if n <= 0 {
        None
    } else if ws[n - 1].visible {
        Some(n - 1)
    } else {
        top_visible(ws, n - 1)
    }
}

/// The windows without those of an id.
pub open spec fn without_id(ws: Seq<Window>, id: u32) -> Seq<Window>
    decreases ws.len(),
{
    if ws.len() == 0 {
        Seq::empty()
    } else if ws.last().id == id {
        without_id(ws.drop_last(), id)
    } else {
        without_id(ws.drop_last(), id).push(ws.last())
    }
}

/// The window at place `i` on top of the others.
pub open spec fn raised(ws: Seq<Window>, i: int) -> Seq<Window> {
    ws.remove(i).push(ws[i])
}

/// The window at place `i` at the bottom of the others.
pub open spec fn lowered(ws: Seq<Window>, i: int) -> Seq<Window> {
    ws.remove(i).insert(0, ws[i])
}

/// The stack after a switch to the next window: the topmost visible one goes to
/// the bottom.
pub open spec fn cycled(ws: Seq<Window>) -> Seq<Window> {
    match top_visible(ws, ws.len() as int) {
        Some(i) => lowered(ws, i),
        None => ws,
    }
}

/// Whether a window is a fresh terminal with this title and geometry.
pub open spec fn is_terminal(
    w: Window,
    id: u32,
    title: Seq<u8>,
    x: i32,
    y: i32,
    width: u32,
    height: u32,
) -> bool {
    &&& w.id == id
    &&& w.title_len == fitting(title, 31)
    &&& w.title@ == padded(title, w.title_len as int, 32)
    &&& w.x == x && w.y == y && w.width == width && w.height == height
    &&& w.lines@.len() == 0 && w.widgets@.len() == 0
    &&& w.kind is Terminal
    &&& w.visible && w.dirty
    &&& !w.dragging && !w.interactive && !w.typing
    &&& w.drag_offset_x == 0 && w.drag_offset_y == 0 && w.owner_task == 0
    &&& w.input_buf@ == Seq::new(128, |i: int| 0u8)
    &&& w.input_len == 0 && w.input_cursor == 0
    &&& w.focused_widget is None
}

impl WindowManager {
    /// No two windows share an id, and every id was handed out before.
    pub open spec fn wf(self) -> bool {
        &&& forall|i: int, j: int|
            0 <= i < j < self.windows@.len() ==> (#[trigger] self.windows@[i]).id
                != (#[trigger] self.windows@[j]).id
        &&& forall|i: int|
            0 <= i < self.windows@.len() ==> (#[trigger] self.windows@[i]).id < self.next_id
    }

    pub fn new() -> (m: Self)
        ensures
            m.wf(),
            m.windows@.len() == 0,
            m.next_id == 1,
            m.focused_id is None,
    {
        WindowManager { windows: Vec::new(), next_id: 1, focused_id: None }
    }

    /// Opens a terminal on top of the stack, gives it the focus, and returns
    /// its id. A title beyond 31 bytes is cut.
    pub fn create_terminal(
        &mut self,
        title: &str,
        x: i32,
        y: i32,
        width: u32,
        height: u32,
    ) -> (id: u32)
        requires
            old(self).next_id < u32::MAX,
        ensures
            id == old(self).next_id,
            final(self).next_id == old(self).next_id + 1,
            final(self).focused_id == Some(id),
            final(self).windows@.len() == old(self).windows@.len() + 1,
            final(self).windows@.drop_last() == old(self).windows@,
            is_terminal(final(self).windows@.last(), id, title.spec_bytes(), x, y, width, height),
            old(self).wf() ==> final(self).wf(),
    {
        let id: u32 = self.next_id;
        self.next_id = self.next_id + 1;
        let bytes = title.as_bytes();
        let len: usize = if bytes.len() < 31 {
            bytes.len()
        } else {
            31
        };
        let win = Window {
            id,
            title: pad32(bytes, len),
            title_len: len,
            x,
            y,
            width,
            height,
            lines: Vec::new(),
            widgets: Vec::new(),
            kind: WindowKind::Terminal,
            visible: true,
            dragging: false,
            drag_offset_x: 0,
            drag_offset_y: 0,
            owner_task: 0,
            interactive: false,
            input_buf: [0u8;128],
            input_len: 0,
            input_cursor: 0,
            focused_widget: None,
            dirty: true,
            typing: false,
        };
        assert(win.input_buf@ =~= Seq::new(128, |i: int| 0u8));
        self.windows.push(win);
        self.focused_id = Some(id);
        assert(self.windows@.drop_last() =~= old(self).windows@);
        id
    }

    /// Closes the windows of an id. Where it had the focus, the topmost of the
    /// rest gets it.
    pub fn close_window(&mut self, id: u32)
        ensures
            final(self).windows@ == without_id(old(self).windows@, id),
            final(self).next_id == old(self).next_id,
            final(self).focused_id == (if old(self).focused_id == Some(id) {
                if final(self).windows@.len() > 0 {
                    Some(final(self).windows@.last().id)
                } else {
                    None
                }
            } else {
                old(self).focused_id
            }),
            old(self).wf() ==> final(self).wf(),
    {
        let ghost all = self.windows@;
        let mut i: usize = 0;
        proof {
            assert(all.subrange(0, 0) =~= Seq::<Window>::empty());
            assert(all.subrange(0, all.len() as int) =~= all);
            assert(self.windows@.subrange(0, 0) =~= without_id(all.subrange(0, 0), id));
        }
        let ghost mut done: int = 0;
        while i < self.windows.len()
            invariant
                0 <= done <= all.len(),
                i <= self.windows@.len(),
                all == old(self).windows@,
                self.next_id == old(self).next_id,
                self.focused_id == old(self).focused_id,
                self.windows@.len() - i == all.len() - done,
                self.windows@.subrange(0, i as int) == without_id(all.subrange(0, done), id),
                self.windows@.subrange(i as int, self.windows@.len() as int) == all.subrange(
                    done,
                    all.len() as int,
                ),
            decreases self.windows@.len() - i,
        {
            let ghost before = self.windows@;
            proof {
                assert(before[i as int] == before.subrange(i as int, before.len() as int)[0]);
                assert(all.subrange(done, all.len() as int)[0] == all[done]);
                assert(all.subrange(0, done + 1).drop_last() =~= all.subrange(0, done));
            }
            if self.windows[i].id == id {
                self.windows.remove(i);
                proof {
                    assert(self.windows@.subrange(0, i as int) =~= before.subrange(0, i as int));
                    assert(self.windows@.subrange(i as int, self.windows@.len() as int)
                        =~= before.subrange(i as int, before.len() as int).drop_first());
                    assert(all.subrange(done, all.len() as int).drop_first() =~= all.subrange(
                        done + 1,
                        all.len() as int,
                    ));
                }
            } else {
                proof {
                    assert(before.subrange(0, i + 1) =~= before.subrange(0, i as int).push(
                        before[i as int],
                    ));
                    assert(before.subrange(i + 1, before.len() as int) =~= before.subrange(
                        i as int,
                        before.len() as int,
                    ).drop_first());
                    assert(all.subrange(done, all.len() as int).drop_first() =~= all.subrange(
                        done + 1,
                        all.len() as int,
                    ));
                }
                i = i + 1;
            }
            proof {
                done = done + 1;
            }
        }
        proof {
            assert(self.windows@.subrange(0, i as int) =~= self.windows@);
            assert(all.subrange(0, done) =~= all);
            if old(self).wf() {
                lemma_without_id_keeps_ids(all, id, self.next_id);
            }
        }
        if self.focused_id == Some(id) {
            self.focused_id = if self.windows.len() > 0 {
                Some(self.windows[self.windows.len() - 1].id)
            } else {
                None
            };
        }
    }

    /// The lowest window of that id.
    pub fn get_window(&self, id: u32) -> (r: Option<&Window>)
        ensures
            match place_of(self.windows@, id, 0) {
                Some(i) => r == Some(&self.windows@[i]),
                None => r is None,
            },
    {
        match self.find_place(id) {
            Some(i) => Some(&self.windows[i]),
            None => None,
        }
    }

    fn find_place(&self, id: u32) -> (r: Option<usize>)
        ensures
            match r {
                Some(i) => place_of(self.windows@, id, 0) == Some(i as int) && i
                    < self.windows@.len(),
                None => place_of(self.windows@, id, 0) is None,
            },
    {
        let mut i: usize = 0;
        while i < self.windows.len()
            invariant
                i <= self.windows@.len(),
                place_of(self.windows@, id, 0) == place_of(self.windows@, id, i as int),
            decreases self.windows@.len() - i,
        {
            if self.windows[i].id == id {
                return Some(i);
            }
            i = i + 1;
        }
        None
    }

    /// The lowest window of that id, for changing.
    pub fn get_window_mut(&mut self, id: u32) -> (r: Option<&mut Window>)
        ensures
            match place_of(old(self).windows@, id, 0) {
                Some(i) => match r {
                    Some(w) => *w == old(self).windows@[i] && final(self).windows@
                        == old(self).windows@.update(i, *final(w)) && final(self).next_id
                        == old(self).next_id && final(self).focused_id == old(self).focused_id,
                    None => false,
                },
                None => r is None && *final(self) == *old(self),
            },
    {
        match self.find_place(id) {
            Some(i) => Some(&mut self.windows[i]),
            None => None,
        }
    }

    /// The window and zone at a screen coordinate.
    pub fn hit_test(&self, cx: i32, cy: i32) -> (r: Option<(u32, HitZone)>)
        ensures
            r == hit_window(self.windows@, self.windows@.len() as int, cx as int, cy as int),
            is_hit(self.windows@, cx as int, cy as int, r),
    {
        proof {
            lemma_is_hit(self.windows@, cx as int, cy as int);
        }
        let mut n: usize = self.windows.len();
        while n > 0
            invariant
                n <= self.windows@.len(),
                is_hit(
                    self.windows@,
                    cx as int,
                    cy as int,
                    hit_window(self.windows@, self.windows@.len() as int, cx as int, cy as int),
                ),
                hit_window(self.windows@, self.windows@.len() as int, cx as int, cy as int)
                    == hit_window(self.windows@, n as int, cx as int, cy as int),
            decreases n,
        {
            let win = &self.windows[n - 1];
            let rel_x: i64 = cx as i64 - win.x as i64;
            let rel_y: i64 = cy as i64 - win.y as i64;
            let ww: i64 = win.width as i64 + 2 * BORDER_W as i64;
            let wh: i64 = TITLE_BAR_H as i64 + win.height as i64 + 2 * BORDER_W as i64;
            if win.visible && 0 <= rel_x && rel_x < ww && 0 <= rel_y && rel_y < wh {
                let close_x: i64 = ww - (CLOSE_BTN_W + CLOSE_BTN_MARGIN) as i64;
                let in_bar: bool = BORDER_W as i64 <= rel_y && rel_y < (BORDER_W
                    + TITLE_BAR_H) as i64;
                if in_bar && rel_x >= close_x {
                    return Some((win.id, HitZone::CloseButton));
                }
                if in_bar {
                    return Some((win.id, HitZone::TitleBar));
                }
                return Some((win.id, HitZone::Content));
            }
            n = n - 1;
        }
        None
    }

    fn find_top_visible(&self) -> (r: Option<usize>)
        ensures
            match r {
                Some(i) => top_visible(self.windows@, self.windows@.len() as int) == Some(i as int)
                    && i < self.windows@.len(),
                None => top_visible(self.windows@, self.windows@.len() as int) is None,
            },
    {
        let mut n: usize = self.windows.len();
        while n > 0
            invariant
                n <= self.windows@.len(),
                top_visible(self.windows@, self.windows@.len() as int) == top_visible(
                    self.windows@,
                    n as int,
                ),
            decreases n,
        {
            if self.windows[n - 1].visible {
                return Some(n - 1);
            }
            n = n - 1;
        }
        None
    }

    /// Switches to the next window: the topmost visible one goes to the bottom,
    /// and the one that is topmost then gets the focus. Returns its title.
    pub fn cycle_next_window(&mut self) -> (r: Option<([u8; 32], usize)>)
        ensures
            final(self).next_id == old(self).next_id,
            old(self).windows@.len() < 2 ==> r is None && *final(self) == *old(self),
            old(self).windows@.len() >= 2 ==> {
                let ws = cycled(old(self).windows@);
                &&& final(self).windows@ == ws
                &&& match top_visible(ws, ws.len() as int) {
                    Some(i) => final(self).focused_id == Some(ws[i].id) && r == Some(
                        (ws[i].title, ws[i].title_len),
                    ),
                    None => final(self).focused_id == old(self).focused_id && r is None,
                }
            },
            old(self).wf() ==> final(self).wf(),
    {
        if self.windows.len() < 2 {
            return None;
        }
        match self.find_top_visible() {
            Some(i) => {
                let win = self.windows.remove(i);
                self.windows.insert(0, win);
                assert(self.windows@ =~= lowered(old(self).windows@, i as int));
                proof {
                    if old(self).wf() {
                        lemma_lowered_keeps_ids(old(self).windows@, i as int, self.next_id);
                    }
                }
            },
            None => {},
        }
        match self.find_top_visible() {
            Some(i) => {
                self.focused_id = Some(self.windows[i].id);
                Some((self.windows[i].title, self.windows[i].title_len))
            },
            None => None,
        }
    }

    /// Gives a window the focus and brings it to the top.
    pub fn focus(&mut self, id: u32)
        ensures
            final(self).focused_id == Some(id),
            final(self).next_id == old(self).next_id,
            final(self).windows@ == (match place_of(old(self).windows@, id, 0) {
                Some(i) => raised(old(self).windows@, i),
                None => old(self).windows@,
            }),
            old(self).wf() ==> final(self).wf(),
    {
        self.focused_id = Some(id);
        match self.find_place(id) {
            Some(pos) => {
                let win = self.windows.remove(pos);
                self.windows.push(win);
                assert(self.windows@ =~= raised(old(self).windows@, pos as int));
                proof {
                    if old(self).wf() {
                        lemma_raised_keeps_ids(old(self).windows@, pos as int, self.next_id);
                    }
                }
            },
            None => {},
        }
    }

    /// Whether any window is visible.
    pub fn has_visible(&self) -> (r: bool)
        ensures
            r == exists|i: int| 0 <= i < self.windows@.len() && (#[trigger] self.windows@[i]).visible,
    {
        let mut i: usize = 0;
        while i < self.windows.len()
            invariant
                i <= self.windows@.len(),
                forall|k: int| 0 <= k < i ==> !(#[trigger] self.windows@[k]).visible,
            decreases self.windows@.len() - i,
        {
            if self.windows[i].visible {
                return true;
            }
            i = i + 1;
        }
        false
    }
}

/// Distinct ids below a bound.
pub open spec fn ids_ok(ws: Seq<Window>, next: u32) -> bool {
    &&& forall|i: int, j: int|
        0 <= i < j < ws.len() ==> (#[trigger] ws[i]).id != (#[trigger] ws[j]).id
    &&& forall|i: int| 0 <= i < ws.len() ==> (#[trigger] ws[i]).id < next
}

proof fn lemma_without_id_keeps_ids(ws: Seq<Window>, id: u32, next: u32)
    requires
        ids_ok(ws, next),
    ensures
        ids_ok(without_id(ws, id), next),
        forall|i: int|
            0 <= i < without_id(ws, id).len() ==> ws.contains(#[trigger] without_id(ws, id)[i]),
    decreases ws.len(),
{
    if ws.len() > 0 {
        let front = ws.drop_last();
        assert forall|i: int| 0 <= i < front.len() implies (#[trigger] front[i]).id < next by {
            assert(front[i] == ws[i]);
        }
        assert forall|i: int, j: int| 0 <= i < j < front.len() implies (#[trigger] front[i]).id != (
        #[trigger] front[j]).id by {
            assert(front[i] == ws[i] && front[j] == ws[j]);
        }
        lemma_without_id_keeps_ids(front, id, next);
        let kept = without_id(front, id);
        assert forall|i: int| 0 <= i < kept.len() implies ws.contains(#[trigger] kept[i])
            && kept[i].id != ws.last().id by {
            assert(front.contains(kept[i]));
            let k = choose|k: int| 0 <= k < front.len() && front[k] == kept[i];
            assert(ws[k] == kept[i]);
            assert(ws[ws.len() - 1] == ws.last());
        }
        if ws.last().id != id {
            let out = without_id(ws, id);
            assert(out == kept.push(ws.last()));
            assert(ws[ws.len() - 1] == ws.last());
            assert forall|i: int| 0 <= i < out.len() implies ws.contains(#[trigger] out[i]) by {
                if i < kept.len() {
                    assert(out[i] == kept[i]);
                }
            }
        }
    }
}

proof fn lemma_raised_keeps_ids(ws: Seq<Window>, p: int, next: u32)
    requires
        ids_ok(ws, next),
        0 <= p < ws.len(),
    ensures
        ids_ok(raised(ws, p), next),
{
    let out = raised(ws, p);
    assert forall|i: int| 0 <= i < out.len() implies (#[trigger] out[i]).id < next by {
        let k = if i == out.len() - 1 { p } else if i < p { i } else { i + 1 };
        assert(out[i] == ws[k]);
    }
    assert forall|i: int, j: int| 0 <= i < j < out.len() implies (#[trigger] out[i]).id != (
    #[trigger] out[j]).id by {
        let a = if i < p { i } else { i + 1 };
        let b = if j == out.len() - 1 { p } else if j < p { j } else { j + 1 };
        assert(out[i] == ws[a] && out[j] == ws[b]);
    }
}

proof fn lemma_lowered_keeps_ids(ws: Seq<Window>, p: int, next: u32)
    requires
        ids_ok(ws, next),
        0 <= p < ws.len(),
    ensures
        ids_ok(lowered(ws, p), next),
{
    let out = lowered(ws, p);
    assert forall|i: int| 0 <= i < out.len() implies (#[trigger] out[i]).id < next by {
        let k = if i == 0 { p } else if i <= p { i - 1 } else { i };
        assert(out[i] == ws[k]);
    }
    assert forall|i: int, j: int| 0 <= i < j < out.len() implies (#[trigger] out[i]).id != (
    #[trigger] out[j]).id by {
        let a = if i == 0 { p } else if i <= p { i - 1 } else { i };
        let b = if j <= p { j - 1 } else { j };
        assert(out[i] == ws[a] && out[j] == ws[b]);
    }
}

/// Raising or cycling only reorders the stack: no window is lost or doubled.
pub proof fn restacking_keeps_windows(ws: Seq<Window>, p: int)
    requires
        0 <= p < ws.len(),
    ensures
        raised(ws, p).to_multiset() == ws.to_multiset(),
        cycled(ws).to_multiset() == ws.to_multiset(),
{
    broadcast use vstd::seq_lib::group_to_multiset_ensures;

    assert(ws.to_multiset().contains(ws[p]));
    assert(raised(ws, p).to_multiset() =~= ws.to_multiset());
    lemma_top_visible(ws, ws.len() as int);
    match top_visible(ws, ws.len() as int) {
        Some(i) => {
            assert(ws.to_multiset().contains(ws[i]));
            assert(lowered(ws, i).to_multiset() =~= ws.to_multiset());
        },
        None => {},
    }
}

proof fn lemma_top_visible(ws: Seq<Window>, n: int)
    requires
        0 <= n <= ws.len(),
    ensures
        match top_visible(ws, n) {
            Some(i) => 0 <= i < n && ws[i].visible && forall|k: int|
                i < k < n ==> !(#[trigger] ws[k]).visible,
            None => forall|k: int| 0 <= k < n ==> !(#[trigger] ws[k]).visible,
        },
    decreases n,
{
    if n > 0 && !ws[n - 1].visible {
        lemma_top_visible(ws, n - 1);
    }
}

/// The visible windows, bottom to top.
pub open spec fn visible_of(ws: Seq<Window>) -> Seq<Window>
    decreases ws.len(),
{
    if ws.len() == 0 {
        Seq::empty()
    } else if ws.last().visible {
        visible_of(ws.drop_last()).push(ws.last())
    } else {
        visible_of(ws.drop_last())
    }
}

proof fn lemma_visible_sum(a: Seq<Window>, b: Seq<Window>)
    ensures
        visible_of(a + b) == visible_of(a) + visible_of(b),
    decreases b.len(),
{
    if b.len() == 0 {
        assert(a + b =~= a);
        assert(visible_of(a) + visible_of(b) =~= visible_of(a));
    } else {
        assert((a + b).drop_last() =~= a + b.drop_last());
        assert((a + b).last() == b.last());
        lemma_visible_sum(a, b.drop_last());
        assert(visible_of(a + b) =~= visible_of(a) + visible_of(b));
    }
}

proof fn lemma_none_visible(ws: Seq<Window>)
    requires
        forall|k: int| 0 <= k < ws.len() ==> !(#[trigger] ws[k]).visible,
    ensures
        visible_of(ws) == Seq::<Window>::empty(),
    decreases ws.len(),
{
    if ws.len() > 0 {
        assert(!ws[ws.len() - 1].visible);
        lemma_none_visible(ws.drop_last());
    }
}

proof fn lemma_all_visible(ws: Seq<Window>)
    requires
        forall|k: int| 0 <= k < ws.len() ==> (#[trigger] ws[k]).visible,
    ensures
        visible_of(ws) == ws,
    decreases ws.len(),
{
    if ws.len() > 0 {
        assert(ws[ws.len() - 1].visible);
        lemma_all_visible(ws.drop_last());
        assert(ws.drop_last().push(ws.last()) =~= ws);
    }
}

/// The topmost visible window, and the visible windows below it.
proof fn lemma_visible_top(ws: Seq<Window>)
    ensures
        match top_visible(ws, ws.len() as int) {
            Some(i) => 0 <= i < ws.len() && visible_of(ws) == visible_of(ws.subrange(0, i)).push(
                ws[i],
            ) && visible_of(cycled(ws)) == seq![ws[i]] + visible_of(ws.subrange(0, i)),
            None => visible_of(ws).len() == 0,
        },
{
    let n = ws.len() as int;
    lemma_top_visible(ws, n);
    match top_visible(ws, n) {
        Some(i) => {
            let a = ws.subrange(0, i);
            let m = seq![ws[i]];
            let b = ws.subrange(i + 1, n);
            assert forall|k: int| 0 <= k < b.len() implies !(#[trigger] b[k]).visible by {
                assert(b[k] == ws[i + 1 + k]);
            }
            lemma_none_visible(b);
            lemma_all_visible(m);
            lemma_visible_sum(a, m);
            lemma_visible_sum(a + m, b);
            assert(ws =~= a + m + b);
            assert(visible_of(ws) =~= visible_of(a).push(ws[i]));
            assert(lowered(ws, i) =~= m + a + b);
            lemma_visible_sum(m, a);
            lemma_visible_sum(m + a, b);
            assert(visible_of(lowered(ws, i)) =~= m + visible_of(a));
        },
        None => {
            lemma_none_visible(ws);
        },
    }
}

/// The stack after `k` switches.
pub open spec fn cycled_times(ws: Seq<Window>, k: nat) -> Seq<Window>
    decreases k,
{
    if k == 0 {
        ws
    } else {
        cycled(cycled_times(ws, (k - 1) as nat))
    }
}

/// The topmost visible window `k` switches later: counted from the top, the
/// next one each time, and in the end the first again.
pub open spec fn turn(n: int, k: int) -> int {
    if k < n {
        n - 1 - k
    } else {
        n - 1
    }
}

proof fn lemma_cycled_times(ws: Seq<Window>, k: nat)
    requires
        k <= visible_of(ws).len(),
    ensures
        ({
            let v = visible_of(ws);
            let n = v.len() as int;
            visible_of(cycled_times(ws, k)) == v.subrange(n - k, n) + v.subrange(0, n - k)
        }),
    decreases k,
{
    let v = visible_of(ws);
    let n = v.len() as int;
    if k == 0 {
        assert(v.subrange(n, n) + v.subrange(0, n) =~= v);
    } else {
        let before = cycled_times(ws, (k - 1) as nat);
        lemma_cycled_times(ws, (k - 1) as nat);
        lemma_visible_top(before);
        let u = visible_of(before);
        assert(u == v.subrange(n - k + 1, n) + v.subrange(0, n - k + 1));
        assert(u.len() == n);
        let i = top_visible(before, before.len() as int).unwrap();
        assert(u.last() == before[i]);
        assert(u.last() == v[n - k]);
        assert(visible_of(before.subrange(0, i)) =~= u.drop_last());
        assert(visible_of(cycled(before)) =~= v.subrange(n - k, n) + v.subrange(0, n - k));
    }
}

/// With `n` visible windows, `n` switches give each of them the focus once: the
/// `k`-th switch gives it to the `k`-th one below the top, and the last to the
/// one that was on top. Then the visible windows are in their old order, and
/// where all are visible, so is the whole stack.
pub proof fn cycling_visits_every_window(ws: Seq<Window>, k: nat)
    requires
        1 <= k <= visible_of(ws).len(),
    ensures
        ({
            let v = visible_of(ws);
            let n = v.len() as int;
            let after = cycled_times(ws, k);
            &&& top_visible(after, after.len() as int) matches Some(i) && after[i] == v[turn(
                n,
                k as int,
            )]
            &&& forall|j: int| 1 <= j <= n && #[trigger] turn(n, j) == turn(n, k as int) ==> j == k
            &&& visible_of(cycled_times(ws, v.len())) == v
            &&& (forall|j: int| 0 <= j < ws.len() ==> (#[trigger] ws[j]).visible) ==> cycled_times(
                ws,
                v.len(),
            ) == ws
        }),
{
    let v = visible_of(ws);
    let n = v.len() as int;
    let after = cycled_times(ws, k);
    lemma_cycled_times(ws, k);
    lemma_cycled_times(ws, v.len());
    lemma_visible_top(after);
    assert(visible_of(after).len() == n);
    assert(visible_of(after).last() == v[turn(n, k as int)]);
    assert(v.subrange(0, n) + v.subrange(0, 0) =~= v);
    if forall|j: int| 0 <= j < ws.len() ==> (#[trigger] ws[j]).visible {
        lemma_all_visible(ws);
        lemma_cycling_keeps_visible(ws, v.len());
        lemma_all_visible(cycled_times(ws, v.len()));
    }
}

proof fn lemma_cycling_keeps_visible(ws: Seq<Window>, k: nat)
    requires
        forall|j: int| 0 <= j < ws.len() ==> (#[trigger] ws[j]).visible,
    ensures
        forall|j: int|
            0 <= j < cycled_times(ws, k).len() ==> (#[trigger] cycled_times(ws, k)[j]).visible,
    decreases k,
{
    if k > 0 {
        let before = cycled_times(ws, (k - 1) as nat);
        lemma_cycling_keeps_visible(ws, (k - 1) as nat);
        lemma_top_visible(before, before.len() as int);
        match top_visible(before, before.len() as int) {
            Some(i) => {
                let out = lowered(before, i);
                assert forall|j: int| 0 <= j < out.len() implies (#[trigger] out[j]).visible by {
                    let p = if j == 0 { i } else if j <= i { j - 1 } else { j };
                    assert(out[j] == before[p]);
                }
            },
            None => {},
        }
    }
}

/// Whether `after` comes from `before` by something that opens no window, as far
/// as ids are concerned.
pub open spec fn opens_none(before: WindowManager, after: WindowManager) -> bool {
    after.next_id == before.next_id
}

/// Whether `after` comes from `before` by opening a window. Its id is the next
/// one of `before`.
pub open spec fn opens_one(before: WindowManager, after: WindowManager) -> bool {
    after.next_id == before.next_id + 1
}

/// However windows are opened, closed and restacked, no id is handed out twice,
/// not even that of a window that was closed.
pub proof fn ids_are_never_reused(history: Seq<WindowManager>, i: int, j: int)
    requires
        forall|k: int|
            0 <= k < history.len() - 1 ==> opens_none(#[trigger] history[k], history[k + 1])
                || opens_one(history[k], history[k + 1]),
        0 <= i < j < history.len() - 1,
        opens_one(history[i], history[i + 1]),
        opens_one(history[j], history[j + 1]),
    ensures
        history[i].next_id < history[j].next_id,
{
    lemma_ids_rise(history, i + 1, j);
}

proof fn lemma_ids_rise(history: Seq<WindowManager>, i: int, j: int)
    requires
        forall|k: int|
            0 <= k < history.len() - 1 ==> opens_none(#[trigger] history[k], history[k + 1])
                || opens_one(history[k], history[k + 1]),
        0 <= i <= j < history.len(),
    ensures
        history[i].next_id <= history[j].next_id,
    decreases j - i,
{
    if i < j {
        lemma_ids_rise(history, i, j - 1);
        assert(opens_none(history[j - 1], history[j]) || opens_one(history[j - 1], history[j]));
    }
}

/// A closed window is gone, and every other one is still there.
pub proof fn close_removes_only_that(ws: Seq<Window>, id: u32, i: int)
    requires
        0 <= i < ws.len(),
    ensures
        forall|k: int| 0 <= k < without_id(ws, id).len() ==> (#[trigger] without_id(ws, id)[k]).id != id,
        ws[i].id != id ==> without_id(ws, id).contains(ws[i]),
    decreases ws.len(),
{
    let front = ws.drop_last();
    if front.len() > 0 {
        close_removes_only_that(front, id, if i < front.len() { i } else { 0 });
    } else {
        assert(without_id(front, id) =~= Seq::<Window>::empty());
    }
    let kept = without_id(front, id);
    if ws.last().id != id {
        let out = without_id(ws, id);
        assert(out == kept.push(ws.last()));
        if ws[i].id != id {
            if i < front.len() {
                assert(kept.contains(front[i]));
                let k = choose|k: int| 0 <= k < kept.len() && kept[k] == front[i];
                assert(out[k] == ws[i]);
            } else {
                assert(out[out.len() - 1] == ws[i]);
            }
        }
    }
}

/// A window that is focused and visible is hit first wherever it covers.
pub proof fn focused_window_is_hit_first(ws: Seq<Window>, p: int, cx: int, cy: int)
    requires
        0 <= p < ws.len(),
        ws[p].visible,
        covers(ws[p], cx, cy),
    ensures
        hit_window(raised(ws, p), ws.len() as int, cx, cy) == Some(
            (ws[p].id, zone_of(ws[p], cx, cy)),
        ),
{
    assert(raised(ws, p)[ws.len() - 1] == ws[p]);
}

// ---------------------------------------------------------------------
// What clicks, stacking and text mean, in pixels and bytes
// ---------------------------------------------------------------------

/// Whether a point lies in the frame of a window: the content, a border of two
/// pixels on each side, and a title bar of 22 pixels.
pub open spec fn in_frame(w: Window, cx: int, cy: int) -> bool {
    w.x <= cx < w.x + w.width + 4 && w.y <= cy < w.y + w.height + 26
}

/// Whether a point is at the height of the title bar of a window.
pub open spec fn at_bar_height(w: Window, cy: int) -> bool {
    w.y + 2 <= cy < w.y + 24
}

/// Whether a point is within twenty pixels of the right edge of a window.
pub open spec fn near_right_edge(w: Window, cx: int) -> bool {
    cx >= w.x + w.width + 4 - 20
}

/// Whether the window at place `i` is the topmost of the first `n` that is
/// visible and whose frame holds the point.
pub open spec fn is_topmost(ws: Seq<Window>, n: int, i: int, cx: int, cy: int) -> bool {
    &&& 0 <= i < n
    &&& ws[i].visible
    &&& in_frame(ws[i], cx, cy)
    &&& forall|j: int| i < j < n ==> !((#[trigger] ws[j]).visible && in_frame(ws[j], cx, cy))
}

/// Whether `r` is what a click hits: the zone of the topmost window that holds
/// the point, and nothing only where no visible window does.
pub open spec fn is_hit(ws: Seq<Window>, cx: int, cy: int, r: Option<(u32, HitZone)>) -> bool {
    &&& forall|i: int| #[trigger]
        is_topmost(ws, ws.len() as int, i, cx, cy) ==> r == Some(
            (
                ws[i].id,
                if !at_bar_height(ws[i], cy) {
                    HitZone::Content
                } else if near_right_edge(ws[i], cx) {
                    HitZone::CloseButton
                } else {
                    HitZone::TitleBar
                },
            ),
        )
    &&& r is None <==> forall|j: int|
        0 <= j < ws.len() ==> !((#[trigger] ws[j]).visible && in_frame(ws[j], cx, cy))
}

proof fn lemma_is_hit(ws: Seq<Window>, cx: int, cy: int)
    ensures
        is_hit(ws, cx, cy, hit_window(ws, ws.len() as int, cx, cy)),
{
    clicks_hit_the_topmost(ws, 0, cx, cy);
    assert forall|i: int| #[trigger]
        is_topmost(ws, ws.len() as int, i, cx, cy) implies hit_window(ws, ws.len() as int, cx, cy)
        == Some(
        (
            ws[i].id,
            if !at_bar_height(ws[i], cy) {
                HitZone::Content
            } else if near_right_edge(ws[i], cx) {
                HitZone::CloseButton
            } else {
                HitZone::TitleBar
            },
        ),
    ) by {
        clicks_hit_the_topmost(ws, i, cx, cy);
    }
}

/// What a click hits: the topmost visible window whose frame holds the point,
/// and nothing only where no visible frame does. It hits the close button
/// exactly in the last twenty pixels of the title bar, the bar in the rest of
/// it, and the content everywhere else.
pub proof fn clicks_hit_the_topmost(ws: Seq<Window>, i: int, cx: int, cy: int)
    ensures
        is_topmost(ws, ws.len() as int, i, cx, cy) ==> hit_window(ws, ws.len() as int, cx, cy)
            == Some(
            (
                ws[i].id,
                if !at_bar_height(ws[i], cy) {
                    HitZone::Content
                } else if near_right_edge(ws[i], cx) {
                    HitZone::CloseButton
                } else {
                    HitZone::TitleBar
                },
            ),
        ),
        hit_window(ws, ws.len() as int, cx, cy) is None <==> forall|j: int|
            0 <= j < ws.len() ==> !((#[trigger] ws[j]).visible && in_frame(ws[j], cx, cy)),
{
    lemma_hit_among(ws, ws.len() as int, i, cx, cy);
}

#[verifier::rlimit(40)]
proof fn lemma_hit_among(ws: Seq<Window>, n: int, i: int, cx: int, cy: int)
    requires
        0 <= n <= ws.len(),
    ensures
        is_topmost(ws, n, i, cx, cy) ==> hit_window(ws, n, cx, cy) == Some(
            (
                ws[i].id,
                if !at_bar_height(ws[i], cy) {
                    HitZone::Content
                } else if near_right_edge(ws[i], cx) {
                    HitZone::CloseButton
                } else {
                    HitZone::TitleBar
                },
            ),
        ),
        hit_window(ws, n, cx, cy) is None <==> forall|j: int|
            0 <= j < n ==> !((#[trigger] ws[j]).visible && in_frame(ws[j], cx, cy)),
    decreases n,
{
    if n > 0 {
        let w = ws[n - 1];
        assert(covers(w, cx, cy) == in_frame(w, cx, cy));
        lemma_hit_among(ws, n - 1, i, cx, cy);
        if w.visible && covers(w, cx, cy) {
            assert(ws[n - 1].visible);
        }
    }
}

/// Every hit is on some window: the topmost one that holds the point.
pub proof fn hits_have_a_window(ws: Seq<Window>, n: int, cx: int, cy: int) -> (i: int)
    requires
        0 <= n <= ws.len(),
        hit_window(ws, n, cx, cy) is Some,
    ensures
        is_topmost(ws, n, i, cx, cy),
    decreases n,
{
    let w = ws[n - 1];
    assert(covers(w, cx, cy) == in_frame(w, cx, cy));
    if w.visible && covers(w, cx, cy) {
        n - 1
    } else {
        hits_have_a_window(ws, n - 1, cx, cy)
    }
}

/// The size of a window on the screen: its content, two pixels of border on
/// each side, and 22 pixels of title bar.
pub proof fn frames_surround_the_content(w: Window)
    ensures
        w.outer_w() == w.width + 4,
        w.outer_h() == w.height + 26,
{
}

/// Closing keeps the order of the windows that stay.
pub proof fn closing_keeps_the_order(ws: Seq<Window>, id: u32)
    ensures
        without_id(ws, id) == ws.filter(|w: Window| w.id != id),
    decreases ws.len(),
{
    reveal(Seq::filter);
    if ws.len() > 0 {
        closing_keeps_the_order(ws.drop_last(), id);
    }
}

/// Raising a window puts it on top and keeps the order of the others; lowering
/// puts it at the bottom.
pub proof fn restacking_moves_one(ws: Seq<Window>, p: int)
    requires
        0 <= p < ws.len(),
    ensures
        raised(ws, p).len() == ws.len(),
        raised(ws, p).last() == ws[p],
        raised(ws, p).drop_last() == ws.subrange(0, p) + ws.subrange(p + 1, ws.len() as int),
        lowered(ws, p).len() == ws.len(),
        lowered(ws, p)[0] == ws[p],
        lowered(ws, p).drop_first() == ws.subrange(0, p) + ws.subrange(p + 1, ws.len() as int),
{
    assert(raised(ws, p).drop_last() =~= ws.subrange(0, p) + ws.subrange(p + 1, ws.len() as int));
    assert(lowered(ws, p).drop_first() =~= ws.subrange(0, p) + ws.subrange(p + 1, ws.len() as int));
}

/// Switching lowers the topmost visible window, and does nothing where none is
/// visible.
pub proof fn switching_lowers_the_top(ws: Seq<Window>, p: int)
    ensures
        0 <= p < ws.len() && ws[p].visible && (forall|k: int|
            p < k < ws.len() ==> !(#[trigger] ws[k]).visible) ==> cycled(ws) == lowered(ws, p)
            && top_visible(ws, ws.len() as int) == Some(p),
        (forall|k: int| 0 <= k < ws.len() ==> !(#[trigger] ws[k]).visible) ==> cycled(ws) == ws
            && top_visible(ws, ws.len() as int) is None,
{
    lemma_top_visible(ws, ws.len() as int);
    if top_visible(ws, ws.len() as int) is Some {
        let i = top_visible(ws, ws.len() as int)->0;
        assert(ws[i].visible);
    }
}

/// A window is found under its id at the lowest place that has it.
pub proof fn windows_are_found(ws: Seq<Window>, id: u32)
    ensures
        match place_of(ws, id, 0) {
            Some(i) => 0 <= i < ws.len() && ws[i].id == id && forall|k: int|
                0 <= k < i ==> (#[trigger] ws[k]).id != id,
            None => forall|k: int| 0 <= k < ws.len() ==> (#[trigger] ws[k]).id != id,
        },
{
    lemma_found_from(ws, id, 0);
}

proof fn lemma_found_from(ws: Seq<Window>, id: u32, i: int)
    requires
        0 <= i,
    ensures
        match place_of(ws, id, i) {
            Some(n) => i <= n < ws.len() && ws[n].id == id && forall|k: int|
                i <= k < n ==> (#[trigger] ws[k]).id != id,
            None => forall|k: int| i <= k < ws.len() ==> (#[trigger] ws[k]).id != id,
        },
    decreases ws.len() - i,
{
    if i < ws.len() && ws[i].id != id {
        lemma_found_from(ws, id, i + 1);
    }
}

/// A fresh terminal is where it was asked for and as large, shows the title,
/// and is visible and empty.
pub proof fn terminals_are_as_asked(
    w: Window,
    id: u32,
    title: Seq<u8>,
    x: i32,
    y: i32,
    width: u32,
    height: u32,
)
    requires
        is_terminal(w, id, title, x, y, width, height),
    ensures
        w.id == id,
        w.x == x,
        w.y == y,
        w.width == width,
        w.height == height,
        w.title_len <= 31,
        w.title_len == title.len() || (title.len() > 31 && w.title_len == 31),
        w.title@.subrange(0, w.title_len as int) == title.subrange(0, w.title_len as int),
        w.visible,
        w.lines@.len() == 0,
        w.widgets@.len() == 0,
        w.input_len == 0,
        !w.dragging,
        w.focused_widget is None,
{
    assert(w.title@.len() == 32);
    assert(w.title@.subrange(0, w.title_len as int) =~= title.subrange(0, w.title_len as int));
}

/// The text of a line.
pub open spec fn line_text(l: LineView) -> Seq<u8> {
    l.buf.subrange(0, l.len as int)
}

/// Whether a line has its buffer of 128 bytes and at most 127 bytes of text.
pub open spec fn line_ok(l: LineView) -> bool {
    l.buf.len() == 128 && l.len <= 127
}

/// A line holds as much of its text as fits into 127 bytes.
pub proof fn lines_hold_their_text(text: Seq<u8>)
    ensures
        line_ok(line_with(text)),
        text.len() <= 127 ==> line_text(line_with(text)) == text,
        text.len() > 127 ==> line_text(line_with(text)) == text.subrange(0, 127),
{
    let l = line_with(text);
    assert(text.len() <= 127 ==> line_text(l) =~= text);
    assert(text.len() > 127 ==> line_text(l) =~= text.subrange(0, 127));
}

/// A new line is the last one; the others stay, except that a window of thirty
/// lines loses its first.
pub proof fn new_lines_are_last(ls: Seq<LineView>, l: LineView)
    requires
        ls.len() <= 30,
    ensures
        push_line_view(ls, l).last() == l,
        ls.len() < 30 ==> push_line_view(ls, l).drop_last() == ls,
        ls.len() == 30 ==> push_line_view(ls, l).drop_last() == ls.subrange(1, 30),
{
    assert(push_line_view(ls, l).drop_last() =~= if ls.len() < 30 {
        ls
    } else {
        ls.subrange(1, 30)
    });
}

/// What a byte of streamed text does: a newline opens an empty line; any other
/// byte goes behind the text of the last line, and where that has 127 bytes, or
/// there is none, into a line of its own.
#[verifier::rlimit(40)]
pub proof fn streamed_bytes_go_behind(ls: Seq<LineView>, b: u8)
    requires
        ls.len() <= 30,
        forall|i: int| 0 <= i < ls.len() ==> line_ok(#[trigger] ls[i]),
    ensures
        ({
            let after = append_bytes(ls, seq![b]);
            let opened = b == 10 || ls.len() == 0 || ls.last().len == 127;
            let kept = if !opened {
                ls.drop_last()
            } else if ls.len() == 30 {
                ls.subrange(1, 30)
            } else {
                ls
            };
            let text = if b == 10 {
                Seq::<u8>::empty()
            } else if opened {
                seq![b]
            } else {
                line_text(ls.last()).push(b)
            };
            &&& after.len() == kept.len() + 1
            &&& after.drop_last() == kept
            &&& line_ok(after.last())
            &&& line_text(after.last()) == text
        }),
        append_bytes(ls, Seq::empty()) == ls,
{
    let one = seq![b];
    assert(one.drop_last() =~= Seq::<u8>::empty());
    assert(append_bytes(ls, one.drop_last()) == ls);
    assert(one.last() == b);
    assert(append_bytes(ls, one) == append_byte(ls, b));
    let after = append_byte(ls, b);
    let opened = b == 10 || ls.len() == 0 || ls.last().len == 127;
    if opened {
        let kept = if ls.len() == 30 {
            ls.subrange(1, 30)
        } else {
            ls
        };
        assert(after.drop_last() =~= kept);
        assert(line_text(after.last()) =~= if b == 10 {
            Seq::<u8>::empty()
        } else {
            seq![b]
        });
    } else {
        assert(line_ok(ls[ls.len() - 1]));
        assert(after.drop_last() =~= ls.drop_last());
        assert(line_text(after.last()) =~= line_text(ls.last()).push(b));
    }
}

/// Bytes that are UTF-8 are shown as their text, and others as nothing.
pub proof fn bytes_as_text(text: Seq<char>, s: Seq<u8>)
    ensures
        text_or_empty(encode_utf8(text)) == text,
        !valid_utf8(s) ==> text_or_empty(s).len() == 0,
{
    encode_utf8_valid_utf8(text);
    encode_utf8_decode_utf8(text);
}

} // verus!

//! What a window looks like: the drawing operations for its frame, its text and
//! its widgets, in the order in which they go to the framebuffer.
use vstd::prelude::*;
use vstd::string::*;

use crate::widgets::{
    cap, cap_add, col_height, focusables, focusables_of, height_of, row_width, tallest,
    widget_height, widget_width, UiWidget,
};
use crate::window_manager::{str_or_empty, text_or_empty, Window, WindowManager};

verus! {

broadcast use vstd::seq_lib::group_seq_properties;

pub const WIN_TITLE_BG_FOCUSED: u32 = 0x1a3a6e;

pub const WIN_TITLE_BG_UNFOCUSED: u32 = 0x1a2a3e;

pub const WIN_TITLE_FG: u32 = 0xffffff;

pub const WIN_BORDER_FOCUSED: u32 = 0xff9900;

pub const WIN_BORDER_UNFOCUSED: u32 = 0x556677;

pub const WIN_BG: u32 = 0x0d1f30;

pub const WIN_TEXT_FG: u32 = 0x99ffcc;

pub const WIN_CLOSE_BG: u32 = 0xcc2244;

pub const WIN_CLOSE_FG: u32 = 0xffffff;

pub const FOCUS_RING_COLOR: u32 = 0x00CCFF;

pub const PROMPT_FG: u32 = 0x00CCFF;

pub const SEPARATOR_FG: u32 = 0x334455;

pub const FIELD_BG: u32 = 0x0a1520;

pub const FIELD_BORDER: u32 = 0x556677;

pub const PLACEHOLDER_FG: u32 = 0x667788;

pub const WHITE: u32 = 0xFFFFFF;

/// One drawing operation. Colours are 24-bit RGB.
#[derive(Debug)]
pub enum DrawCmd {
    /// Filled rectangle.
    Fill { x: u128, y: u128, w: u128, h: u128, color: u32 },
    /// Outline of a rectangle.
    Frame { x: u128, y: u128, w: u128, h: u128, color: u32 },
    /// Rectangle blended over what is there.
    Shade { x: u128, y: u128, w: u128, h: u128, color: u32, alpha: u8 },
    /// Text in the small font, cut at the right edge of the screen.
    Text { x: u128, y: u128, text: String, fg: u32, bg: u32 },
    /// One character in the small font.
    Glyph { x: u128, y: u128, ch: char, fg: u32, bg: u32 },
}

/// A drawing operation as the contracts see it.
pub enum DrawOp {
    Fill { x: int, y: int, w: int, h: int, color: u32 },
    Frame { x: int, y: int, w: int, h: int, color: u32 },
    Shade { x: int, y: int, w: int, h: int, color: u32, alpha: u8 },
    Text { x: int, y: int, text: Seq<char>, fg: u32, bg: u32 },
    Glyph { x: int, y: int, ch: char, fg: u32, bg: u32 },
}

impl View for DrawCmd {
    type V = DrawOp;

    open spec fn view(&self) -> DrawOp {
        match *self {
            DrawCmd::Fill { x, y, w, h, color } => DrawOp::Fill {
                x: x as int,
                y: y as int,
                w: w as int,
                h: h as int,
                color,
            },
            DrawCmd::Frame { x, y, w, h, color } => DrawOp::Frame {
                x: x as int,
                y: y as int,
                w: w as int,
                h: h as int,
                color,
            },
            DrawCmd::Shade { x, y, w, h, color, alpha } => DrawOp::Shade {
                x: x as int,
                y: y as int,
                w: w as int,
                h: h as int,
                color,
                alpha,
            },
            DrawCmd::Text { x, y, text, fg, bg } => DrawOp::Text {
                x: x as int,
                y: y as int,
                text: text@,
                fg,
                bg,
            },
            DrawCmd::Glyph { x, y, ch, fg, bg } => DrawOp::Glyph {
                x: x as int,
                y: y as int,
                ch,
                fg,
                bg,
            },
        }
    }
}

/// The operations of a command list.
pub open spec fn ops(cmds: Seq<DrawCmd>) -> Seq<DrawOp> {
    cmds.map_values(|c: DrawCmd| c@)
}

fn emit(out: &mut Vec<DrawCmd>, c: DrawCmd)
    ensures
        ops(final(out)@) == ops(old(out)@).push(c@),
{
    let ghost before = ops(out@);
    out.push(c);
    assert(ops(out@) =~= before.push(c@));
}

// ---------------------------------------------------------------------
// Widgets
// ---------------------------------------------------------------------

/// Adds to a kept coordinate.
pub open spec fn shift(a: int, b: int) -> int {
    cap(a + b) as int
}

/// One pixel to the left or up, as far as there is one.
pub open spec fn back_one(a: int) -> int {
    if a > 0 {
        a - 1
    } else {
        0
    }
}

pub open spec fn smaller(a: int, b: int) -> int {
    if a < b {
        a
    } else {
        b
    }
}

/// The height that a drawn widget moves its list on: an empty row still takes
/// a text line.
pub open spec fn drawn_height(w: UiWidget) -> nat {
    match w {
        UiWidget::HStack { children, .. } => if children@.len() == 0 {
            12
        } else {
            height_of(w)
        },
        _ => height_of(w),
    }
}

pub open spec fn drawn_heights(ws: Seq<UiWidget>) -> nat
    decreases ws.len(),
{
    if ws.len() == 0 {
        0
    } else {
        drawn_heights(ws.drop_last()) + drawn_height(ws.last())
    }
}

/// The look of a button.
pub open spec fn button_ops(
    x: int,
    y: int,
    max_w: int,
    text: Seq<char>,
    len: int,
    bg: u32,
    fg: u32,
    focused: bool,
) -> Seq<DrawOp> {
    let w = smaller(len * 8 + 16, max_w);
    if focused {
        seq![
            DrawOp::Fill { x, y, w, h: 16, color: fg },
            DrawOp::Text { x: shift(x, 8), y: shift(y, 4), text, fg: bg, bg: fg },
            DrawOp::Frame {
                x: back_one(x),
                y: back_one(y),
                w: w + 2,
                h: 18,
                color: FOCUS_RING_COLOR,
            },
        ]
    } else {
        seq![
            DrawOp::Fill { x, y, w, h: 16, color: bg },
            DrawOp::Frame { x, y, w, h: 16, color: fg },
            DrawOp::Text { x: shift(x, 8), y: shift(y, 4), text, fg, bg },
        ]
    }
}

/// The look of a text input: its value, or the placeholder while it is empty,
/// and the cursor while it has the focus.
pub open spec fn input_ops(
    x: int,
    y: int,
    max_w: int,
    placeholder: Seq<char>,
    value: Seq<char>,
    value_len: int,
    cursor: int,
    focused: bool,
) -> Seq<DrawOp> {
    let w = smaller(max_w, 200);
    let field = seq![
        DrawOp::Fill { x, y, w, h: 16, color: FIELD_BG },
        DrawOp::Frame {
            x,
            y,
            w,
            h: 16,
            color: if focused {
                FOCUS_RING_COLOR
            } else {
                FIELD_BORDER
            },
        },
        if value_len > 0 {
            DrawOp::Text { x: shift(x, 4), y: shift(y, 4), text: value, fg: WHITE, bg: FIELD_BG }
        } else {
            DrawOp::Text {
                x: shift(x, 4),
                y: shift(y, 4),
                text: placeholder,
                fg: PLACEHOLDER_FG,
                bg: FIELD_BG,
            }
        },
    ];
    if focused && 4 + cursor * 8 + 2 <= w {
        field.push(
            DrawOp::Fill { x: shift(x, 4 + cursor * 8), y: shift(y, 2), w: 2, h: 12, color: WHITE },
        )
    } else {
        field
    }
}

/// The look of one tree at `(x, y)`; `n` focusable widgets stand before it.
pub open spec fn widget_ops(
    w: UiWidget,
    x: int,
    y: int,
    max_w: int,
    bg: u32,
    focus: Option<usize>,
    n: nat,
) -> Seq<DrawOp>
    decreases w,
{
    let focused = focus matches Some(f) && f == n;
    match w {
        UiWidget::Label { text, text_len, color } => seq![
            DrawOp::Text {
                x,
                y,
                text: text_or_empty(text@.subrange(0, text_len as int)),
                fg: color,
                bg,
            },
        ],
        UiWidget::Button { label, label_len, bg_color, fg_color, .. } => button_ops(
            x,
            y,
            max_w,
            text_or_empty(label@.subrange(0, label_len as int)),
            label_len as int,
            bg_color,
            fg_color,
            focused,
        ),
        UiWidget::TextInput { placeholder, placeholder_len, value, value_len, cursor_pos, .. } =>
            input_ops(
                x,
                y,
                max_w,
                text_or_empty(placeholder@.subrange(0, placeholder_len as int)),
                text_or_empty(value@.subrange(0, value_len as int)),
                value_len as int,
                cursor_pos as int,
                focused,
            ),
        UiWidget::VStack { children, spacing } => col_ops(
            children@,
            spacing as nat,
            x,
            y,
            max_w,
            bg,
            focus,
            n,
        ),
        UiWidget::HStack { children, spacing } => row_ops(
            children@,
            spacing as nat,
            x,
            y,
            max_w,
            bg,
            focus,
            n,
        ),
        UiWidget::Spacer { .. } => Seq::empty(),
    }
}

/// The look of the children of a vertical stack.
pub open spec fn col_ops(
    ws: Seq<UiWidget>,
    spacing: nat,
    x: int,
    y: int,
    max_w: int,
    bg: u32,
    focus: Option<usize>,
    n: nat,
) -> Seq<DrawOp>
    decreases ws,
{
    if ws.len() == 0 {
        Seq::empty()
    } else {
        let front = ws.drop_last();
        col_ops(front, spacing, x, y, max_w, bg, focus, n) + widget_ops(
            ws.last(),
            x,
            shift(y, col_height(front, spacing) as int),
            max_w,
            bg,
            focus,
            n + focusables(front).len(),
        )
    }
}

/// The look of the children of a horizontal stack.
pub open spec fn row_ops(
    ws: Seq<UiWidget>,
    spacing: nat,
    x: int,
    y: int,
    max_w: int,
    bg: u32,
    focus: Option<usize>,
    n: nat,
) -> Seq<DrawOp>
    decreases ws,
{
    if ws.len() == 0 {
        Seq::empty()
    } else {
        let front = ws.drop_last();
        row_ops(front, spacing, x, y, max_w, bg, focus, n) + widget_ops(
            ws.last(),
            shift(x, row_width(front, spacing) as int),
            y,
            max_w,
            bg,
            focus,
            n + focusables(front).len(),
        )
    }
}

/// The look of the trees of a window.
pub open spec fn list_ops(
    ws: Seq<UiWidget>,
    x: int,
    y: int,
    max_w: int,
    bg: u32,
    focus: Option<usize>,
) -> Seq<DrawOp>
    decreases ws.len(),
{
    if ws.len() == 0 {
        Seq::empty()
    } else {
        let front = ws.drop_last();
        list_ops(front, x, y, max_w, bg, focus) + widget_ops(
            ws.last(),
            x,
            shift(y, drawn_heights(front) as int),
            max_w,
            bg,
            focus,
            focusables(front).len(),
        )
    }
}

/// Whether the text lengths of a list of trees fit their buffers.
pub open spec fn texts_fit(ws: Seq<UiWidget>) -> bool
    decreases ws,
{
    ws.len() > 0 ==> texts_fit(ws.drop_last()) && text_fits(ws.last())
}

/// Whether the text lengths of one tree fit their buffers.
pub open spec fn text_fits(w: UiWidget) -> bool
    decreases w,
{
    match w {
        UiWidget::Label { text_len, .. } => text_len <= 64,
        UiWidget::Button { label_len, .. } => label_len <= 32,
        UiWidget::TextInput { placeholder_len, value_len, .. } => placeholder_len <= 64 && value_len
            <= 64,
        UiWidget::VStack { children, .. } => texts_fit(children@),
        UiWidget::HStack { children, .. } => texts_fit(children@),
        UiWidget::Spacer { .. } => true,
    }
}

proof fn lemma_texts_fit_at(ws: Seq<UiWidget>, i: int)
    requires
        texts_fit(ws),
        0 <= i < ws.len(),
    ensures
        text_fits(ws[i]),
    decreases ws.len(),
{
    if i < ws.len() - 1 {
        lemma_texts_fit_at(ws.drop_last(), i);
    }
}

fn lower(a: u128, b: u128) -> (r: u128)
    ensures
        r == smaller(a as int, b as int),
{
    if a < b {
        a
    } else {
        b
    }
}

fn draw_button(
    out: &mut Vec<DrawCmd>,
    x: u128,
    y: u128,
    max_w: u128,
    label: &str,
    len: usize,
    bg: u32,
    fg: u32,
    focused: bool,
)
    requires
        len <= 32,
    ensures
        ops(final(out)@) == ops(old(out)@) + button_ops(
            x as int,
            y as int,
            max_w as int,
            label@,
            len as int,
            bg,
            fg,
            focused,
        ),
{
    let w: u128 = lower(len as u128 * 8 + 16, max_w);
    if focused {
        emit(out, DrawCmd::Fill { x, y, w, h: 16, color: fg });
        emit(
            out,
            DrawCmd::Text {
                x: cap_add(x, 8),
                y: cap_add(y, 4),
                text: label.to_owned(),
                fg: bg,
                bg: fg,
            },
        );
        emit(
            out,
            DrawCmd::Frame {
                x: if x > 0 {
                    x - 1
                } else {
                    0
                },
                y: if y > 0 {
                    y - 1
                } else {
                    0
                },
                w: w + 2,
                h: 18,
                color: FOCUS_RING_COLOR,
            },
        );
    } else {
        emit(out, DrawCmd::Fill { x, y, w, h: 16, color: bg });
        emit(out, DrawCmd::Frame { x, y, w, h: 16, color: fg });
        emit(
            out,
            DrawCmd::Text { x: cap_add(x, 8), y: cap_add(y, 4), text: label.to_owned(), fg, bg },
        );
    }
    assert(ops(out@) =~= ops(old(out)@) + button_ops(
        x as int,
        y as int,
        max_w as int,
        label@,
        len as int,
        bg,
        fg,
        focused,
    ));
}

fn draw_input(
    out: &mut Vec<DrawCmd>,
    x: u128,
    y: u128,
    max_w: u128,
    placeholder: &str,
    value: &str,
    value_len: usize,
    cursor: usize,
    focused: bool,
)
    ensures
        ops(final(out)@) == ops(old(out)@) + input_ops(
            x as int,
            y as int,
            max_w as int,
            placeholder@,
            value@,
            value_len as int,
            cursor as int,
            focused,
        ),
{
    let w: u128 = lower(max_w, 200);
    emit(out, DrawCmd::Fill { x, y, w, h: 16, color: FIELD_BG });
    emit(
        out,
        DrawCmd::Frame {
            x,
            y,
            w,
            h: 16,
            color: if focused {
                FOCUS_RING_COLOR
            } else {
                FIELD_BORDER
            },
        },
    );
    if value_len > 0 {
        emit(
            out,
            DrawCmd::Text {
                x: cap_add(x, 4),
                y: cap_add(y, 4),
                text: value.to_owned(),
                fg: WHITE,
                bg: FIELD_BG,
            },
        );
    } else {
        emit(
            out,
            DrawCmd::Text {
                x: cap_add(x, 4),
                y: cap_add(y, 4),
                text: placeholder.to_owned(),
                fg: PLACEHOLDER_FG,
                bg: FIELD_BG,
            },
        );
    }
    let at: u128 = 4 + cursor as u128 * 8;
    if focused && at + 2 <= w {
        emit(out, DrawCmd::Fill { x: cap_add(x, at), y: cap_add(y, 2), w: 2, h: 12, color: WHITE });
    }
    assert(ops(out@) =~= ops(old(out)@) + input_ops(
        x as int,
        y as int,
        max_w as int,
        placeholder@,
        value@,
        value_len as int,
        cursor as int,
        focused,
    ));
}

fn draw_widget(
    out: &mut Vec<DrawCmd>,
    w: &UiWidget,
    x: u128,
    y: u128,
    max_w: u128,
    bg: u32,
    focus: Option<usize>,
    n: u128,
    Ghost(ni): Ghost<nat>,
) -> (next: u128)
    requires
        text_fits(*w),
        n == cap(ni as int),
    ensures
        ops(final(out)@) == ops(old(out)@) + widget_ops(
            *w,
            x as int,
            y as int,
            max_w as int,
            bg,
            focus,
            ni,
        ),
        next == cap(ni as int + focusables_of(*w).len()),
    decreases w,
{
    let focused: bool = match focus {
        Some(f) => f as u128 == n,
        None => false,
    };
    let ghost before = ops(out@);
    match w {
        UiWidget::Label { text, text_len, color } => {
            let all = text.as_slice();
            let s = str_or_empty(&all[0..*text_len]);
            emit(out, DrawCmd::Text { x, y, text: s.to_owned(), fg: *color, bg });
            assert(ops(out@) =~= before + widget_ops(
                *w,
                x as int,
                y as int,
                max_w as int,
                bg,
                focus,
                ni,
            ));
            n
        },
        UiWidget::Button { label, label_len, bg_color, fg_color, .. } => {
            let all = label.as_slice();
            let s = str_or_empty(&all[0..*label_len]);
            draw_button(out, x, y, max_w, s, *label_len, *bg_color, *fg_color, focused);
            cap_add(n, 1)
        },
        UiWidget::TextInput { placeholder, placeholder_len, value, value_len, cursor_pos, .. } => {
            let p = placeholder.as_slice();
            let v = value.as_slice();
            draw_input(
                out,
                x,
                y,
                max_w,
                str_or_empty(&p[0..*placeholder_len]),
                str_or_empty(&v[0..*value_len]),
                *value_len,
                *cursor_pos,
                focused,
            );
            cap_add(n, 1)
        },
        UiWidget::VStack { children, spacing } => draw_col(
            out,
            children,
            *spacing,
            x,
            y,
            max_w,
            bg,
            focus,
            n,
            Ghost(ni),
        ),
        UiWidget::HStack { children, spacing } => draw_row(
            out,
            children,
            *spacing,
            x,
            y,
            max_w,
            bg,
            focus,
            n,
            Ghost(ni),
        ),
        UiWidget::Spacer { .. } => {
            assert(before + Seq::<DrawOp>::empty() =~= before);
            n
        },
    }
}

fn draw_col(
    out: &mut Vec<DrawCmd>,
    ws: &[UiWidget],
    spacing: u16,
    x: u128,
    top: u128,
    max_w: u128,
    bg: u32,
    focus: Option<usize>,
    first: u128,
    Ghost(ni): Ghost<nat>,
) -> (next: u128)
    requires
        texts_fit(ws@),
        first == cap(ni as int),
    ensures
        ops(final(out)@) == ops(old(out)@) + col_ops(
            ws@,
            spacing as nat,
            x as int,
            top as int,
            max_w as int,
            bg,
            focus,
            ni,
        ),
        next == cap(ni as int + focusables(ws@).len()),
    decreases ws@,
{
    let mut y: u128 = top;
    let mut n: u128 = first;
    let mut i: usize = 0;
    let ghost start = ops(out@);
    proof {
        assert(ws@.subrange(0, 0) =~= Seq::<UiWidget>::empty());
        assert(start + Seq::<DrawOp>::empty() =~= start);
    }
    while i < ws.len()
        invariant
            i <= ws.len(),
            texts_fit(ws@),
            y == shift(top as int, col_height(ws@.subrange(0, i as int), spacing as nat) as int),
            n == cap(ni as int + focusables(ws@.subrange(0, i as int)).len()),
            ops(out@) == start + col_ops(
                ws@.subrange(0, i as int),
                spacing as nat,
                x as int,
                top as int,
                max_w as int,
                bg,
                focus,
                ni,
            ),
        decreases ws.len() - i,
    {
        let ghost front = ws@.subrange(0, i as int);
        let ghost before = ops(out@);
        proof {
            lemma_texts_fit_at(ws@, i as int);
            assert(ws@.subrange(0, i + 1).drop_last() =~= front);
        }
        n =
        draw_widget(
            out,
            &ws[i],
            x,
            y,
            max_w,
            bg,
            focus,
            n,
            Ghost((ni + focusables(front).len()) as nat),
        );
        let h: u128 = widget_height(&ws[i]);
        y = cap_add(cap_add(y, h), spacing as u128);
        i = i + 1;
        assert(ops(out@) =~= start + col_ops(
            ws@.subrange(0, i as int),
            spacing as nat,
            x as int,
            top as int,
            max_w as int,
            bg,
            focus,
            ni,
        ));
    }
    assert(ws@.subrange(0, i as int) =~= ws@);
    n
}

fn draw_row(
    out: &mut Vec<DrawCmd>,
    ws: &[UiWidget],
    spacing: u16,
    left: u128,
    y: u128,
    max_w: u128,
    bg: u32,
    focus: Option<usize>,
    first: u128,
    Ghost(ni): Ghost<nat>,
) -> (next: u128)
    requires
        texts_fit(ws@),
        first == cap(ni as int),
    ensures
        ops(final(out)@) == ops(old(out)@) + row_ops(
            ws@,
            spacing as nat,
            left as int,
            y as int,
            max_w as int,
            bg,
            focus,
            ni,
        ),
        next == cap(ni as int + focusables(ws@).len()),
    decreases ws@,
{
    let mut x: u128 = left;
    let mut n: u128 = first;
    let mut i: usize = 0;
    let ghost start = ops(out@);
    proof {
        assert(ws@.subrange(0, 0) =~= Seq::<UiWidget>::empty());
        assert(start + Seq::<DrawOp>::empty() =~= start);
    }
    while i < ws.len()
        invariant
            i <= ws.len(),
            texts_fit(ws@),
            x == shift(left as int, row_width(ws@.subrange(0, i as int), spacing as nat) as int),
            n == cap(ni as int + focusables(ws@.subrange(0, i as int)).len()),
            ops(out@) == start + row_ops(
                ws@.subrange(0, i as int),
                spacing as nat,
                left as int,
                y as int,
                max_w as int,
                bg,
                focus,
                ni,
            ),
        decreases ws.len() - i,
    {
        let ghost front = ws@.subrange(0, i as int);
        proof {
            lemma_texts_fit_at(ws@, i as int);
            assert(ws@.subrange(0, i + 1).drop_last() =~= front);
        }
        n =
        draw_widget(
            out,
            &ws[i],
            x,
            y,
            max_w,
            bg,
            focus,
            n,
            Ghost((ni + focusables(front).len()) as nat),
        );
        let w: u128 = widget_width(&ws[i]);
        x = cap_add(cap_add(x, w), spacing as u128);
        i = i + 1;
        assert(ops(out@) =~= start + row_ops(
            ws@.subrange(0, i as int),
            spacing as nat,
            left as int,
            y as int,
            max_w as int,
            bg,
            focus,
            ni,
        ));
    }
    assert(ws@.subrange(0, i as int) =~= ws@);
    n
}

/// Draws the trees of a window in a column from `(x, top)`.
pub fn draw_widgets(
    out: &mut Vec<DrawCmd>,
    ws: &[UiWidget],
    x: u128,
    top: u128,
    max_w: u128,
    bg: u32,
    focus: Option<usize>,
)
    requires
        texts_fit(ws@),
    ensures
        ops(final(out)@) == ops(old(out)@) + list_ops(
            ws@,
            x as int,
            top as int,
            max_w as int,
            bg,
            focus,
        ),
{
    let mut y: u128 = top;
    let mut n: u128 = 0;
    let mut i: usize = 0;
    let ghost start = ops(out@);
    proof {
        assert(ws@.subrange(0, 0) =~= Seq::<UiWidget>::empty());
        assert(start + Seq::<DrawOp>::empty() =~= start);
    }
    while i < ws.len()
        invariant
            i <= ws.len(),
            texts_fit(ws@),
            y == shift(top as int, drawn_heights(ws@.subrange(0, i as int)) as int),
            n == cap(focusables(ws@.subrange(0, i as int)).len() as int),
            ops(out@) == start + list_ops(
                ws@.subrange(0, i as int),
                x as int,
                top as int,
                max_w as int,
                bg,
                focus,
            ),
        decreases ws.len() - i,
    {
        let ghost front = ws@.subrange(0, i as int);
        proof {
            lemma_texts_fit_at(ws@, i as int);
            assert(ws@.subrange(0, i + 1).drop_last() =~= front);
        }
        n = draw_widget(
            out,
            &ws[i],
            x,
            y,
            max_w,
            bg,
            focus,
            n,
            Ghost(focusables(front).len()),
        );
        let h: u128 = match &ws[i] {
            UiWidget::HStack { children, .. } => if children.len() == 0 {
                12
            } else {
                tallest(children)
            },
            w => widget_height(w),
        };
        y = cap_add(y, h);
        i = i + 1;
        assert(ops(out@) =~= start + list_ops(
            ws@.subrange(0, i as int),
            x as int,
            top as int,
            max_w as int,
            bg,
            focus,
        ));
    }
    assert(ws@.subrange(0, i as int) =~= ws@);
}

// ---------------------------------------------------------------------
// Windows
// ---------------------------------------------------------------------

/// What is left of `a` after taking `b`, at least nothing.
pub open spec fn rest_of(a: int, b: int) -> int {
    if a > b {
        a - b
    } else {
        0
    }
}

fn minus(a: u128, b: u128) -> (r: u128)
    ensures
        r == rest_of(a as int, b as int),
{
    if a > b {
        a - b
    } else {
        0
    }
}

/// Whether the text lengths of a window fit their buffers.
pub open spec fn window_fits(w: Window) -> bool {
    &&& w.title_len <= 32
    &&& w.input_len <= 128
    &&& forall|i: int| 0 <= i < w.lines@.len() ==> (#[trigger] w.lines@[i]).len <= 128
    &&& texts_fit(w.widgets@)
}

/// Whether a window lies on the screen as a whole. Others are not drawn.
pub open spec fn on_screen(w: Window, screen_w: int, screen_h: int) -> bool {
    w.x >= 0 && w.y >= 0 && w.x + w.outer_w() <= screen_w && w.y + w.outer_h() <= screen_h
}

/// Shadow, border, title bar, close button and background.
pub open spec fn frame_ops(w: Window, focused: bool) -> Seq<DrawOp> {
    let (x, y) = (w.x as int, w.y as int);
    let (ow, oh) = (w.outer_w(), w.outer_h());
    let reach: int = if focused { 6 } else { 3 };
    let alpha: u8 = if focused { 120 } else { 60 };
    let border = if focused { WIN_BORDER_FOCUSED } else { WIN_BORDER_UNFOCUSED };
    let title_bg = if focused { WIN_TITLE_BG_FOCUSED } else { WIN_TITLE_BG_UNFOCUSED };
    let close_x = rest_of(x + ow, 22);
    let close_y = y + 5;
    seq![
        DrawOp::Shade { x: x + reach, y: y + oh, w: ow, h: reach, color: 0, alpha },
        DrawOp::Shade { x: x + ow, y: y + reach, w: reach, h: oh, color: 0, alpha },
        DrawOp::Frame { x, y, w: ow, h: oh, color: border },
        DrawOp::Frame { x: x + 1, y: y + 1, w: ow - 2, h: oh - 2, color: border },
        DrawOp::Fill { x: x + 2, y: y + 2, w: ow - 4, h: 22, color: title_bg },
        DrawOp::Text {
            x: x + 8,
            y: y + 9,
            text: text_or_empty(w.title@.subrange(0, w.title_len as int)),
            fg: WIN_TITLE_FG,
            bg: title_bg,
        },
        DrawOp::Fill { x: close_x, y: close_y, w: 16, h: 16, color: WIN_CLOSE_BG },
        DrawOp::Glyph {
            x: close_x + 4,
            y: close_y + 4,
            ch: 'x',
            fg: WIN_CLOSE_FG,
            bg: WIN_CLOSE_BG,
        },
        DrawOp::Fill {
            x: x + 2,
            y: y + 24,
            w: w.width as int,
            h: w.height as int,
            color: WIN_BG,
        },
    ]
}

/// Lines that the content holds above the prompt.
pub open spec fn line_room(w: Window) -> int {
    rest_of(rest_of(w.height as int, 12) / 10, if w.interactive { 2 } else { 0 })
}

/// Lines at the top that are scrolled out.
pub open spec fn lines_skipped(w: Window) -> int {
    rest_of(w.lines@.len() as int, line_room(w))
}

/// Lines that are drawn: those that are left and whose eight pixel rows end
/// above the bottom or the prompt.
pub open spec fn lines_drawn(w: Window) -> int {
    let room = rest_of(w.height as int, if w.interactive { 20 } else { 0 });
    let fit = if room < 14 { 0 } else { (room - 14) / 10 + 1 };
    smaller(w.lines@.len() - lines_skipped(w), fit)
}

/// The drawn text lines.
pub open spec fn line_ops(w: Window) -> Seq<DrawOp> {
    Seq::new(
        lines_drawn(w) as nat,
        |k: int|
            {
                let l = w.lines@[lines_skipped(w) + k];
                DrawOp::Text {
                    x: w.x + 8,
                    y: w.y + 30 + 10 * k,
                    text: text_or_empty(l.buf@.subrange(0, l.len as int)),
                    fg: WIN_TEXT_FG,
                    bg: WIN_BG,
                }
            },
    )
}

/// The block at the end of the last line while text is streamed in.
pub open spec fn typing_ops(w: Window) -> Seq<DrawOp> {
    let col = if w.lines@.len() > 0 { w.lines@.last().len as int } else { 0 };
    let row = rest_of(w.lines@.len() - lines_skipped(w), 1);
    if w.typing && 6 + col * 8 + 8 <= w.width && 6 + row * 10 + 8 <= w.height {
        seq![
            DrawOp::Fill {
                x: w.x + 8 + col * 8,
                y: w.y + 30 + row * 10,
                w: 8,
                h: 8,
                color: WIN_TEXT_FG,
            },
        ]
    } else {
        Seq::empty()
    }
}

/// The prompt of an interactive window.
pub open spec fn prompt_ops(w: Window, focused: bool) -> Seq<DrawOp> {
    let y = w.y + 24 + rest_of(w.height as int, 14);
    let line = seq![
        DrawOp::Fill {
            x: w.x + 4,
            y: rest_of(y, 3),
            w: rest_of(w.width as int, 4),
            h: 1,
            color: SEPARATOR_FG,
        },
        DrawOp::Text { x: w.x + 8, y, text: "folk>"@, fg: PROMPT_FG, bg: WIN_BG },
        DrawOp::Text {
            x: w.x + 56,
            y,
            text: text_or_empty(w.input_buf@.subrange(0, w.input_len as int)),
            fg: WHITE,
            bg: WIN_BG,
        },
    ];
    if !w.interactive {
        Seq::empty()
    } else if focused && 54 + w.input_cursor * 8 + 8 <= w.width {
        line.push(DrawOp::Fill { x: w.x + 56 + w.input_cursor * 8, y, w: 8, h: 8, color: WHITE })
    } else {
        line
    }
}

/// Where the widgets of a window begin.
pub open spec fn widgets_top(w: Window) -> int {
    if w.lines@.len() == 0 {
        w.y + 30
    } else {
        w.y + 34 + 10 * lines_drawn(w)
    }
}

/// The whole window.
pub open spec fn window_ops(w: Window, focused: bool, screen_w: int, screen_h: int) -> Seq<DrawOp> {
    if !on_screen(w, screen_w, screen_h) {
        Seq::empty()
    } else {
        frame_ops(w, focused) + line_ops(w) + typing_ops(w) + prompt_ops(w, focused) + list_ops(
            w.widgets@,
            w.x + 8,
            widgets_top(w),
            rest_of(w.width as int, 12),
            WIN_BG,
            w.focused_widget,
        )
    }
}

fn draw_frame(out: &mut Vec<DrawCmd>, win: &Window, focused: bool)
    requires
        win.x >= 0,
        win.y >= 0,
        win.title_len <= 32,
    ensures
        ops(final(out)@) == ops(old(out)@) + frame_ops(*win, focused),
{
    let x: u128 = win.x as u128;
    let y: u128 = win.y as u128;
    let ow: u128 = win.width as u128 + 4;
    let oh: u128 = win.height as u128 + 26;
    let reach: u128 = if focused {
        6
    } else {
        3
    };
    let alpha: u8 = if focused {
        120
    } else {
        60
    };
    let border: u32 = if focused {
        WIN_BORDER_FOCUSED
    } else {
        WIN_BORDER_UNFOCUSED
    };
    let title_bg: u32 = if focused {
        WIN_TITLE_BG_FOCUSED
    } else {
        WIN_TITLE_BG_UNFOCUSED
    };
    emit(out, DrawCmd::Shade { x: x + reach, y: y + oh, w: ow, h: reach, color: 0, alpha });
    emit(out, DrawCmd::Shade { x: x + ow, y: y + reach, w: reach, h: oh, color: 0, alpha });
    emit(out, DrawCmd::Frame { x, y, w: ow, h: oh, color: border });
    emit(out, DrawCmd::Frame { x: x + 1, y: y + 1, w: ow - 2, h: oh - 2, color: border });
    emit(out, DrawCmd::Fill { x: x + 2, y: y + 2, w: ow - 4, h: 22, color: title_bg });
    let title = win.title.as_slice();
    emit(
        out,
        DrawCmd::Text {
            x: x + 8,
            y: y + 9,
            text: str_or_empty(&title[0..win.title_len]).to_owned(),
            fg: WIN_TITLE_FG,
            bg: title_bg,
        },
    );
    let close_x: u128 = minus(x + ow, 22);
    let close_y: u128 = y + 5;
    emit(out, DrawCmd::Fill { x: close_x, y: close_y, w: 16, h: 16, color: WIN_CLOSE_BG });
    emit(
        out,
        DrawCmd::Glyph {
            x: close_x + 4,
            y: close_y + 4,
            ch: 'x',
            fg: WIN_CLOSE_FG,
            bg: WIN_CLOSE_BG,
        },
    );
    emit(
        out,
        DrawCmd::Fill {
            x: x + 2,
            y: y + 24,
            w: win.width as u128,
            h: win.height as u128,
            color: WIN_BG,
        },
    );
    assert(ops(out@) =~= ops(old(out)@) + frame_ops(*win, focused));
}

fn count_room(win: &Window) -> (r: usize)
    ensures
        r == line_room(*win),
{
    let height: u128 = win.height as u128;
    let rows: u128 = minus(height, 12) / 10;
    minus(
        rows,
        if win.interactive {
            2
        } else {
            0
        },
    ) as usize
}

fn count_skipped(win: &Window) -> (r: usize)
    ensures
        r == lines_skipped(*win),
        r <= win.lines@.len(),
{
    let room: usize = count_room(win);
    if win.lines.len() > room {
        win.lines.len() - room
    } else {
        0
    }
}

/// Draws the lines and returns how many there were.
fn draw_lines(out: &mut Vec<DrawCmd>, win: &Window) -> (drawn: usize)
    requires
        win.x >= 0,
        win.y >= 0,
        window_fits(*win),
    ensures
        ops(final(out)@) == ops(old(out)@) + line_ops(*win),
        drawn == lines_drawn(*win),
{
    let skip: usize = count_skipped(win);
    let room: u128 = minus(
        win.height as u128,
        if win.interactive {
            20
        } else {
            0
        },
    );
    let x: u128 = win.x as u128 + 8;
    let top: u128 = win.y as u128 + 30;
    let ghost before = ops(out@);
    let mut k: usize = 0;
    while k < win.lines.len() - skip && 14 + 10 * (k as u128) <= room
        invariant
            skip == lines_skipped(*win),
            skip <= win.lines@.len(),
            k <= lines_drawn(*win),
            k <= win.lines@.len() - skip,
            room == rest_of(win.height as int, if win.interactive { 20 } else { 0 }),
            x == win.x + 8,
            top == win.y + 30,
            window_fits(*win),
            ops(out@) == before + line_ops(*win).subrange(0, k as int),
        decreases win.lines@.len() - k,
    {
        let ghost mid = ops(out@);
        let line = &win.lines[skip + k];
        emit(
            out,
            DrawCmd::Text {
                x,
                y: top + 10 * (k as u128),
                text: line.as_str().to_owned(),
                fg: WIN_TEXT_FG,
                bg: WIN_BG,
            },
        );
        proof {
            assert(k < lines_drawn(*win));
            assert(ops(out@).last() == line_ops(*win)[k as int]);
            assert(line_ops(*win).subrange(0, k + 1) =~= line_ops(*win).subrange(0, k as int).push(
                line_ops(*win)[k as int],
            ));
            assert(ops(out@) =~= before + line_ops(*win).subrange(0, k + 1));
        }
        k = k + 1;
    }
    assert(k == lines_drawn(*win));
    assert(line_ops(*win).subrange(0, k as int) =~= line_ops(*win));
    k
}

fn draw_typing(out: &mut Vec<DrawCmd>, win: &Window)
    requires
        win.x >= 0,
        win.y >= 0,
    ensures
        ops(final(out)@) == ops(old(out)@) + typing_ops(*win),
{
    let skip: usize = count_skipped(win);
    let col: u128 = if win.lines.len() > 0 {
        win.lines[win.lines.len() - 1].len as u128
    } else {
        0
    };
    let row: u128 = minus((win.lines.len() - skip) as u128, 1);
    if win.typing && 6 + col * 8 + 8 <= win.width as u128 && 6 + row * 10 + 8
        <= win.height as u128 {
        emit(
            out,
            DrawCmd::Fill {
                x: win.x as u128 + 8 + col * 8,
                y: win.y as u128 + 30 + row * 10,
                w: 8,
                h: 8,
                color: WIN_TEXT_FG,
            },
        );
    }
    assert(ops(out@) =~= ops(old(out)@) + typing_ops(*win));
}

fn draw_prompt(out: &mut Vec<DrawCmd>, win: &Window, focused: bool)
    requires
        win.x >= 0,
        win.y >= 0,
        win.input_len <= 128,
    ensures
        ops(final(out)@) == ops(old(out)@) + prompt_ops(*win, focused),
{
    if win.interactive {
        let x: u128 = win.x as u128;
        let width: u128 = win.width as u128;
        let y: u128 = win.y as u128 + 24 + minus(win.height as u128, 14);
        emit(
            out,
            DrawCmd::Fill {
                x: x + 4,
                y: minus(y, 3),
                w: minus(width, 4),
                h: 1,
                color: SEPARATOR_FG,
            },
        );
        emit(
            out,
            DrawCmd::Text { x: x + 8, y, text: "folk>".to_owned(), fg: PROMPT_FG, bg: WIN_BG },
        );
        emit(
            out,
            DrawCmd::Text { x: x + 56, y, text: win.input_str().to_owned(), fg: WHITE, bg: WIN_BG },
        );
        let cursor: u128 = win.input_cursor as u128 * 8;
        if focused && 54 + cursor + 8 <= width {
            emit(out, DrawCmd::Fill { x: x + 56 + cursor, y, w: 8, h: 8, color: WHITE });
        }
    }
    assert(ops(out@) =~= ops(old(out)@) + prompt_ops(*win, focused));
}

/// Draws a complete window onto a screen of the given size.
#[verifier::rlimit(40)]
pub fn draw_window(
    out: &mut Vec<DrawCmd>,
    win: &Window,
    focused: bool,
    screen_w: usize,
    screen_h: usize,
)
    requires
        window_fits(*win),
    ensures
        ops(final(out)@) == ops(old(out)@) + window_ops(
            *win,
            focused,
            screen_w as int,
            screen_h as int,
        ),
{
    let ghost before = ops(out@);
    if win.x < 0 || win.y < 0 || win.x as u128 + win.width as u128 + 4 > screen_w as u128
        || win.y as u128 + win.height as u128 + 26 > screen_h as u128 {
        assert(before + Seq::<DrawOp>::empty() =~= before);
        return;
    }
    draw_frame(out, win, focused);
    let drawn: usize = draw_lines(out, win);
    draw_typing(out, win);
    draw_prompt(out, win, focused);
    let top: u128 = if win.lines.len() == 0 {
        win.y as u128 + 30
    } else {
        win.y as u128 + 34 + 10 * (drawn as u128)
    };
    draw_widgets(
        out,
        &win.widgets,
        win.x as u128 + 8,
        top,
        minus(win.width as u128, 12),
        WIN_BG,
        win.focused_widget,
    );
    proof {
        lemma_parts_in_order(
            before,
            frame_ops(*win, focused),
            line_ops(*win),
            typing_ops(*win),
            prompt_ops(*win, focused),
            list_ops(
                win.widgets@,
                win.x + 8,
                widgets_top(*win),
                rest_of(win.width as int, 12),
                WIN_BG,
                win.focused_widget,
            ),
        );
    }
}

proof fn lemma_parts_in_order(
    x: Seq<DrawOp>,
    a: Seq<DrawOp>,
    b: Seq<DrawOp>,
    c: Seq<DrawOp>,
    d: Seq<DrawOp>,
    e: Seq<DrawOp>,
)
    ensures
        x + a + b + c + d + e == x + (a + b + c + d + e),
{
    assert(x + a + b + c + d + e =~= x + (a + b + c + d + e));
}

/// The visible ones of the first `n` windows, bottom to top.
pub open spec fn stack_ops(
    ws: Seq<Window>,
    n: int,
    focused_id: Option<u32>,
    screen_w: int,
    screen_h: int,
) -> Seq<DrawOp>
    decreases n,
{
    if n <= 0 {
        Seq::empty()
    } else {
        let below = stack_ops(ws, n - 1, focused_id, screen_w, screen_h);
        let w = ws[n - 1];
        if w.visible {
            below + window_ops(w, focused_id == Some(w.id), screen_w, screen_h)
        } else {
            below
        }
    }
}

impl WindowManager {
    /// The drawing operations of all visible windows.
    pub fn composite(&self, screen_w: usize, screen_h: usize) -> (out: Vec<DrawCmd>)
        requires
            forall|i: int| 0 <= i < self.windows@.len() ==> window_fits(#[trigger] self.windows@[i]),
        ensures
            ops(out@) == stack_ops(
                self.windows@,
                self.windows@.len() as int,
                self.focused_id,
                screen_w as int,
                screen_h as int,
            ),
    {
        let mut out: Vec<DrawCmd> = Vec::new();
        let mut i: usize = 0;
        assert(ops(out@) =~= Seq::<DrawOp>::empty());
        while i < self.windows.len()
            invariant
                i <= self.windows@.len(),
                forall|k: int|
                    0 <= k < self.windows@.len() ==> window_fits(#[trigger] self.windows@[k]),
                ops(out@) == stack_ops(
                    self.windows@,
                    i as int,
                    self.focused_id,
                    screen_w as int,
                    screen_h as int,
                ),
            decreases self.windows@.len() - i,
        {
            let win = &self.windows[i];
            if win.visible {
                let focused: bool = self.focused_id == Some(win.id);
                draw_window(&mut out, win, focused, screen_w, screen_h);
            }
            i = i + 1;
        }
        out
    }
}

// ---------------------------------------------------------------------
// Characters
// ---------------------------------------------------------------------

/// A pixel to set.
#[derive(Debug, Clone, Copy, PartialEq, Eq, Structural)]
pub struct Pixel {
    pub x: usize,
    pub y: usize,
    pub color: u32,
}

/// The font entry of a character; what the font does not hold shows as entry 0.
pub fn glyph_index(ch: char) -> (r: usize)
    ensures
        r == (if (ch as int) < 256 { ch as int } else { 0 }),
{
    let cp: u32 = ch as u32;
    if cp < 256 {
        cp as usize
    } else {
        0
    }
}

/// Whether column `col` of a glyph row is set; the highest bit is the leftmost.
pub open spec fn column_set(bits: u8, col: int) -> bool {
    (bits >> ((7 - col) as u8)) & 1u8 != 0
}

/// The pixel that column `col` of row `row` of a glyph puts on the screen.
pub open spec fn glyph_pixel(x: int, y: int, rows: Seq<u8>, row: int, col: int, fg: u32, bg: u32) -> Pixel {
    Pixel {
        x: (x + col) as usize,
        y: (y + row) as usize,
        color: if column_set(rows[row], col) {
            fg
        } else {
            bg
        },
    }
}

/// The pixels of the first `k` of the 64 cells of a glyph that lie on the
/// screen, row by row.
pub open spec fn glyph_pixels(
    x: int,
    y: int,
    rows: Seq<u8>,
    fg: u32,
    bg: u32,
    screen_w: int,
    screen_h: int,
    k: int,
) -> Seq<Pixel>
    decreases k,
{
    if k <= 0 {
        Seq::empty()
    } else {
        let before = glyph_pixels(x, y, rows, fg, bg, screen_w, screen_h, k - 1);
        let row = (k - 1) / 8;
        let col = (k - 1) % 8;
        if x + col < screen_w && y + row < screen_h {
            before.push(glyph_pixel(x, y, rows, row, col, fg, bg))
        } else {
            before
        }
    }
}

/// The pixels of one character, from the top eight rows of its glyph.
pub fn draw_char_small(
    x: usize,
    y: usize,
    rows: &[u8; 8],
    fg: u32,
    bg: u32,
    screen_w: usize,
    screen_h: usize,
) -> (out: Vec<Pixel>)
    ensures
        out@ == glyph_pixels(
            x as int,
            y as int,
            rows@,
            fg,
            bg,
            screen_w as int,
            screen_h as int,
            64,
        ),
{
    let mut out: Vec<Pixel> = Vec::new();
    let mut k: usize = 0;
    while k < 64
        invariant
            k <= 64,
            out@ == glyph_pixels(
                x as int,
                y as int,
                rows@,
                fg,
                bg,
                screen_w as int,
                screen_h as int,
                k as int,
            ),
        decreases 64 - k,
    {
        let row: usize = k / 8;
        let col: usize = k % 8;
        if x < screen_w && col < screen_w - x && y < screen_h && row < screen_h - y {
            let bits: u8 = rows[row];
            let shift: u8 = 7 - col as u8;
            let set: bool = (bits >> shift) & 1u8 != 0;
            out.push(
                Pixel {
                    x: x + col,
                    y: y + row,
                    color: if set {
                        fg
                    } else {
                        bg
                    },
                },
            );
        }
        k = k + 1;
    }
    out
}

/// The left edges of the characters of a text that starts at `x`: one every
/// eight pixels, as long as the character ends on the screen.
pub fn draw_str_small(x: usize, chars: usize, screen_w: usize) -> (out: Vec<usize>)
    ensures
        out@ == Seq::new(
            smaller(chars as int, rest_of(screen_w as int, x as int) / 8) as nat,
            |k: int| (x + 8 * k) as usize,
        ),
{
    let mut out: Vec<usize> = Vec::new();
    let room: usize = if screen_w > x {
        (screen_w - x) / 8
    } else {
        0
    };
    let n: usize = if chars < room {
        chars
    } else {
        room
    };
    let mut k: usize = 0;
    while k < n
        invariant
            k <= n,
            n > 0 ==> x + 8 * n <= screen_w,
            out@.len() == k,
            forall|j: int| 0 <= j < k ==> out@[j] == x + 8 * j,
        decreases n - k,
    {
        out.push(x + 8 * k);
        k = k + 1;
    }
    assert(out@ =~= Seq::new(
        smaller(chars as int, rest_of(screen_w as int, x as int) / 8) as nat,
        |k: int| (x + 8 * k) as usize,
    ));
    out
}

// ---------------------------------------------------------------------
// What is drawn, in pixels
// ---------------------------------------------------------------------

/// A window is drawn exactly where its whole frame lies on the screen, and its
/// parts are drawn one over the other: frame, lines, the block of streamed
/// text, the prompt, and the widgets.
#[verifier::rlimit(40)]
pub proof fn whole_windows_are_drawn(w: Window, focused: bool, screen_w: int, screen_h: int)
    ensures
        w.x < 0 || w.y < 0 || w.x + w.width + 4 > screen_w || w.y + w.height + 26 > screen_h
            ==> window_ops(w, focused, screen_w, screen_h).len() == 0,
        w.x >= 0 && w.y >= 0 && w.x + w.width + 4 <= screen_w && w.y + w.height + 26 <= screen_h
            ==> frame_ops(w, focused).is_prefix_of(window_ops(w, focused, screen_w, screen_h))
            && window_ops(w, focused, screen_w, screen_h) == frame_ops(w, focused) + line_ops(w)
            + typing_ops(w) + prompt_ops(w, focused) + list_ops(
            w.widgets@,
            w.x + 8,
            widgets_top(w),
            if w.width > 12 {
                w.width - 12
            } else {
                0
            },
            WIN_BG,
            w.focused_widget,
        ),
{
    if on_screen(w, screen_w, screen_h) {
        let f = frame_ops(w, focused);
        let all = window_ops(w, focused, screen_w, screen_h);
        assert(all.subrange(0, f.len() as int) =~= f);
    }
}

/// The lines that are drawn stand ten pixels below each other inside the
/// content, follow each other in the window, and end with the newest one where
/// there is room for any line at all.
pub proof fn newest_lines_are_drawn(w: Window, k: int)
    ensures
        0 <= k < line_ops(w).len() ==> {
            let at = lines_skipped(w) + k;
            let l = w.lines@[at];
            &&& 0 <= at < w.lines@.len()
            &&& line_ops(w)[k] == (DrawOp::Text {
                x: w.x + 8,
                y: w.y + 30 + 10 * k,
                text: text_or_empty(l.buf@.subrange(0, l.len as int)),
                fg: WIN_TEXT_FG,
                bg: WIN_BG,
            })
            &&& w.y + 30 + 10 * k + 8 <= w.y + 24 + w.height
            &&& w.interactive ==> w.y + 30 + 10 * k + 8 <= w.y + 4 + w.height
        },
        !w.interactive && w.height >= 22 ==> lines_skipped(w) + line_ops(w).len() == w.lines@.len(),
        w.interactive && w.height >= 42 ==> lines_skipped(w) + line_ops(w).len() == w.lines@.len(),
        !w.interactive && 10 * w.lines@.len() + 12 <= w.height ==> lines_skipped(w) == 0,
        w.interactive && 10 * w.lines@.len() + 32 <= w.height ==> lines_skipped(w) == 0,
        !w.interactive && 10 * w.lines@.len() + 2 > w.height && w.height >= 22 ==> lines_skipped(w)
            > 0,
{
}

/// Windows are drawn bottom to top, and hidden ones not at all.
pub proof fn windows_are_drawn_bottom_to_top(
    ws: Seq<Window>,
    n: int,
    focused_id: Option<u32>,
    screen_w: int,
    screen_h: int,
)
    requires
        0 < n <= ws.len(),
    ensures
        stack_ops(ws, 0, focused_id, screen_w, screen_h).len() == 0,
        !ws[n - 1].visible ==> stack_ops(ws, n, focused_id, screen_w, screen_h) == stack_ops(
            ws,
            n - 1,
            focused_id,
            screen_w,
            screen_h,
        ),
        ws[n - 1].visible ==> stack_ops(ws, n, focused_id, screen_w, screen_h) == stack_ops(
            ws,
            n - 1,
            focused_id,
            screen_w,
            screen_h,
        ) + window_ops(ws[n - 1], focused_id == Some(ws[n - 1].id), screen_w, screen_h),
{
}

/// A widget list is drawn from the top down, each widget below the others, and
/// the focus goes to the widget with that rank among the focusable ones.
pub proof fn widgets_are_drawn_downwards(
    ws: Seq<UiWidget>,
    w: UiWidget,
    x: int,
    y: int,
    max_w: int,
    bg: u32,
    focus: Option<usize>,
)
    requires
        0 <= y,
        y + drawn_heights(ws) <= u128::MAX,
    ensures
        list_ops(Seq::empty(), x, y, max_w, bg, focus).len() == 0,
        list_ops(ws.push(w), x, y, max_w, bg, focus) == list_ops(ws, x, y, max_w, bg, focus)
            + widget_ops(w, x, y + drawn_heights(ws), max_w, bg, focus, focusables(ws).len()),
        drawn_heights(ws.push(w)) == drawn_heights(ws) + drawn_height(w),
        w is Label ==> drawn_height(w) == 12,
        w is Button || w is TextInput ==> drawn_height(w) == 20,
{
    assert(ws.push(w).drop_last() =~= ws);
    assert(ws.push(w).last() == w);
}

/// A button is filled with its colour and its label stands on it; with the focus
/// the colours change places and a ring goes round it. It is as wide as its
/// label and sixteen pixels, or as there is room, and sixteen pixels high.
pub proof fn buttons_look(
    x: int,
    y: int,
    max_w: int,
    text: Seq<char>,
    len: int,
    bg: u32,
    fg: u32,
)
    requires
        0 < x < 0x1_0000_0000,
        0 < y < 0x1_0000_0000,
    ensures
        ({
            let w = if 8 * len + 16 < max_w {
                8 * len + 16
            } else {
                max_w
            };
            let plain = button_ops(x, y, max_w, text, len, bg, fg, false);
            let lit = button_ops(x, y, max_w, text, len, bg, fg, true);
            &&& plain[0] == (DrawOp::Fill { x, y, w, h: 16, color: bg })
            &&& lit[0] == (DrawOp::Fill { x, y, w, h: 16, color: fg })
            &&& plain.contains(DrawOp::Text { x: x + 8, y: y + 4, text, fg, bg })
            &&& lit[1] == (DrawOp::Text { x: x + 8, y: y + 4, text, fg: bg, bg: fg })
            &&& lit[2] == (DrawOp::Frame {
                x: x - 1,
                y: y - 1,
                w: w + 2,
                h: 18,
                color: FOCUS_RING_COLOR,
            })
        }),
{
    let plain = button_ops(x, y, max_w, text, len, bg, fg, false);
    assert(plain[2] == (DrawOp::Text { x: x + 8, y: y + 4, text, fg, bg }));
}

/// The highest bit of a row of a glyph is its leftmost column.
pub proof fn glyph_columns(bits: u8)
    ensures
        column_set(bits, 0) <==> bits >= 128,
        column_set(bits, 7) <==> bits % 2 == 1,
        column_set(bits, 1) <==> bits % 128 >= 64,
        column_set(bits, 2) <==> bits % 64 >= 32,
        column_set(bits, 3) <==> bits % 32 >= 16,
        column_set(bits, 4) <==> bits % 16 >= 8,
        column_set(bits, 5) <==> bits % 8 >= 4,
        column_set(bits, 6) <==> bits % 4 >= 2,
{
    assert(((bits >> 7u8) & 1u8 != 0) == (bits >= 128)) by (bit_vector);
    assert(((bits >> 6u8) & 1u8 != 0) == (bits % 128 >= 64)) by (bit_vector);
    assert(((bits >> 5u8) & 1u8 != 0) == (bits % 64 >= 32)) by (bit_vector);
    assert(((bits >> 4u8) & 1u8 != 0) == (bits % 32 >= 16)) by (bit_vector);
    assert(((bits >> 3u8) & 1u8 != 0) == (bits % 16 >= 8)) by (bit_vector);
    assert(((bits >> 2u8) & 1u8 != 0) == (bits % 8 >= 4)) by (bit_vector);
    assert(((bits >> 1u8) & 1u8 != 0) == (bits % 4 >= 2)) by (bit_vector);
    assert(((bits >> 0u8) & 1u8 != 0) == (bits % 2 == 1)) by (bit_vector);
}

} // verus!

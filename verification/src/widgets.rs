//! Declarative widgets of app windows: building, measuring, focus order and
//! hit testing.
//!
//! Focus runs over the buttons and text inputs of a tree, depth first. Layout
//! coordinates are wide enough that no tree overflows them: a place beyond
//! their range counts as the last one.
use vstd::prelude::*;
use vstd::string::*;

verus! {

broadcast use vstd::seq_lib::group_seq_properties;

/// Widget of an app window.
pub enum UiWidget {
    /// Static text.
    Label { text: [u8; 64], text_len: usize, color: u32 },
    /// Clickable button; `action_id` goes back to the app.
    Button { label: [u8; 32], label_len: usize, action_id: u32, bg_color: u32, fg_color: u32 },
    /// Children from top to bottom.
    VStack { children: Vec<UiWidget>, spacing: u16 },
    /// Children from left to right.
    HStack { children: Vec<UiWidget>, spacing: u16 },
    /// Empty space.
    Spacer { height: u16 },
    /// Editable text with a placeholder.
    TextInput {
        placeholder: [u8; 64],
        placeholder_len: usize,
        action_id: u32,
        max_len: u8,
        value: [u8; 64],
        value_len: usize,
        cursor_pos: usize,
    },
}

/// What a focusable widget is.
#[derive(Clone, Copy, PartialEq, Debug)]
pub enum FocusableKind {
    Button { action_id: u32 },
    TextInput { action_id: u32 },
}

/// The first `len` bytes of `src`, with zeros up to `size`.
pub open spec fn padded(src: Seq<u8>, len: int, size: nat) -> Seq<u8> {
    Seq::new(
        size,
        |i: int|
            if i < len {
                src[i]
            } else {
                0u8
            },
    )
}

/// Bytes of `text` that fit below a limit.
pub open spec fn fitting(text: Seq<u8>, limit: int) -> int {
    if text.len() < limit {
        text.len() as int
    } else {
        limit
    }
}

pub fn pad32(src: &[u8], len: usize) -> (r: [u8; 32])
    requires
        len <= src.len(),
        len <= 32,
    ensures
        r@ == padded(src@, len as int, 32),
{
    let mut buf: [u8; 32] = [0u8;32];
    let mut i: usize = 0;
    while i < len
        invariant
            i <= len <= src.len(),
            len <= 32,
            forall|k: int| 0 <= k < 32 ==> buf@[k] == (if k < i { src@[k] } else { 0u8 }),
        decreases len - i,
    {
        buf[i] = src[i];
        i = i + 1;
    }
    assert(buf@ =~= padded(src@, len as int, 32));
    buf
}

pub fn pad64(src: &[u8], len: usize) -> (r: [u8; 64])
    requires
        len <= src.len(),
        len <= 64,
    ensures
        r@ == padded(src@, len as int, 64),
{
    let mut buf: [u8; 64] = [0u8;64];
    let mut i: usize = 0;
    while i < len
        invariant
            i <= len <= src.len(),
            len <= 64,
            forall|k: int| 0 <= k < 64 ==> buf@[k] == (if k < i { src@[k] } else { 0u8 }),
        decreases len - i,
    {
        buf[i] = src[i];
        i = i + 1;
    }
    assert(buf@ =~= padded(src@, len as int, 64));
    buf
}

pub fn pad128(src: &[u8], len: usize) -> (r: [u8; 128])
    requires
        len <= src.len(),
        len <= 128,
    ensures
        r@ == padded(src@, len as int, 128),
{
    let mut buf: [u8; 128] = [0u8;128];
    let mut i: usize = 0;
    while i < len
        invariant
            i <= len <= src.len(),
            len <= 128,
            forall|k: int| 0 <= k < 128 ==> buf@[k] == (if k < i { src@[k] } else { 0u8 }),
        decreases len - i,
    {
        buf[i] = src[i];
        i = i + 1;
    }
    assert(buf@ =~= padded(src@, len as int, 128));
    buf
}

fn min_len(n: usize, limit: usize) -> (r: usize)
    ensures
        r == (if n < limit { n } else { limit }),
{
    if n < limit {
        n
    } else {
        limit
    }
}

impl UiWidget {
    /// A label; text beyond 63 bytes is cut.
    pub fn label(text: &str, color: u32) -> (w: Self)
        ensures
            w matches UiWidget::Label { text: buf, text_len, color: c } && c == color && text_len
                == fitting(text.spec_bytes(), 63) && buf@ == padded(
                text.spec_bytes(),
                text_len as int,
                64,
            ),
    {
        let bytes = text.as_bytes();
        let len: usize = min_len(bytes.len(), 63);
        UiWidget::Label { text: pad64(bytes, len), text_len: len, color }
    }

    /// A button; text beyond 31 bytes is cut.
    pub fn button(label: &str, action_id: u32, bg: u32, fg: u32) -> (w: Self)
        ensures
            w matches UiWidget::Button {
                label: buf,
                label_len,
                action_id: a,
                bg_color,
                fg_color,
            } && a == action_id && bg_color == bg && fg_color == fg && label_len == fitting(
                label.spec_bytes(),
                31,
            ) && buf@ == padded(label.spec_bytes(), label_len as int, 32),
    {
        let bytes = label.as_bytes();
        let len: usize = min_len(bytes.len(), 31);
        UiWidget::Button {
            label: pad32(bytes, len),
            label_len: len,
            action_id,
            bg_color: bg,
            fg_color: fg,
        }
    }

    /// An empty text input; a placeholder beyond 63 bytes is cut, and so is the
    /// longest value.
    pub fn text_input(placeholder: &str, action_id: u32, max_len: u8) -> (w: Self)
        ensures
            w matches UiWidget::TextInput {
                placeholder: buf,
                placeholder_len,
                action_id: a,
                max_len: m,
                value,
                value_len,
                cursor_pos,
            } && a == action_id && m == (if max_len < 63 { max_len } else { 63u8 })
                && placeholder_len == fitting(placeholder.spec_bytes(), 63) && buf@ == padded(
                placeholder.spec_bytes(),
                placeholder_len as int,
                64,
            ) && value@ == padded(Seq::empty(), 0, 64) && value_len == 0 && cursor_pos == 0,
    {
        let bytes = placeholder.as_bytes();
        let len: usize = min_len(bytes.len(), 63);
        let value: [u8; 64] = [0u8;64];
        assert(value@ =~= padded(Seq::empty(), 0, 64));
        UiWidget::TextInput {
            placeholder: pad64(bytes, len),
            placeholder_len: len,
            action_id,
            max_len: if max_len < 63 {
                max_len
            } else {
                63
            },
            value,
            value_len: 0,
            cursor_pos: 0,
        }
    }
}

// ---------------------------------------------------------------------
// Focus order
// ---------------------------------------------------------------------

/// The focusable widgets of a list of trees, depth first.
pub open spec fn focusables(ws: Seq<UiWidget>) -> Seq<UiWidget>
    decreases ws,
{
    if ws.len() == 0 {
        Seq::empty()
    } else {
        focusables(ws.drop_last()) + focusables_of(ws.last())
    }
}

/// The focusable widgets of one tree, depth first.
pub open spec fn focusables_of(w: UiWidget) -> Seq<UiWidget>
    decreases w,
{
    match w {
        UiWidget::Button { .. } => seq![w],
        UiWidget::TextInput { .. } => seq![w],
        UiWidget::VStack { children, .. } => focusables(children@),
        UiWidget::HStack { children, .. } => focusables(children@),
        _ => Seq::empty(),
    }
}

/// The kind of a focusable widget.
pub open spec fn kind_of(w: UiWidget) -> FocusableKind {
    match w {
        UiWidget::Button { action_id, .. } => FocusableKind::Button { action_id },
        UiWidget::TextInput { action_id, .. } => FocusableKind::TextInput { action_id },
        _ => arbitrary(),
    }
}

proof fn lemma_focusables_append(a: Seq<UiWidget>, b: Seq<UiWidget>)
    ensures
        focusables(a + b) == focusables(a) + focusables(b),
    decreases b.len(),
{
    if b.len() == 0 {
        assert(a + b =~= a);
    } else {
        lemma_focusables_append(a, b.drop_last());
        assert((a + b).drop_last() =~= a + b.drop_last());
    }
}

/// The focusables of a list are those of its first `i` trees and the rest.
proof fn lemma_focusables_split(ws: Seq<UiWidget>, i: int)
    requires
        0 <= i <= ws.len(),
    ensures
        focusables(ws) == focusables(ws.subrange(0, i)) + focusables(
            ws.subrange(i, ws.len() as int),
        ),
        i < ws.len() ==> focusables(ws.subrange(0, i + 1)) == focusables(ws.subrange(0, i))
            + focusables_of(ws[i]),
{
    lemma_focusables_append(ws.subrange(0, i), ws.subrange(i, ws.len() as int));
    assert(ws.subrange(0, i) + ws.subrange(i, ws.len() as int) =~= ws);
    if i < ws.len() {
        assert(ws.subrange(0, i + 1).drop_last() =~= ws.subrange(0, i));
    }
}

/// Where a search for the n-th focusable widget has led.
enum Seek<'a> {
    Found(&'a UiWidget),
    /// Not in the part searched so far; this many are left to pass.
    Left(usize),
}

fn seek_focusable<'a>(ws: &'a [UiWidget], n: usize) -> (r: Seek<'a>)
    ensures
        match r {
            Seek::Found(w) => n < focusables(ws@).len() && *w == focusables(ws@)[n as int],
            Seek::Left(m) => n >= focusables(ws@).len() && m == n - focusables(ws@).len(),
        },
    decreases ws@,
{
    let mut left: usize = n;
    let mut i: usize = 0;
    assert(focusables(ws@.subrange(0, 0)) =~= Seq::<UiWidget>::empty());
    while i < ws.len()
        invariant
            i <= ws.len(),
            n >= focusables(ws@.subrange(0, i as int)).len(),
            left == n - focusables(ws@.subrange(0, i as int)).len(),
        decreases ws.len() - i,
    {
        proof {
            lemma_focusables_split(ws@, i as int);
            lemma_focusables_split(ws@, i + 1);
        }
        let w = &ws[i];
        let step = match w {
            UiWidget::Button { .. } => {
                if left == 0 {
                    Seek::Found(w)
                } else {
                    Seek::Left(left - 1)
                }
            },
            UiWidget::TextInput { .. } => {
                if left == 0 {
                    Seek::Found(w)
                } else {
                    Seek::Left(left - 1)
                }
            },
            UiWidget::VStack { children, .. } => seek_focusable(children, left),
            UiWidget::HStack { children, .. } => seek_focusable(children, left),
            _ => Seek::Left(left),
        };
        match step {
            Seek::Found(f) => {
                return Seek::Found(f);
            },
            Seek::Left(m) => {
                left = m;
            },
        }
        i = i + 1;
    }
    assert(ws@.subrange(0, i as int) =~= ws@);
    Seek::Left(left)
}

/// The number of focusable widgets in the trees.
pub fn count_focusable(widgets: &[UiWidget]) -> (n: usize)
    requires
        focusables(widgets@).len() <= usize::MAX,
    ensures
        n == focusables(widgets@).len(),
    decreases widgets@,
{
    let mut count: usize = 0;
    let mut i: usize = 0;
    assert(focusables(widgets@.subrange(0, 0)) =~= Seq::<UiWidget>::empty());
    while i < widgets.len()
        invariant
            i <= widgets.len(),
            focusables(widgets@).len() <= usize::MAX,
            count == focusables(widgets@.subrange(0, i as int)).len(),
        decreases widgets.len() - i,
    {
        proof {
            lemma_focusables_split(widgets@, i as int);
            lemma_focusables_split(widgets@, i + 1);
        }
        match &widgets[i] {
            UiWidget::Button { .. } => {
                count = count + 1;
            },
            UiWidget::TextInput { .. } => {
                count = count + 1;
            },
            UiWidget::VStack { children, .. } => {
                count = count + count_focusable(children);
            },
            UiWidget::HStack { children, .. } => {
                count = count + count_focusable(children);
            },
            _ => {},
        }
        i = i + 1;
    }
    assert(widgets@.subrange(0, i as int) =~= widgets@);
    count
}

/// The n-th focusable widget's kind, depth first.
pub fn nth_focusable(widgets: &[UiWidget], n: usize) -> (r: Option<FocusableKind>)
    ensures
        r == (if n < focusables(widgets@).len() {
            Some(kind_of(focusables(widgets@)[n as int]))
        } else {
            None
        }),
{
    match seek_focusable(widgets, n) {
        Seek::Found(w) => {
            proof {
                lemma_focusables_kinds(widgets@);
            }
            match w {
                UiWidget::Button { action_id, .. } => Some(
                    FocusableKind::Button { action_id: *action_id },
                ),
                UiWidget::TextInput { action_id, .. } => Some(
                    FocusableKind::TextInput { action_id: *action_id },
                ),
                _ => None,
            }
        },
        Seek::Left(_) => None,
    }
}

/// Whether a widget takes the focus.
pub open spec fn is_focusable(w: UiWidget) -> bool {
    w is Button || w is TextInput
}

proof fn lemma_focusables_kinds(ws: Seq<UiWidget>)
    ensures
        forall|i: int| 0 <= i < focusables(ws).len() ==> is_focusable(#[trigger] focusables(ws)[i]),
    decreases ws,
{
    if ws.len() > 0 {
        lemma_focusables_kinds(ws.drop_last());
        lemma_focusables_kinds_of(ws.last());
        let a = focusables(ws.drop_last());
        let b = focusables_of(ws.last());
        assert forall|i: int| 0 <= i < focusables(ws).len() implies is_focusable(
            #[trigger] focusables(ws)[i],
        ) by {
            assert(focusables(ws) == a + b);
            if i < a.len() {
                assert(is_focusable(a[i]));
            } else {
                assert(is_focusable(b[i - a.len()]));
            }
        }
    }
}

proof fn lemma_focusables_kinds_of(w: UiWidget)
    ensures
        forall|i: int|
            0 <= i < focusables_of(w).len() ==> is_focusable(#[trigger] focusables_of(w)[i]),
    decreases w,
{
    match w {
        UiWidget::VStack { children, .. } => {
            lemma_focusables_kinds(children@);
            assert(focusables_of(w) == focusables(children@));
        },
        UiWidget::HStack { children, .. } => {
            lemma_focusables_kinds(children@);
            assert(focusables_of(w) == focusables(children@));
        },
        _ => {},
    }
}

/// The focusable widgets are the buttons and the text inputs: nothing else
/// ever takes the focus.
pub proof fn only_buttons_and_inputs_focus(ws: Seq<UiWidget>, n: int)
    requires
        0 <= n < focusables(ws).len(),
    ensures
        is_focusable(focusables(ws)[n]),
{
    lemma_focusables_kinds(ws);
}

// ---------------------------------------------------------------------
// Buttons and labels
// ---------------------------------------------------------------------

/// The buttons of a list of trees, depth first.
pub open spec fn buttons(ws: Seq<UiWidget>) -> Seq<UiWidget>
    decreases ws,
{
    if ws.len() == 0 {
        Seq::empty()
    } else {
        buttons(ws.drop_last()) + buttons_of(ws.last())
    }
}

/// The buttons of one tree, depth first.
pub open spec fn buttons_of(w: UiWidget) -> Seq<UiWidget>
    decreases w,
{
    match w {
        UiWidget::Button { .. } => seq![w],
        UiWidget::VStack { children, .. } => buttons(children@),
        UiWidget::HStack { children, .. } => buttons(children@),
        _ => Seq::empty(),
    }
}

proof fn lemma_buttons_append(a: Seq<UiWidget>, b: Seq<UiWidget>)
    ensures
        buttons(a + b) == buttons(a) + buttons(b),
    decreases b.len(),
{
    if b.len() == 0 {
        assert(a + b =~= a);
    } else {
        lemma_buttons_append(a, b.drop_last());
        assert((a + b).drop_last() =~= a + b.drop_last());
    }
}

proof fn lemma_buttons_split(ws: Seq<UiWidget>, i: int)
    requires
        0 <= i <= ws.len(),
    ensures
        buttons(ws) == buttons(ws.subrange(0, i)) + buttons(ws.subrange(i, ws.len() as int)),
        i < ws.len() ==> buttons(ws.subrange(0, i + 1)) == buttons(ws.subrange(0, i)) + buttons_of(
            ws[i],
        ),
{
    lemma_buttons_append(ws.subrange(0, i), ws.subrange(i, ws.len() as int));
    assert(ws.subrange(0, i) + ws.subrange(i, ws.len() as int) =~= ws);
    if i < ws.len() {
        assert(ws.subrange(0, i + 1).drop_last() =~= ws.subrange(0, i));
    }
}

/// The number of buttons in the trees.
pub fn count_buttons(widgets: &[UiWidget]) -> (n: usize)
    requires
        buttons(widgets@).len() <= usize::MAX,
    ensures
        n == buttons(widgets@).len(),
    decreases widgets@,
{
    let mut count: usize = 0;
    let mut i: usize = 0;
    assert(buttons(widgets@.subrange(0, 0)) =~= Seq::<UiWidget>::empty());
    while i < widgets.len()
        invariant
            i <= widgets.len(),
            buttons(widgets@).len() <= usize::MAX,
            count == buttons(widgets@.subrange(0, i as int)).len(),
        decreases widgets.len() - i,
    {
        proof {
            lemma_buttons_split(widgets@, i as int);
            lemma_buttons_split(widgets@, i + 1);
        }
        match &widgets[i] {
            UiWidget::Button { .. } => {
                count = count + 1;
            },
            UiWidget::VStack { children, .. } => {
                count = count + count_buttons(children);
            },
            UiWidget::HStack { children, .. } => {
                count = count + count_buttons(children);
            },
            _ => {},
        }
        i = i + 1;
    }
    assert(widgets@.subrange(0, i as int) =~= widgets@);
    count
}

/// Where a search for the n-th button has led.
enum SeekButton {
    Found(u32),
    Left(usize),
}

fn seek_button(ws: &[UiWidget], n: usize) -> (r: SeekButton)
    ensures
        match r {
            SeekButton::Found(id) => n < buttons(ws@).len() && (buttons(
                ws@,
            )[n as int] matches UiWidget::Button { action_id, .. } && action_id == id),
            SeekButton::Left(m) => n >= buttons(ws@).len() && m == n - buttons(ws@).len(),
        },
    decreases ws@,
{
    let mut left: usize = n;
    let mut i: usize = 0;
    assert(buttons(ws@.subrange(0, 0)) =~= Seq::<UiWidget>::empty());
    while i < ws.len()
        invariant
            i <= ws.len(),
            n >= buttons(ws@.subrange(0, i as int)).len(),
            left == n - buttons(ws@.subrange(0, i as int)).len(),
        decreases ws.len() - i,
    {
        proof {
            lemma_buttons_split(ws@, i as int);
            lemma_buttons_split(ws@, i + 1);
        }
        let step = match &ws[i] {
            UiWidget::Button { action_id, .. } => {
                if left == 0 {
                    SeekButton::Found(*action_id)
                } else {
                    SeekButton::Left(left - 1)
                }
            },
            UiWidget::VStack { children, .. } => seek_button(children, left),
            UiWidget::HStack { children, .. } => seek_button(children, left),
            _ => SeekButton::Left(left),
        };
        match step {
            SeekButton::Found(id) => {
                return SeekButton::Found(id);
            },
            SeekButton::Left(m) => {
                left = m;
            },
        }
        i = i + 1;
    }
    assert(ws@.subrange(0, i as int) =~= ws@);
    SeekButton::Left(left)
}

/// The action id of the n-th button, depth first.
pub fn nth_button_action_id(widgets: &[UiWidget], n: usize) -> (r: Option<u32>)
    ensures
        match r {
            Some(id) => n < buttons(widgets@).len() && (buttons(
                widgets@,
            )[n as int] matches UiWidget::Button { action_id, .. } && action_id == id),
            None => n >= buttons(widgets@).len(),
        },
{
    match seek_button(widgets, n) {
        SeekButton::Found(id) => Some(id),
        SeekButton::Left(_) => None,
    }
}

/// The text that copying a focusable widget gives: the value of an input, the
/// label of a button.
pub open spec fn copied_text(w: UiWidget) -> (Seq<u8>, usize) {
    match w {
        UiWidget::TextInput { value, value_len, .. } => (value@, value_len),
        UiWidget::Button { label, label_len, .. } => (label@, label_len),
        _ => arbitrary(),
    }
}

/// The text of the n-th focusable widget, depth first, with its length.
pub fn nth_focusable_text(widgets: &[UiWidget], n: usize) -> (r: Option<([u8; 64], usize)>)
    requires
        n < focusables(widgets@).len() ==> {
            let (src, len) = copied_text(focusables(widgets@)[n as int]);
            len <= src.len()
        },
    ensures
        match r {
            Some((buf, len)) => {
                &&& n < focusables(widgets@).len()
                &&& len == copied_text(focusables(widgets@)[n as int]).1
                &&& buf@ == padded(
                    copied_text(focusables(widgets@)[n as int]).0,
                    len as int,
                    64,
                )
            },
            None => n >= focusables(widgets@).len(),
        },
{
    match seek_focusable(widgets, n) {
        Seek::Found(w) => {
            proof {
                lemma_focusables_kinds(widgets@);
            }
            match w {
                UiWidget::TextInput { value, value_len, .. } => Some(
                    (pad64(value, *value_len), *value_len),
                ),
                UiWidget::Button { label, label_len, .. } => Some(
                    (pad64(label, *label_len), *label_len),
                ),
                _ => None,
            }
        },
        Seek::Left(_) => None,
    }
}

/// The labels of a list of trees, depth first.
pub open spec fn labels(ws: Seq<UiWidget>) -> Seq<UiWidget>
    decreases ws,
{
    if ws.len() == 0 {
        Seq::empty()
    } else {
        labels(ws.drop_last()) + labels_of(ws.last())
    }
}

/// The labels of one tree, depth first.
pub open spec fn labels_of(w: UiWidget) -> Seq<UiWidget>
    decreases w,
{
    match w {
        UiWidget::Label { .. } => seq![w],
        UiWidget::VStack { children, .. } => labels(children@),
        UiWidget::HStack { children, .. } => labels(children@),
        _ => Seq::empty(),
    }
}

proof fn lemma_labels_append(a: Seq<UiWidget>, b: Seq<UiWidget>)
    ensures
        labels(a + b) == labels(a) + labels(b),
    decreases b.len(),
{
    if b.len() == 0 {
        assert(a + b =~= a);
    } else {
        lemma_labels_append(a, b.drop_last());
        assert((a + b).drop_last() =~= a + b.drop_last());
    }
}

proof fn lemma_labels_split(ws: Seq<UiWidget>, i: int)
    requires
        0 <= i <= ws.len(),
    ensures
        labels(ws) == labels(ws.subrange(0, i)) + labels(ws.subrange(i, ws.len() as int)),
        i < ws.len() ==> labels(ws.subrange(0, i + 1)) == labels(ws.subrange(0, i)) + labels_of(
            ws[i],
        ),
{
    lemma_labels_append(ws.subrange(0, i), ws.subrange(i, ws.len() as int));
    assert(ws.subrange(0, i) + ws.subrange(i, ws.len() as int) =~= ws);
    if i < ws.len() {
        assert(ws.subrange(0, i + 1).drop_last() =~= ws.subrange(0, i));
    }
}

/// The text of a label.
pub open spec fn label_text(w: UiWidget) -> (Seq<u8>, usize) {
    match w {
        UiWidget::Label { text, text_len, .. } => (text@, text_len),
        _ => arbitrary(),
    }
}

/// The text of the first label, depth first, with its length.
pub fn first_label_text(widgets: &[UiWidget]) -> (r: Option<([u8; 64], usize)>)
    requires
        labels(widgets@).len() > 0 ==> label_text(labels(widgets@)[0]).1 <= 64,
    ensures
        match r {
            Some((buf, len)) => {
                &&& labels(widgets@).len() > 0
                &&& len == label_text(labels(widgets@)[0]).1
                &&& buf@ == padded(label_text(labels(widgets@)[0]).0, len as int, 64)
            },
            None => labels(widgets@).len() == 0,
        },
    decreases widgets@,
{
    let mut i: usize = 0;
    assert(labels(widgets@.subrange(0, 0)) =~= Seq::<UiWidget>::empty());
    while i < widgets.len()
        invariant
            i <= widgets.len(),
            labels(widgets@).len() > 0 ==> label_text(labels(widgets@)[0]).1 <= 64,
            labels(widgets@.subrange(0, i as int)).len() == 0,
        decreases widgets.len() - i,
    {
        proof {
            lemma_labels_split(widgets@, i as int);
            lemma_labels_split(widgets@, i + 1);
        }
        let ghost here = labels_of(widgets@[i as int]);
        assert(here.len() > 0 ==> labels(widgets@)[0] == here[0]);
        match &widgets[i] {
            UiWidget::Label { text, text_len, .. } => {
                return Some((pad64(text, *text_len), *text_len));
            },
            UiWidget::VStack { children, .. } => {
                let sub = first_label_text(children);
                if sub.is_some() {
                    return sub;
                }
            },
            UiWidget::HStack { children, .. } => {
                let sub = first_label_text(children);
                if sub.is_some() {
                    return sub;
                }
            },
            _ => {},
        }
        i = i + 1;
    }
    assert(widgets@.subrange(0, i as int) =~= widgets@);
    None
}

// ---------------------------------------------------------------------
// Layout
// ---------------------------------------------------------------------

/// A layout coordinate as it is kept: capped at the widest one.
pub open spec fn cap(n: int) -> u128 {
    if n > u128::MAX {
        u128::MAX
    } else {
        n as u128
    }
}

/// Adds to a layout coordinate.
pub fn cap_add(a: u128, b: u128) -> (r: u128)
    ensures
        r == cap(a + b),
{
    if a > u128::MAX - b {
        u128::MAX
    } else {
        a + b
    }
}

/// Height of a widget in a column.
pub open spec fn height_of(w: UiWidget) -> nat
    decreases w,
{
    match w {
        UiWidget::Label { .. } => 12,
        UiWidget::Button { .. } => 20,
        UiWidget::TextInput { .. } => 20,
        UiWidget::Spacer { height } => height as nat,
        UiWidget::VStack { children, spacing } => col_height(children@, spacing as nat),
        UiWidget::HStack { children, .. } => row_height(children@),
    }
}

/// Height of widgets on top of each other, each with `spacing` behind it.
pub open spec fn col_height(ws: Seq<UiWidget>, spacing: nat) -> nat
    decreases ws,
{
    if ws.len() == 0 {
        0
    } else {
        col_height(ws.drop_last(), spacing) + height_of(ws.last()) + spacing
    }
}

/// Height of the tallest widget.
pub open spec fn row_height(ws: Seq<UiWidget>) -> nat
    decreases ws,
{
    if ws.len() == 0 {
        0
    } else {
        let before = row_height(ws.drop_last());
        let h = height_of(ws.last());
        if before < h {
            h
        } else {
            before
        }
    }
}

/// Width of a widget in a row.
pub open spec fn width_of(w: UiWidget) -> nat {
    match w {
        UiWidget::Label { text_len, .. } => text_len as nat * 8,
        UiWidget::Button { label_len, .. } => label_len as nat * 8 + 16,
        UiWidget::TextInput { .. } => 200,
        UiWidget::Spacer { .. } => 0,
        _ => 100,
    }
}

/// Width of widgets side by side, each with `spacing` behind it.
pub open spec fn row_width(ws: Seq<UiWidget>, spacing: nat) -> nat
    decreases ws.len(),
{
    if ws.len() == 0 {
        0
    } else {
        row_width(ws.drop_last(), spacing) + width_of(ws.last()) + spacing
    }
}

/// The height that a widget takes in a layout.
pub fn widget_height(w: &UiWidget) -> (r: u128)
    ensures
        r == cap(height_of(*w) as int),
    decreases w,
{
    match w {
        UiWidget::Label { .. } => 12,
        UiWidget::Button { .. } => 20,
        UiWidget::TextInput { .. } => 20,
        UiWidget::Spacer { height } => *height as u128,
        UiWidget::VStack { children, spacing } => column_height(children, *spacing),
        UiWidget::HStack { children, .. } => tallest(children),
    }
}

fn column_height(ws: &[UiWidget], spacing: u16) -> (r: u128)
    ensures
        r == cap(col_height(ws@, spacing as nat) as int),
    decreases ws@,
{
    let mut sum: u128 = 0;
    let mut i: usize = 0;
    assert(ws@.subrange(0, 0) =~= Seq::<UiWidget>::empty());
    while i < ws.len()
        invariant
            i <= ws.len(),
            sum == cap(col_height(ws@.subrange(0, i as int), spacing as nat) as int),
        decreases ws.len() - i,
    {
        proof {
            assert(ws@.subrange(0, i + 1).drop_last() =~= ws@.subrange(0, i as int));
        }
        let h: u128 = widget_height(&ws[i]);
        sum = cap_add(cap_add(sum, h), spacing as u128);
        i = i + 1;
    }
    assert(ws@.subrange(0, i as int) =~= ws@);
    sum
}

/// The height of the tallest widget of a row.
pub fn tallest(ws: &[UiWidget]) -> (r: u128)
    ensures
        r == cap(row_height(ws@) as int),
    decreases ws@,
{
    let mut most: u128 = 0;
    let mut i: usize = 0;
    assert(ws@.subrange(0, 0) =~= Seq::<UiWidget>::empty());
    while i < ws.len()
        invariant
            i <= ws.len(),
            most == cap(row_height(ws@.subrange(0, i as int)) as int),
        decreases ws.len() - i,
    {
        proof {
            assert(ws@.subrange(0, i + 1).drop_last() =~= ws@.subrange(0, i as int));
        }
        let h: u128 = widget_height(&ws[i]);
        if most < h {
            most = h;
        }
        i = i + 1;
    }
    assert(ws@.subrange(0, i as int) =~= ws@);
    most
}

/// The width that a widget takes in a row.
pub fn widget_width(w: &UiWidget) -> (r: u128)
    ensures
        r == width_of(*w),
{
    match w {
        UiWidget::Label { text_len, .. } => *text_len as u128 * 8,
        UiWidget::Button { label_len, .. } => *label_len as u128 * 8 + 16,
        UiWidget::TextInput { .. } => 200,
        UiWidget::Spacer { .. } => 0,
        _ => 100,
    }
}

// ---------------------------------------------------------------------
// Hit testing
// ---------------------------------------------------------------------

/// Whether a click lies in a rectangle.
pub open spec fn inside(cx: int, cy: int, x: int, y: int, w: int, h: int) -> bool {
    x <= cx < x + w && y <= cy < y + h
}

/// The focusable widget of one tree that a click hits, where the tree is laid
/// out at `(x, y)`.
pub open spec fn hit_one(w: UiWidget, x: int, y: int, cx: int, cy: int) -> Option<FocusableKind>
    decreases w,
{
    match w {
        UiWidget::Button { label_len, action_id, .. } => if inside(
            cx,
            cy,
            x,
            y,
            label_len * 8 + 16,
            16,
        ) {
            Some(FocusableKind::Button { action_id })
        } else {
            None
        },
        UiWidget::TextInput { action_id, .. } => if inside(cx, cy, x, y, 200, 16) {
            Some(FocusableKind::TextInput { action_id })
        } else {
            None
        },
        UiWidget::VStack { children, spacing } => hit_col(children@, spacing as nat, x, y, cx, cy),
        UiWidget::HStack { children, spacing } => hit_row(children@, spacing as nat, x, y, cx, cy),
        _ => None,
    }
}

/// The first hit in a column.
pub open spec fn hit_col(
    ws: Seq<UiWidget>,
    spacing: nat,
    x: int,
    y: int,
    cx: int,
    cy: int,
) -> Option<FocusableKind>
    decreases ws,
{
    if ws.len() == 0 {
        None
    } else {
        match hit_col(ws.drop_last(), spacing, x, y, cx, cy) {
            Some(k) => Some(k),
            None => hit_one(ws.last(), x, y + col_height(ws.drop_last(), spacing), cx, cy),
        }
    }
}

/// The first hit in a row.
pub open spec fn hit_row(
    ws: Seq<UiWidget>,
    spacing: nat,
    x: int,
    y: int,
    cx: int,
    cy: int,
) -> Option<FocusableKind>
    decreases ws,
{
    if ws.len() == 0 {
        None
    } else {
        match hit_row(ws.drop_last(), spacing, x, y, cx, cy) {
            Some(k) => Some(k),
            None => hit_one(ws.last(), x + row_width(ws.drop_last(), spacing), y, cx, cy),
        }
    }
}

fn click_inside(
    cx: usize,
    cy: usize,
    x: u128,
    y: u128,
    w: u128,
    h: u128,
    Ghost(xi): Ghost<int>,
    Ghost(yi): Ghost<int>,
) -> (r: bool)
    requires
        0 <= xi && x == cap(xi),
        0 <= yi && y == cap(yi),
    ensures
        r == inside(cx as int, cy as int, xi, yi, w as int, h as int),
{
    let px: u128 = cx as u128;
    let py: u128 = cy as u128;
    px >= x && px - x < w && py >= y && py - y < h
}

fn hit_test_one(
    w: &UiWidget,
    x: u128,
    y: u128,
    cx: usize,
    cy: usize,
    Ghost(xi): Ghost<int>,
    Ghost(yi): Ghost<int>,
) -> (r: Option<FocusableKind>)
    requires
        0 <= xi && x == cap(xi),
        0 <= yi && y == cap(yi),
    ensures
        r == hit_one(*w, xi, yi, cx as int, cy as int),
    decreases w,
{
    match w {
        UiWidget::Button { label_len, action_id, .. } => {
            if click_inside(
                cx,
                cy,
                x,
                y,
                *label_len as u128 * 8 + 16,
                16,
                Ghost(xi),
                Ghost(yi),
            ) {
                Some(FocusableKind::Button { action_id: *action_id })
            } else {
                None
            }
        },
        UiWidget::TextInput { action_id, .. } => {
            if click_inside(cx, cy, x, y, 200, 16, Ghost(xi), Ghost(yi)) {
                Some(FocusableKind::TextInput { action_id: *action_id })
            } else {
                None
            }
        },
        UiWidget::VStack { children, spacing } => hit_test_col(
            children,
            *spacing,
            x,
            y,
            cx,
            cy,
            Ghost(xi),
            Ghost(yi),
        ),
        UiWidget::HStack { children, spacing } => hit_test_row(
            children,
            *spacing,
            x,
            y,
            cx,
            cy,
            Ghost(xi),
            Ghost(yi),
        ),
        _ => None,
    }
}

fn hit_test_col(
    ws: &[UiWidget],
    spacing: u16,
    x: u128,
    top: u128,
    cx: usize,
    cy: usize,
    Ghost(xi): Ghost<int>,
    Ghost(yi): Ghost<int>,
) -> (r: Option<FocusableKind>)
    requires
        0 <= xi && x == cap(xi),
        0 <= yi && top == cap(yi),
    ensures
        r == hit_col(ws@, spacing as nat, xi, yi, cx as int, cy as int),
    decreases ws@,
{
    let mut y: u128 = top;
    let mut i: usize = 0;
    assert(ws@.subrange(0, ws@.len() as int) =~= ws@);
    assert(ws@.subrange(0, 0) =~= Seq::<UiWidget>::empty());
    while i < ws.len()
        invariant
            i <= ws.len(),
            ws@.subrange(0, ws@.len() as int) == ws@,
            0 <= xi && x == cap(xi),
            0 <= yi,
            y == cap(yi + col_height(ws@.subrange(0, i as int), spacing as nat)),
            hit_col(
                ws@.subrange(0, i as int),
                spacing as nat,
                xi,
                yi,
                cx as int,
                cy as int,
            ) is None,
        decreases ws.len() - i,
    {
        let ghost before = ws@.subrange(0, i as int);
        let ghost here = yi + col_height(before, spacing as nat);
        proof {
            assert(ws@.subrange(0, i + 1).drop_last() =~= before);
        }
        let hit = hit_test_one(&ws[i], x, y, cx, cy, Ghost(xi), Ghost(here));
        if hit.is_some() {
            proof {
                lemma_hit_col_stays(
                    ws@,
                    i + 1,
                    spacing as nat,
                    xi,
                    yi,
                    cx as int,
                    cy as int,
                );
            }
            return hit;
        }
        let h: u128 = widget_height(&ws[i]);
        y = cap_add(cap_add(y, h), spacing as u128);
        i = i + 1;
    }
    None
}

fn hit_test_row(
    ws: &[UiWidget],
    spacing: u16,
    left: u128,
    y: u128,
    cx: usize,
    cy: usize,
    Ghost(xi): Ghost<int>,
    Ghost(yi): Ghost<int>,
) -> (r: Option<FocusableKind>)
    requires
        0 <= xi && left == cap(xi),
        0 <= yi && y == cap(yi),
    ensures
        r == hit_row(ws@, spacing as nat, xi, yi, cx as int, cy as int),
    decreases ws@,
{
    let mut x: u128 = left;
    let mut i: usize = 0;
    assert(ws@.subrange(0, ws@.len() as int) =~= ws@);
    assert(ws@.subrange(0, 0) =~= Seq::<UiWidget>::empty());
    while i < ws.len()
        invariant
            i <= ws.len(),
            ws@.subrange(0, ws@.len() as int) == ws@,
            0 <= yi && y == cap(yi),
            0 <= xi,
            x == cap(xi + row_width(ws@.subrange(0, i as int), spacing as nat)),
            hit_row(
                ws@.subrange(0, i as int),
                spacing as nat,
                xi,
                yi,
                cx as int,
                cy as int,
            ) is None,
        decreases ws.len() - i,
    {
        let ghost before = ws@.subrange(0, i as int);
        let ghost here = xi + row_width(before, spacing as nat);
        proof {
            assert(ws@.subrange(0, i + 1).drop_last() =~= before);
        }
        let hit = hit_test_one(&ws[i], x, y, cx, cy, Ghost(here), Ghost(yi));
        if hit.is_some() {
            proof {
                lemma_hit_row_stays(
                    ws@,
                    i + 1,
                    spacing as nat,
                    xi,
                    yi,
                    cx as int,
                    cy as int,
                );
            }
            return hit;
        }
        let w: u128 = widget_width(&ws[i]);
        x = cap_add(cap_add(x, w), spacing as u128);
        i = i + 1;
    }
    None
}

proof fn lemma_hit_col_stays(
    ws: Seq<UiWidget>,
    k: int,
    spacing: nat,
    x: int,
    y: int,
    cx: int,
    cy: int,
)
    requires
        0 <= k <= ws.len(),
        hit_col(ws.subrange(0, k), spacing, x, y, cx, cy) is Some,
    ensures
        hit_col(ws, spacing, x, y, cx, cy) == hit_col(ws.subrange(0, k), spacing, x, y, cx, cy),
    decreases ws.len(),
{
    if k == ws.len() {
        assert(ws.subrange(0, k) =~= ws);
    } else {
        assert(ws.drop_last().subrange(0, k) =~= ws.subrange(0, k));
        lemma_hit_col_stays(ws.drop_last(), k, spacing, x, y, cx, cy);
    }
}

proof fn lemma_hit_row_stays(
    ws: Seq<UiWidget>,
    k: int,
    spacing: nat,
    x: int,
    y: int,
    cx: int,
    cy: int,
)
    requires
        0 <= k <= ws.len(),
        hit_row(ws.subrange(0, k), spacing, x, y, cx, cy) is Some,
    ensures
        hit_row(ws, spacing, x, y, cx, cy) == hit_row(ws.subrange(0, k), spacing, x, y, cx, cy),
    decreases ws.len(),
{
    if k == ws.len() {
        assert(ws.subrange(0, k) =~= ws);
    } else {
        assert(ws.drop_last().subrange(0, k) =~= ws.subrange(0, k));
        lemma_hit_row_stays(ws.drop_last(), k, spacing, x, y, cx, cy);
    }
}

/// The kind of the focusable widget that a click hits. Coordinates are absolute
/// screen coordinates; the trees are laid out in a column from `(x, y)`.
pub fn hit_test_widgets(
    widgets: &[UiWidget],
    x: usize,
    y: usize,
    click_x: usize,
    click_y: usize,
) -> (r: Option<FocusableKind>)
    ensures
        r == hit_col(widgets@, 0, x as int, y as int, click_x as int, click_y as int),
{
    hit_test_col(
        widgets,
        0,
        x as u128,
        y as u128,
        click_x,
        click_y,
        Ghost(x as int),
        Ghost(y as int),
    )
}

/// The rank, in the focus order of one tree, of the widget that a click hits.
pub open spec fn index_one(w: UiWidget, x: int, y: int, cx: int, cy: int) -> Option<nat>
    decreases w,
{
    match w {
        UiWidget::Button { label_len, .. } => if inside(cx, cy, x, y, label_len * 8 + 16, 16) {
            Some(0)
        } else {
            None
        },
        UiWidget::TextInput { .. } => if inside(cx, cy, x, y, 200, 16) {
            Some(0)
        } else {
            None
        },
        UiWidget::VStack { children, spacing } => index_col(
            children@,
            spacing as nat,
            x,
            y,
            cx,
            cy,
        ),
        UiWidget::HStack { children, spacing } => index_row(
            children@,
            spacing as nat,
            x,
            y,
            cx,
            cy,
        ),
        _ => None,
    }
}

/// The rank of the first hit in a column.
pub open spec fn index_col(
    ws: Seq<UiWidget>,
    spacing: nat,
    x: int,
    y: int,
    cx: int,
    cy: int,
) -> Option<nat>
    decreases ws,
{
    if ws.len() == 0 {
        None
    } else {
        let front = ws.drop_last();
        match index_col(front, spacing, x, y, cx, cy) {
            Some(k) => Some(k),
            None => match index_one(ws.last(), x, y + col_height(front, spacing), cx, cy) {
                Some(k) => Some(focusables(front).len() + k),
                None => None,
            },
        }
    }
}

/// The rank of the first hit in a row.
pub open spec fn index_row(
    ws: Seq<UiWidget>,
    spacing: nat,
    x: int,
    y: int,
    cx: int,
    cy: int,
) -> Option<nat>
    decreases ws,
{
    if ws.len() == 0 {
        None
    } else {
        let front = ws.drop_last();
        match index_row(front, spacing, x, y, cx, cy) {
            Some(k) => Some(k),
            None => match index_one(ws.last(), x + row_width(front, spacing), y, cx, cy) {
                Some(k) => Some(focusables(front).len() + k),
                None => None,
            },
        }
    }
}

/// A scan for the clicked widget: the index that was hit, or the focusable
/// widgets passed so far.
enum Scan {
    Hit(u128),
    Passed(u128),
}

spec fn scans(s: Scan, before: nat, hit: Option<nat>, size: nat) -> bool {
    match hit {
        Some(k) => s == Scan::Hit(cap((before + k) as int)),
        None => s == Scan::Passed(cap((before + size) as int)),
    }
}

fn scan_one(
    w: &UiWidget,
    x: u128,
    y: u128,
    cx: usize,
    cy: usize,
    n: u128,
    Ghost(xi): Ghost<int>,
    Ghost(yi): Ghost<int>,
    Ghost(ni): Ghost<nat>,
) -> (r: Scan)
    requires
        0 <= xi && x == cap(xi),
        0 <= yi && y == cap(yi),
        n == cap(ni as int),
    ensures
        scans(r, ni, index_one(*w, xi, yi, cx as int, cy as int), focusables_of(*w).len()),
    decreases w,
{
    match w {
        UiWidget::Button { label_len, .. } => {
            if click_inside(
                cx,
                cy,
                x,
                y,
                *label_len as u128 * 8 + 16,
                16,
                Ghost(xi),
                Ghost(yi),
            ) {
                Scan::Hit(n)
            } else {
                Scan::Passed(cap_add(n, 1))
            }
        },
        UiWidget::TextInput { .. } => {
            if click_inside(cx, cy, x, y, 200, 16, Ghost(xi), Ghost(yi)) {
                Scan::Hit(n)
            } else {
                Scan::Passed(cap_add(n, 1))
            }
        },
        UiWidget::VStack { children, spacing } => {
            assert(focusables_of(*w) == focusables(children@));
            scan_col(children, *spacing, x, y, cx, cy, n, Ghost(xi), Ghost(yi), Ghost(ni))
        },
        UiWidget::HStack { children, spacing } => {
            assert(focusables_of(*w) == focusables(children@));
            scan_row(children, *spacing, x, y, cx, cy, n, Ghost(xi), Ghost(yi), Ghost(ni))
        },
        _ => Scan::Passed(n),
    }
}

fn scan_col(
    ws: &[UiWidget],
    spacing: u16,
    x: u128,
    top: u128,
    cx: usize,
    cy: usize,
    first: u128,
    Ghost(xi): Ghost<int>,
    Ghost(yi): Ghost<int>,
    Ghost(ni): Ghost<nat>,
) -> (r: Scan)
    requires
        0 <= xi && x == cap(xi),
        0 <= yi && top == cap(yi),
        first == cap(ni as int),
    ensures
        scans(
            r,
            ni,
            index_col(ws@, spacing as nat, xi, yi, cx as int, cy as int),
            focusables(ws@).len(),
        ),
    decreases ws@,
{
    let mut y: u128 = top;
    let mut n: u128 = first;
    let mut i: usize = 0;
    assert(ws@.subrange(0, 0) =~= Seq::<UiWidget>::empty());
    while i < ws.len()
        invariant
            i <= ws.len(),
            0 <= xi && x == cap(xi),
            0 <= yi,
            y == cap(yi + col_height(ws@.subrange(0, i as int), spacing as nat)),
            n == cap((ni + focusables(ws@.subrange(0, i as int)).len()) as int),
            index_col(
                ws@.subrange(0, i as int),
                spacing as nat,
                xi,
                yi,
                cx as int,
                cy as int,
            ) is None,
        decreases ws.len() - i,
    {
        let ghost before = ws@.subrange(0, i as int);
        let ghost here = yi + col_height(before, spacing as nat);
        let ghost passed = (ni + focusables(before).len()) as nat;
        proof {
            assert(ws@.subrange(0, i + 1).drop_last() =~= before);
        }
        match scan_one(&ws[i], x, y, cx, cy, n, Ghost(xi), Ghost(here), Ghost(passed)) {
            Scan::Hit(k) => {
                proof {
                    lemma_index_col_stays(
                        ws@,
                        i + 1,
                        spacing as nat,
                        xi,
                        yi,
                        cx as int,
                        cy as int,
                    );
                }
                return Scan::Hit(k);
            },
            Scan::Passed(m) => {
                n = m;
            },
        }
        let h: u128 = widget_height(&ws[i]);
        y = cap_add(cap_add(y, h), spacing as u128);
        i = i + 1;
    }
    assert(ws@.subrange(0, i as int) =~= ws@);
    Scan::Passed(n)
}

fn scan_row(
    ws: &[UiWidget],
    spacing: u16,
    left: u128,
    y: u128,
    cx: usize,
    cy: usize,
    first: u128,
    Ghost(xi): Ghost<int>,
    Ghost(yi): Ghost<int>,
    Ghost(ni): Ghost<nat>,
) -> (r: Scan)
    requires
        0 <= xi && left == cap(xi),
        0 <= yi && y == cap(yi),
        first == cap(ni as int),
    ensures
        scans(
            r,
            ni,
            index_row(ws@, spacing as nat, xi, yi, cx as int, cy as int),
            focusables(ws@).len(),
        ),
    decreases ws@,
{
    let mut x: u128 = left;
    let mut n: u128 = first;
    let mut i: usize = 0;
    assert(ws@.subrange(0, 0) =~= Seq::<UiWidget>::empty());
    while i < ws.len()
        invariant
            i <= ws.len(),
            0 <= yi && y == cap(yi),
            0 <= xi,
            x == cap(xi + row_width(ws@.subrange(0, i as int), spacing as nat)),
            n == cap((ni + focusables(ws@.subrange(0, i as int)).len()) as int),
            index_row(
                ws@.subrange(0, i as int),
                spacing as nat,
                xi,
                yi,
                cx as int,
                cy as int,
            ) is None,
        decreases ws.len() - i,
    {
        let ghost before = ws@.subrange(0, i as int);
        let ghost here = xi + row_width(before, spacing as nat);
        let ghost passed = (ni + focusables(before).len()) as nat;
        proof {
            assert(ws@.subrange(0, i + 1).drop_last() =~= before);
        }
        match scan_one(&ws[i], x, y, cx, cy, n, Ghost(here), Ghost(yi), Ghost(passed)) {
            Scan::Hit(k) => {
                proof {
                    lemma_index_row_stays(
                        ws@,
                        i + 1,
                        spacing as nat,
                        xi,
                        yi,
                        cx as int,
                        cy as int,
                    );
                }
                return Scan::Hit(k);
            },
            Scan::Passed(m) => {
                n = m;
            },
        }
        let w: u128 = widget_width(&ws[i]);
        x = cap_add(cap_add(x, w), spacing as u128);
        i = i + 1;
    }
    assert(ws@.subrange(0, i as int) =~= ws@);
    Scan::Passed(n)
}

proof fn lemma_index_col_stays(
    ws: Seq<UiWidget>,
    k: int,
    spacing: nat,
    x: int,
    y: int,
    cx: int,
    cy: int,
)
    requires
        0 <= k <= ws.len(),
        index_col(ws.subrange(0, k), spacing, x, y, cx, cy) is Some,
    ensures
        index_col(ws, spacing, x, y, cx, cy) == index_col(ws.subrange(0, k), spacing, x, y, cx, cy),
    decreases ws.len(),
{
    if k == ws.len() {
        assert(ws.subrange(0, k) =~= ws);
    } else {
        assert(ws.drop_last().subrange(0, k) =~= ws.subrange(0, k));
        lemma_index_col_stays(ws.drop_last(), k, spacing, x, y, cx, cy);
    }
}

proof fn lemma_index_row_stays(
    ws: Seq<UiWidget>,
    k: int,
    spacing: nat,
    x: int,
    y: int,
    cx: int,
    cy: int,
)
    requires
        0 <= k <= ws.len(),
        index_row(ws.subrange(0, k), spacing, x, y, cx, cy) is Some,
    ensures
        index_row(ws, spacing, x, y, cx, cy) == index_row(ws.subrange(0, k), spacing, x, y, cx, cy),
    decreases ws.len(),
{
    if k == ws.len() {
        assert(ws.subrange(0, k) =~= ws);
    } else {
        assert(ws.drop_last().subrange(0, k) =~= ws.subrange(0, k));
        lemma_index_row_stays(ws.drop_last(), k, spacing, x, y, cx, cy);
    }
}

/// The focus index of the widget that a click hits. The trees are laid out in a
/// column from `(x, y)`.
pub fn hit_test_focusable_index(
    widgets: &[UiWidget],
    x: usize,
    y: usize,
    click_x: usize,
    click_y: usize,
) -> (r: Option<usize>)
    requires
        focusables(widgets@).len() <= usize::MAX,
    ensures
        ({
            let hit = index_col(
                widgets@,
                0,
                x as int,
                y as int,
                click_x as int,
                click_y as int,
            );
            match r {
                Some(k) => k < focusables(widgets@).len() && hit == Some(k as nat),
                None => hit is None,
            }
        }),
{
    proof {
        clicked_index_has_clicked_kind(
            widgets@,
            x as int,
            y as int,
            click_x as int,
            click_y as int,
        );
    }
    let s = scan_col(
        widgets,
        0,
        x as u128,
        y as u128,
        click_x,
        click_y,
        0,
        Ghost(x as int),
        Ghost(y as int),
        Ghost(0nat),
    );
    match s {
        Scan::Hit(k) => Some(k as usize),
        Scan::Passed(_) => None,
    }
}

/// Whether a rank and a hit test of the same trees agree.
spec fn agree(index: Option<nat>, fs: Seq<UiWidget>, hit: Option<FocusableKind>) -> bool {
    match index {
        Some(k) => k < fs.len() && hit == Some(kind_of(fs[k as int])),
        None => hit is None,
    }
}

proof fn lemma_agree_one(w: UiWidget, x: int, y: int, cx: int, cy: int)
    ensures
        agree(index_one(w, x, y, cx, cy), focusables_of(w), hit_one(w, x, y, cx, cy)),
    decreases w,
{
    match w {
        UiWidget::VStack { children, spacing } => {
            lemma_agree_col(children@, spacing as nat, x, y, cx, cy);
            assert(focusables_of(w) == focusables(children@));
            assert(hit_one(w, x, y, cx, cy) == hit_col(children@, spacing as nat, x, y, cx, cy));
        },
        UiWidget::HStack { children, spacing } => {
            lemma_agree_row(children@, spacing as nat, x, y, cx, cy);
            assert(focusables_of(w) == focusables(children@));
            assert(hit_one(w, x, y, cx, cy) == hit_row(children@, spacing as nat, x, y, cx, cy));
        },
        _ => {
            assert(is_focusable(w) ==> focusables_of(w) =~= seq![w]);
        },
    }
}

proof fn lemma_agree_col(ws: Seq<UiWidget>, spacing: nat, x: int, y: int, cx: int, cy: int)
    ensures
        agree(
            index_col(ws, spacing, x, y, cx, cy),
            focusables(ws),
            hit_col(ws, spacing, x, y, cx, cy),
        ),
    decreases ws,
{
    if ws.len() > 0 {
        let front = ws.drop_last();
        lemma_agree_col(front, spacing, x, y, cx, cy);
        lemma_agree_one(ws.last(), x, y + col_height(front, spacing), cx, cy);
        assert(focusables(ws) == focusables(front) + focusables_of(ws.last()));
    }
}

proof fn lemma_agree_row(ws: Seq<UiWidget>, spacing: nat, x: int, y: int, cx: int, cy: int)
    ensures
        agree(
            index_row(ws, spacing, x, y, cx, cy),
            focusables(ws),
            hit_row(ws, spacing, x, y, cx, cy),
        ),
    decreases ws,
{
    if ws.len() > 0 {
        let front = ws.drop_last();
        lemma_agree_row(front, spacing, x, y, cx, cy);
        lemma_agree_one(ws.last(), x + row_width(front, spacing), y, cx, cy);
        assert(focusables(ws) == focusables(front) + focusables_of(ws.last()));
    }
}

/// The index that a click hits is that of the widget whose kind the click hits.
pub proof fn clicked_index_has_clicked_kind(
    ws: Seq<UiWidget>,
    x: int,
    y: int,
    cx: int,
    cy: int,
)
    ensures
        match index_col(ws, 0, x, y, cx, cy) {
            Some(k) => k < focusables(ws).len() && hit_col(ws, 0, x, y, cx, cy) == Some(
                kind_of(focusables(ws)[k as int]),
            ),
            None => hit_col(ws, 0, x, y, cx, cy) is None,
        },
{
    lemma_agree_col(ws, 0, x, y, cx, cy);
}

// ---------------------------------------------------------------------
// Editing
// ---------------------------------------------------------------------

/// The focusable widgets in front of tree `i`.
pub open spec fn focusables_before(ws: Seq<UiWidget>, i: int) -> nat {
    focusables(ws.subrange(0, i)).len()
}

/// Whether `out` is `ws` with its n-th focusable widget replaced by `new`.
pub open spec fn replaces(ws: Seq<UiWidget>, n: int, new: UiWidget, out: Seq<UiWidget>) -> bool
    decreases ws,
{
    &&& out.len() == ws.len()
    &&& forall|i: int|
        0 <= i < ws.len() ==> {
            let before = focusables_before(ws, i);
            if before <= n < before + focusables_of(ws[i]).len() {
                replaces_in(ws[i], n - before, new, #[trigger] out[i])
            } else {
                out[i] == ws[i]
            }
        }
}

/// The same for one tree.
pub open spec fn replaces_in(w: UiWidget, n: int, new: UiWidget, out: UiWidget) -> bool
    decreases w,
{
    match w {
        UiWidget::Button { .. } => out == new,
        UiWidget::TextInput { .. } => out == new,
        UiWidget::VStack { children, spacing } => out matches UiWidget::VStack {
            children: c2,
            spacing: s2,
        } && s2 == spacing && replaces(children@, n, new, c2@),
        UiWidget::HStack { children, spacing } => out matches UiWidget::HStack {
            children: c2,
            spacing: s2,
        } && s2 == spacing && replaces(children@, n, new, c2@),
        _ => out == w,
    }
}

proof fn lemma_before_rises(ws: Seq<UiWidget>, i: int, j: int)
    requires
        0 <= i < j <= ws.len(),
    ensures
        focusables_before(ws, i) + focusables_of(ws[i]).len() <= focusables_before(ws, j),
        focusables_before(ws, j) <= focusables(ws).len(),
    decreases j - i,
{
    lemma_focusables_split(ws, i);
    lemma_focusables_split(ws, j);
    if i + 1 < j {
        lemma_before_rises(ws, i, j - 1);
        lemma_focusables_split(ws, j - 1);
    }
}

/// The tree that holds the n-th focusable widget, and its rank there.
fn locate(ws: &[UiWidget], n: usize) -> (r: Option<(usize, usize)>)
    ensures
        match r {
            Some((i, m)) => i < ws@.len() && m == n - focusables_before(ws@, i as int) && 0 <= n
                - focusables_before(ws@, i as int) < focusables_of(ws@[i as int]).len(),
            None => n >= focusables(ws@).len(),
        },
{
    let mut left: usize = n;
    let mut i: usize = 0;
    assert(focusables(ws@.subrange(0, 0)) =~= Seq::<UiWidget>::empty());
    while i < ws.len()
        invariant
            i <= ws.len(),
            n >= focusables_before(ws@, i as int),
            left == n - focusables_before(ws@, i as int),
        decreases ws.len() - i,
    {
        proof {
            lemma_focusables_split(ws@, i as int);
        }
        let inner: usize = match &ws[i] {
            UiWidget::Button { .. } => {
                if left == 0 {
                    return Some((i, 0));
                }
                left - 1
            },
            UiWidget::TextInput { .. } => {
                if left == 0 {
                    return Some((i, 0));
                }
                left - 1
            },
            UiWidget::VStack { children, .. } => match seek_focusable(children, left) {
                Seek::Found(_) => {
                    return Some((i, left));
                },
                Seek::Left(m) => m,
            },
            UiWidget::HStack { children, .. } => match seek_focusable(children, left) {
                Seek::Found(_) => {
                    return Some((i, left));
                },
                Seek::Left(m) => m,
            },
            _ => left,
        };
        left = inner;
        i = i + 1;
    }
    assert(ws@.subrange(0, i as int) =~= ws@);
    None
}

/// The n-th focusable widget for editing. Whatever is written through the
/// reference takes the place of that widget, and nothing else changes.
pub fn nth_focusable_mut(widgets: &mut Vec<UiWidget>, n: usize) -> (r: Option<&mut UiWidget>)
    ensures
        match r {
            Some(w) => n < focusables(old(widgets)@).len() && *w == focusables(
                old(widgets)@,
            )[n as int] && replaces(old(widgets)@, n as int, *final(w), final(widgets)@),
            None => n >= focusables(old(widgets)@).len() && final(widgets)@ == old(widgets)@,
        },
    decreases old(widgets)@,
{
    match locate(widgets, n) {
        None => None,
        Some((i, m)) => {
            proof {
                lemma_focusables_split(widgets@, i as int);
                lemma_focusables_split(widgets@, i + 1);
                lemma_before_rises(widgets@, i as int, widgets@.len() as int);
                assert forall|j: int| 0 <= j < widgets@.len() && j != i implies !(#[trigger] focusables_before(
                    widgets@,
                    j,
                ) <= n < focusables_before(widgets@, j) + focusables_of(widgets@[j]).len()) by {
                    if j < i {
                        lemma_before_rises(widgets@, j, i as int);
                    } else {
                        lemma_before_rises(widgets@, i as int, j);
                    }
                }
            }
            let slot = &mut widgets[i];
            match slot {
                UiWidget::VStack { children, .. } => nth_focusable_mut(children, m),
                UiWidget::HStack { children, .. } => nth_focusable_mut(children, m),
                _ => Some(slot),
            }
        },
    }
}

// ---------------------------------------------------------------------
// Focus and clicks, in numbers
// ---------------------------------------------------------------------

/// Focus goes through a tree depth first: the widgets of two lists follow each
/// other, a button and an input take it themselves, a stack passes it on to its
/// children, and a label and a spacer never take it. Buttons and labels are
/// gone through in the same way.
pub proof fn focus_goes_depth_first(a: Seq<UiWidget>, b: Seq<UiWidget>, w: UiWidget)
    ensures
        focusables(a + b) == focusables(a) + focusables(b),
        buttons(a + b) == buttons(a) + buttons(b),
        labels(a + b) == labels(a) + labels(b),
        w is Button ==> focusables(seq![w]) == seq![w] && buttons(seq![w]) == seq![w],
        w is TextInput ==> focusables(seq![w]) == seq![w] && buttons(seq![w]).len() == 0,
        w is Label ==> labels(seq![w]) == seq![w] && focusables(seq![w]).len() == 0,
        w is Spacer ==> focusables(seq![w]).len() == 0 && labels(seq![w]).len() == 0,
        w matches UiWidget::VStack { children, .. } ==> focusables(seq![w]) == focusables(children@)
            && buttons(seq![w]) == buttons(children@) && labels(seq![w]) == labels(children@),
        w matches UiWidget::HStack { children, .. } ==> focusables(seq![w]) == focusables(children@)
            && buttons(seq![w]) == buttons(children@) && labels(seq![w]) == labels(children@),
{
    lemma_focusables_append(a, b);
    lemma_buttons_append(a, b);
    lemma_labels_append(a, b);
    let one = seq![w];
    assert(one.drop_last() =~= Seq::<UiWidget>::empty());
    let none = Seq::<UiWidget>::empty();
    assert(focusables(none) =~= none && buttons(none) =~= none && labels(none) =~= none);
    assert(focusables(one) =~= focusables_of(w));
    assert(buttons(one) =~= buttons_of(w));
    assert(labels(one) =~= labels_of(w));
}

/// The sizes of widgets in pixels, and of stacks: a column is as high as all of
/// its children with the spacing behind each, a row as high as its highest
/// child and as wide as all of them.
pub proof fn widget_sizes(w: UiWidget, ws: Seq<UiWidget>, spacing: nat)
    ensures
        w is Label ==> height_of(w) == 12,
        w is Button || w is TextInput ==> height_of(w) == 20,
        w matches UiWidget::Spacer { height } ==> height_of(w) == height && width_of(w) == 0,
        w matches UiWidget::Label { text_len, .. } ==> width_of(w) == 8 * text_len,
        w matches UiWidget::Button { label_len, .. } ==> width_of(w) == 8 * label_len + 16,
        w is TextInput ==> width_of(w) == 200,
        w is VStack || w is HStack ==> width_of(w) == 100,
        w matches UiWidget::VStack { children, spacing: sp } ==> height_of(w) == col_height(
            children@,
            sp as nat,
        ),
        w matches UiWidget::HStack { children, .. } ==> height_of(w) == row_height(children@),
        col_height(Seq::empty(), spacing) == 0,
        row_width(Seq::empty(), spacing) == 0,
        col_height(ws.push(w), spacing) == col_height(ws, spacing) + height_of(w) + spacing,
        row_width(ws.push(w), spacing) == row_width(ws, spacing) + width_of(w) + spacing,
        row_height(ws.push(w)) >= height_of(w),
        row_height(ws.push(w)) >= row_height(ws),
        row_height(ws.push(w)) == height_of(w) || row_height(ws.push(w)) == row_height(ws),
{
    assert(ws.push(w).drop_last() =~= ws);
    assert(ws.push(w).last() == w);
}

/// A click hits a button in a field as wide as the button and 16 pixels high,
/// an input in one of 200 by 16, and nothing else but the children of stacks.
pub proof fn clicks_hit_fields(w: UiWidget, x: int, y: int, cx: int, cy: int)
    ensures
        w matches UiWidget::Button { label_len, action_id, .. } ==> hit_one(w, x, y, cx, cy) == (
        if x <= cx && cx < x + 8 * label_len + 16 && y <= cy && cy < y + 16 {
            Some(FocusableKind::Button { action_id })
        } else {
            None
        }),
        w matches UiWidget::TextInput { action_id, .. } ==> hit_one(w, x, y, cx, cy) == (if x <= cx
            && cx < x + 200 && y <= cy && cy < y + 16 {
            Some(FocusableKind::TextInput { action_id })
        } else {
            None
        }),
        w is Label || w is Spacer ==> hit_one(w, x, y, cx, cy) is None,
        w matches UiWidget::VStack { children, spacing } ==> hit_one(w, x, y, cx, cy) == hit_col(
            children@,
            spacing as nat,
            x,
            y,
            cx,
            cy,
        ),
        w matches UiWidget::HStack { children, spacing } ==> hit_one(w, x, y, cx, cy) == hit_row(
            children@,
            spacing as nat,
            x,
            y,
            cx,
            cy,
        ),
{
}

/// In a column the first child that is hit decides, each child being below all
/// that come before it; nothing is hit exactly where no child is.
#[verifier::rlimit(40)]
pub proof fn first_hit_in_a_column_decides(
    ws: Seq<UiWidget>,
    spacing: nat,
    x: int,
    y: int,
    cx: int,
    cy: int,
    i: int,
)
    ensures
        0 <= i < ws.len() && hit_one(ws[i], x, y + col_height(ws.subrange(0, i), spacing), cx, cy)
            is Some && (forall|j: int|
            0 <= j < i ==> (#[trigger] hit_one(
                ws[j],
                x,
                y + col_height(ws.subrange(0, j), spacing),
                cx,
                cy,
            )) is None) ==> hit_col(ws, spacing, x, y, cx, cy) == hit_one(
            ws[i],
            x,
            y + col_height(ws.subrange(0, i), spacing),
            cx,
            cy,
        ),
        hit_col(ws, spacing, x, y, cx, cy) is None <==> forall|j: int|
            0 <= j < ws.len() ==> (#[trigger] hit_one(
                ws[j],
                x,
                y + col_height(ws.subrange(0, j), spacing),
                cx,
                cy,
            )) is None,
    decreases ws.len(),
{
    if ws.len() > 0 {
        let front = ws.drop_last();
        let n = front.len() as int;
        first_hit_in_a_column_decides(front, spacing, x, y, cx, cy, i);
        assert(ws.subrange(0, n) =~= front);
        assert forall|j: int| 0 <= j <= n implies #[trigger] ws.subrange(0, j) == front.subrange(
            0,
            j,
        ) by {
            assert(ws.subrange(0, j) =~= front.subrange(0, j));
        }
        assert forall|j: int| 0 <= j < n implies #[trigger] hit_one(
            front[j],
            x,
            y + col_height(front.subrange(0, j), spacing),
            cx,
            cy,
        ) == hit_one(ws[j], x, y + col_height(ws.subrange(0, j), spacing), cx, cy) by {
            assert(ws.subrange(0, j) == front.subrange(0, j));
        }
        assert forall|j: int| 0 <= j < n implies #[trigger] hit_one(
            ws[j],
            x,
            y + col_height(ws.subrange(0, j), spacing),
            cx,
            cy,
        ) == hit_one(front[j], x, y + col_height(front.subrange(0, j), spacing), cx, cy) by {
            assert(ws.subrange(0, j) == front.subrange(0, j));
        }
        assert(ws.last() == ws[n]);
        let last = hit_one(ws[n], x, y + col_height(ws.subrange(0, n), spacing), cx, cy);
        if hit_col(ws, spacing, x, y, cx, cy) is None {
            assert forall|j: int| 0 <= j < ws.len() implies (#[trigger] hit_one(
                ws[j],
                x,
                y + col_height(ws.subrange(0, j), spacing),
                cx,
                cy,
            )) is None by {
                if j < n {
                    assert(hit_one(
                        front[j],
                        x,
                        y + col_height(front.subrange(0, j), spacing),
                        cx,
                        cy,
                    ) is None);
                }
            }
        }
    }
}

/// In a row the first child that is hit decides, each child being to the right
/// of all that come before it.
pub proof fn first_hit_in_a_row_decides(
    ws: Seq<UiWidget>,
    w: UiWidget,
    spacing: nat,
    x: int,
    y: int,
    cx: int,
    cy: int,
)
    ensures
        hit_row(Seq::empty(), spacing, x, y, cx, cy) is None,
        hit_row(ws, spacing, x, y, cx, cy) is Some ==> hit_row(ws.push(w), spacing, x, y, cx, cy)
            == hit_row(ws, spacing, x, y, cx, cy),
        hit_row(ws, spacing, x, y, cx, cy) is None ==> hit_row(ws.push(w), spacing, x, y, cx, cy)
            == hit_one(w, x + row_width(ws, spacing), y, cx, cy),
{
    assert(ws.push(w).drop_last() =~= ws);
    assert(ws.push(w).last() == w);
}

} // verus!

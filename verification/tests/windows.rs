use folkering::widgets::{
    count_buttons, count_focusable, first_label_text, hit_test_focusable_index, hit_test_widgets,
    nth_button_action_id, nth_focusable, nth_focusable_mut, nth_focusable_text, widget_height,
    widget_width, FocusableKind, UiWidget,
};
use folkering::window_draw::{
    draw_char_small, draw_str_small, draw_window, glyph_index, DrawCmd,
};
use folkering::window_manager::{HitZone, TextLine, Window, WindowManager};

fn tree() -> Vec<UiWidget> {
    vec![
        UiWidget::label("Name", 0xFFFFFF),
        UiWidget::HStack {
            children: vec![
                UiWidget::button("OK", 1, 0x111111, 0x222222),
                UiWidget::text_input("type", 2, 200),
            ],
            spacing: 4,
        },
        UiWidget::Spacer { height: 10 },
        UiWidget::VStack { children: vec![UiWidget::button("Cancel", 3, 0, 1)], spacing: 2 },
    ]
}

fn terminal(m: &mut WindowManager, title: &str, x: i32, y: i32) -> u32 {
    m.create_terminal(title, x, y, 100, 50)
}

fn line(l: &TextLine) -> &str {
    l.as_str()
}

#[test]
fn widgets_are_cut_to_their_buffers() {
    match UiWidget::label(&"a".repeat(80), 7) {
        UiWidget::Label { text, text_len, color } => {
            assert_eq!(text_len, 63);
            assert_eq!(text[62], b'a');
            assert_eq!(text[63], 0);
            assert_eq!(color, 7);
        }
        _ => panic!("label"),
    }
    match UiWidget::button(&"b".repeat(80), 9, 1, 2) {
        UiWidget::Button { label_len, action_id, bg_color, fg_color, .. } => {
            assert_eq!((label_len, action_id, bg_color, fg_color), (31, 9, 1, 2));
        }
        _ => panic!("button"),
    }
    match UiWidget::text_input("p", 9, 200) {
        UiWidget::TextInput { placeholder_len, max_len, value_len, cursor_pos, .. } => {
            assert_eq!((placeholder_len, max_len, value_len, cursor_pos), (1, 63, 0, 0));
        }
        _ => panic!("text input"),
    }
}

#[test]
fn focus_goes_depth_first() {
    let t = tree();
    assert_eq!(count_focusable(&t), 3);
    assert_eq!(nth_focusable(&t, 0), Some(FocusableKind::Button { action_id: 1 }));
    assert_eq!(nth_focusable(&t, 1), Some(FocusableKind::TextInput { action_id: 2 }));
    assert_eq!(nth_focusable(&t, 2), Some(FocusableKind::Button { action_id: 3 }));
    assert_eq!(nth_focusable(&t, 3), None);
}

#[test]
fn buttons_are_counted_without_inputs() {
    let t = tree();
    assert_eq!(count_buttons(&t), 2);
    assert_eq!(nth_button_action_id(&t, 0), Some(1));
    assert_eq!(nth_button_action_id(&t, 1), Some(3));
    assert_eq!(nth_button_action_id(&t, 2), None);
}

#[test]
fn focused_widget_can_be_changed() {
    let mut t = tree();
    match nth_focusable_mut(&mut t, 1) {
        Some(UiWidget::TextInput { value, value_len, .. }) => {
            value[0] = b'h';
            value[1] = b'i';
            *value_len = 2;
        }
        _ => panic!("text input"),
    }
    let (buf, len) = nth_focusable_text(&t, 1).unwrap();
    assert_eq!(&buf[..len], b"hi");
    let (buf, len) = nth_focusable_text(&t, 2).unwrap();
    assert_eq!(&buf[..len], b"Cancel");
    assert!(nth_focusable_text(&t, 3).is_none());
    assert!(nth_focusable_mut(&mut t, 3).is_none());
}

#[test]
fn first_label_is_found() {
    let (buf, len) = first_label_text(&tree()).unwrap();
    assert_eq!(&buf[..len], b"Name");
    assert!(first_label_text(&[UiWidget::Spacer { height: 1 }]).is_none());
}

#[test]
fn widgets_have_sizes() {
    let t = tree();
    assert_eq!(widget_height(&t[0]), 12);
    assert_eq!(widget_height(&t[1]), 20);
    assert_eq!(widget_height(&t[2]), 10);
    assert_eq!(widget_height(&t[3]), 22);
    assert_eq!(widget_width(&t[0]), 32);
    assert_eq!(widget_width(&UiWidget::button("OK", 1, 0, 0)), 32);
    assert_eq!(widget_width(&UiWidget::text_input("", 1, 0)), 200);
    assert_eq!(widget_width(&t[3]), 100);
}

#[test]
fn clicks_reach_widgets() {
    let t = tree();
    assert_eq!(hit_test_widgets(&t, 10, 20, 11, 33), Some(FocusableKind::Button { action_id: 1 }));
    assert_eq!(
        hit_test_widgets(&t, 10, 20, 46, 33),
        Some(FocusableKind::TextInput { action_id: 2 })
    );
    assert_eq!(hit_test_widgets(&t, 10, 20, 44, 33), None);
    assert_eq!(hit_test_widgets(&t, 10, 20, 11, 63), Some(FocusableKind::Button { action_id: 3 }));
    assert_eq!(hit_test_focusable_index(&t, 10, 20, 11, 33), Some(0));
    assert_eq!(hit_test_focusable_index(&t, 10, 20, 46, 33), Some(1));
    assert_eq!(hit_test_focusable_index(&t, 10, 20, 11, 63), Some(2));
    assert_eq!(hit_test_focusable_index(&t, 10, 20, 11, 21), None);
}

#[test]
fn clicks_reach_stacked_widgets() {
    let t = vec![UiWidget::VStack {
        children: vec![UiWidget::button("A", 1, 0, 0), UiWidget::button("B", 2, 0, 0)],
        spacing: 0,
    }];
    assert_eq!(hit_test_focusable_index(&t, 0, 0, 0, 20), Some(1));
    assert_eq!(hit_test_widgets(&t, 0, 0, 0, 20), Some(FocusableKind::Button { action_id: 2 }));
    let t = vec![
        UiWidget::VStack {
            children: vec![
                UiWidget::label("x", 0),
                UiWidget::VStack { children: vec![UiWidget::button("A", 1, 0, 0)], spacing: 3 },
                UiWidget::text_input("p", 2, 9),
            ],
            spacing: 5,
        },
        UiWidget::button("C", 3, 0, 0),
    ];
    for y in 0..120 {
        let kind = hit_test_widgets(&t, 0, 0, 1, y);
        let index = hit_test_focusable_index(&t, 0, 0, 1, y);
        let want = match kind {
            Some(FocusableKind::Button { action_id: 1 }) => Some(0),
            Some(FocusableKind::TextInput { .. }) => Some(1),
            Some(FocusableKind::Button { .. }) => Some(2),
            None => None,
        };
        assert_eq!(index, want);
    }
    assert_eq!(hit_test_focusable_index(&t, 0, 0, 1, 17), Some(0));
    assert_eq!(hit_test_focusable_index(&t, 0, 0, 1, 45), Some(1));
    assert_eq!(hit_test_focusable_index(&t, 0, 0, 1, 70), Some(2));
}

#[test]
fn lines_scroll_and_wrap() {
    let mut m = WindowManager::new();
    let id = terminal(&mut m, "t", 0, 0);
    let w = m.get_window_mut(id).unwrap();
    w.dirty = false;
    for i in 0..32 {
        w.push_line(&format!("line {}", i));
    }
    assert!(w.dirty);
    assert_eq!(w.lines.len(), 30);
    assert_eq!(line(&w.lines[0]), "line 2");
    w.append_text(b" and more\nnext");
    assert_eq!(line(&w.lines[28]), "line 31 and more");
    assert_eq!(line(&w.lines[29]), "next");
    w.append_text(&[b'x'; 130]);
    assert_eq!(w.lines[28].len, 127);
    assert_eq!(w.lines[29].len, 7);
}

#[test]
fn long_lines_are_cut_and_bad_ones_are_empty() {
    let mut m = WindowManager::new();
    let id = terminal(&mut m, "t", 0, 0);
    let w = m.get_window_mut(id).unwrap();
    w.push_line(&"y".repeat(200));
    assert_eq!(w.lines[0].len, 127);
    w.append_text(b"\n");
    w.append_text(&[0xC3]);
    assert_eq!(line(&w.lines[1]), "");
    w.append_text(&[0xA9]);
    assert_eq!(line(&w.lines[1]), "é");
    assert_eq!(line(&TextLine::empty()), "");
}

#[test]
fn input_is_cleared() {
    let mut m = WindowManager::new();
    let id = terminal(&mut m, "t", 0, 0);
    let w = m.get_window_mut(id).unwrap();
    w.input_buf[0] = b'q';
    w.input_len = 1;
    w.input_cursor = 1;
    assert_eq!(w.input_str(), "q");
    w.clear_input();
    assert_eq!((w.input_str(), w.input_cursor, w.input_buf[0]), ("", 0, 0));
}

#[test]
fn windows_are_stacked_and_closed() {
    let mut m = WindowManager::new();
    let a = terminal(&mut m, "a", 0, 0);
    let b = terminal(&mut m, "b", 0, 0);
    let c = terminal(&mut m, "c", 0, 0);
    assert_eq!((a, b, c), (1, 2, 3));
    assert_eq!(m.focused_id, Some(c));
    m.focus(a);
    let ids: Vec<u32> = m.windows.iter().map(|w| w.id).collect();
    assert_eq!(ids, vec![b, c, a]);
    m.close_window(a);
    assert_eq!(m.focused_id, Some(c));
    m.close_window(b);
    assert_eq!(m.focused_id, Some(c));
    assert!(m.get_window(b).is_none());
    m.close_window(c);
    assert_eq!(m.focused_id, None);
    assert!(!m.has_visible());
    assert!(m.get_window_mut(c).is_none());
}

#[test]
fn cycling_takes_the_top_window_down() {
    let mut m = WindowManager::new();
    let a = terminal(&mut m, "first", 0, 0);
    assert!(m.cycle_next_window().is_none());
    let b = terminal(&mut m, "second", 0, 0);
    let (title, len) = m.cycle_next_window().unwrap();
    assert_eq!(&title[..len], b"first");
    assert_eq!(m.focused_id, Some(a));
    assert_eq!(m.windows[0].id, b);
    m.windows[0].visible = false;
    m.windows[1].visible = false;
    assert!(m.cycle_next_window().is_none());
    assert_eq!(m.focused_id, Some(a));
}

#[test]
fn cycling_passes_over_hidden_windows() {
    let mut m = WindowManager::new();
    let a = terminal(&mut m, "a", 0, 0);
    let b = terminal(&mut m, "b", 0, 0);
    let c = terminal(&mut m, "c", 0, 0);
    m.get_window_mut(c).unwrap().visible = false;
    assert!(m.cycle_next_window().is_some());
    assert_eq!(m.focused_id, Some(a));
    assert!(m.cycle_next_window().is_some());
    assert_eq!(m.focused_id, Some(b));
}

#[test]
fn cycling_comes_round() {
    let mut m = WindowManager::new();
    let ids: Vec<u32> = ["a", "b", "c"].iter().map(|t| terminal(&mut m, t, 0, 0)).collect();
    let mut seen = Vec::new();
    for _ in 0..3 {
        m.cycle_next_window();
        seen.push(m.focused_id.unwrap());
    }
    assert_eq!(seen, vec![ids[1], ids[0], ids[2]]);
    assert_eq!(m.windows.iter().map(|w| w.id).collect::<Vec<u32>>(), ids);
}

#[test]
fn closed_ids_do_not_come_back() {
    let mut m = WindowManager::new();
    let mut seen = Vec::new();
    for _ in 0..4 {
        let id = terminal(&mut m, "t", 0, 0);
        assert!(!seen.contains(&id));
        seen.push(id);
        m.close_window(id);
    }
    assert_eq!(seen, vec![1, 2, 3, 4]);
}

#[test]
fn hits_go_to_the_topmost_window() {
    let mut m = WindowManager::new();
    let a = terminal(&mut m, "a", 10, 10);
    let b = terminal(&mut m, "b", 20, 20);
    assert_eq!(m.hit_test(25, 60), Some((b, HitZone::Content)));
    assert_eq!(m.hit_test(25, 25), Some((b, HitZone::TitleBar)));
    assert_eq!(m.hit_test(20 + 104 - 20, 25), Some((b, HitZone::CloseButton)));
    assert_eq!(m.hit_test(11, 11), Some((a, HitZone::Content)));
    assert_eq!(m.hit_test(20 + 103, 20 + 75), Some((b, HitZone::Content)));
    assert_eq!(m.hit_test(20 + 104, 20 + 75), None);
    m.get_window_mut(b).unwrap().visible = false;
    assert_eq!(m.hit_test(25, 25), Some((a, HitZone::TitleBar)));
    m.focus(a);
    assert_eq!(m.hit_test(25, 25), Some((a, HitZone::TitleBar)));
}

fn ops(w: &Window, focused: bool) -> Vec<DrawCmd> {
    let mut out = Vec::new();
    draw_window(&mut out, w, focused, 640, 480);
    out
}

#[test]
fn window_is_drawn_from_the_frame_inwards() {
    let mut m = WindowManager::new();
    let id = terminal(&mut m, "Log", 30, 40);
    m.get_window_mut(id).unwrap().push_line("hello");
    let d = ops(m.get_window(id).unwrap(), true);
    assert!(matches!(
        d[0],
        DrawCmd::Shade { x: 36, y: 116, w: 104, h: 6, color: 0, alpha: 120 }
    ));
    assert!(matches!(
        d[1],
        DrawCmd::Shade { x: 134, y: 46, w: 6, h: 76, color: 0, alpha: 120 }
    ));
    assert!(matches!(d[2], DrawCmd::Frame { x: 30, y: 40, w: 104, h: 76, color: 0xff9900 }));
    assert!(matches!(d[3], DrawCmd::Frame { x: 31, y: 41, w: 102, h: 74, color: 0xff9900 }));
    assert!(matches!(d[4], DrawCmd::Fill { x: 32, y: 42, w: 100, h: 22, color: 0x1a3a6e }));
    match &d[5] {
        DrawCmd::Text { x, y, text, fg, bg } => {
            assert_eq!((*x, *y, text.as_str(), *fg, *bg), (38, 49, "Log", 0xffffff, 0x1a3a6e));
        }
        _ => panic!("title"),
    }
    assert!(matches!(d[6], DrawCmd::Fill { x: 112, y: 45, w: 16, h: 16, color: 0xcc2244 }));
    assert!(matches!(d[7], DrawCmd::Glyph { x: 116, y: 49, ch: 'x', .. }));
    assert!(matches!(d[8], DrawCmd::Fill { x: 32, y: 64, w: 100, h: 50, color: 0x0d1f30 }));
    match &d[9] {
        DrawCmd::Text { x, y, text, .. } => assert_eq!((*x, *y, text.as_str()), (38, 70, "hello")),
        _ => panic!("line"),
    }
    assert_eq!(d.len(), 10);
}

#[test]
fn windows_off_the_screen_are_not_drawn() {
    let mut m = WindowManager::new();
    let id = terminal(&mut m, "t", -1, 0);
    assert!(ops(m.get_window(id).unwrap(), false).is_empty());
    m.get_window_mut(id).unwrap().x = 600;
    assert!(ops(m.get_window(id).unwrap(), false).is_empty());
    m.get_window_mut(id).unwrap().x = 536;
    assert!(!ops(m.get_window(id).unwrap(), false).is_empty());
}

#[test]
fn interactive_window_has_a_prompt() {
    let mut m = WindowManager::new();
    let id = terminal(&mut m, "t", 0, 0);
    let w = m.get_window_mut(id).unwrap();
    w.interactive = true;
    w.input_buf[0] = b'l';
    w.input_buf[1] = b's';
    w.input_len = 2;
    w.input_cursor = 2;
    let d = ops(m.get_window(id).unwrap(), true);
    let texts: Vec<&str> = d
        .iter()
        .filter_map(|c| match c {
            DrawCmd::Text { text, .. } => Some(text.as_str()),
            _ => None,
        })
        .collect();
    assert_eq!(texts, vec!["t", "folk>", "ls"]);
    assert!(matches!(d[d.len() - 1], DrawCmd::Fill { x: 72, y: 60, w: 8, h: 8, color: 0xFFFFFF }));
}

#[test]
fn compositing_goes_bottom_to_top() {
    let mut m = WindowManager::new();
    let a = terminal(&mut m, "a", 0, 0);
    let b = terminal(&mut m, "b", 200, 0);
    let one = ops(m.get_window(a).unwrap(), false).len();
    let two = ops(m.get_window(b).unwrap(), true).len();
    assert_eq!(m.composite(640, 480).len(), one + two);
    m.get_window_mut(a).unwrap().visible = false;
    assert_eq!(m.composite(640, 480).len(), two);
}

#[test]
fn glyphs_are_clipped() {
    assert_eq!(glyph_index('A'), 65);
    assert_eq!(glyph_index('€'), 0);
    let rows = [0x80u8, 0, 0, 0, 0, 0, 0, 0x01];
    let px = draw_char_small(0, 0, &rows, 1, 2, 640, 480);
    assert_eq!(px.len(), 64);
    assert_eq!(px.iter().filter(|p| p.color == 1).count(), 2);
    let px = draw_char_small(636, 476, &rows, 1, 2, 640, 480);
    assert_eq!(px.len(), 16);
    assert_eq!(draw_str_small(620, 10, 640), vec![620, 628]);
}

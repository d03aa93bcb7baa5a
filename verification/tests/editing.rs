use miv::key_bindings::{InnerBehavior, KeyOutcome};

/// Feeds the bytes of `keys` to the editor one at a time, as the event loop
/// does, and returns the last save request.
fn type_keys(editor: &mut InnerBehavior, keys: &str) -> Option<(String, String)> {
    let mut saved = None;
    for b in keys.bytes() {
        let outcome = press(editor, b);
        if outcome.save.is_some() {
            saved = outcome.save;
        }
    }
    saved
}

fn press(editor: &mut InnerBehavior, byte: u8) -> KeyOutcome {
    assert!(editor.handles_byte(byte), "key {:?} would panic", byte as char);
    editor.handle_byte(byte)
}

fn editor(text: &str) -> InnerBehavior {
    InnerBehavior::new(Some("notes.txt".to_string()), text, (24, 80))
}

/// Leaves Insert mode if needed and saves; returns the saved text.
fn saved_text(e: &mut InnerBehavior) -> String {
    type_keys(e, "\x1Bw").unwrap().1
}

fn info_bar_position(e: &mut InnerBehavior) -> String {
    assert!(e.renders());
    let out = e.render(false);
    let bar = out.split("\x1B[24;1H").nth(1).unwrap();
    let end = bar.find("\x1B[").unwrap();
    bar[..end].trim().to_string()
}

#[test]
fn new_editor_without_file_has_one_empty_line() {
    let mut e = InnerBehavior::new(None, "ignored", (24, 80));
    assert_eq!(type_keys(&mut e, "w"), None);
    assert!(e.renders());
    let out = e.render(true);
    assert!(out.starts_with("\x1B[2J\x1B[H1\u{2503}\n\r"));
}

#[test]
fn save_writes_lines_joined() {
    let mut e = editor("hello\nworld\n");
    assert_eq!(
        type_keys(&mut e, "w"),
        Some(("notes.txt".to_string(), "hello\nworld".to_string()))
    );
}

#[test]
fn insert_typing_and_escape() {
    let mut e = editor("hello");
    type_keys(&mut e, "iab\x1B");
    assert_eq!(saved_text(&mut e), "abhello");
}

#[test]
fn insert_reports_rerender_and_escape_does_not() {
    let mut e = editor("x");
    assert!(!press(&mut e, b'i').rerender);
    assert!(press(&mut e, b'y').rerender);
    assert!(!press(&mut e, 0x1B).rerender);
}

#[test]
fn q_quits_in_normal_mode() {
    let mut e = editor("x");
    let o = press(&mut e, b'q');
    assert!(o.quit);
    assert!(!o.rerender);
    assert_eq!(o.save, None);
}

#[test]
fn q_is_text_in_insert_mode() {
    let mut e = editor("x");
    press(&mut e, b'i');
    let o = press(&mut e, b'q');
    assert!(!o.quit);
    assert!(o.rerender);
    assert_eq!(saved_text(&mut e), "qx");
}

#[test]
fn other_keys_do_not_quit() {
    let mut e = editor("x");
    for b in "jklh0$Ggwi".bytes() {
        assert!(!press(&mut e, b).quit);
    }
}

#[test]
fn handle_char_reads_the_given_keys() {
    let mut e = editor("one\ntwo");
    let o = e.handle_char("j");
    assert!(!o.quit && !o.rerender);
    assert!(info_bar_position(&mut e).ends_with("2:1"));
    assert!(e.handle_char("xq").quit);
}

#[test]
fn motion_keys_move_the_cursor() {
    let mut e = editor("short\nmuch longer line\nxy");
    let bar = info_bar_position(&mut e);
    assert!(bar.starts_with("NORMAL") && bar.ends_with(" 1:1"));
    type_keys(&mut e, "j$");
    assert!(info_bar_position(&mut e).ends_with("2:16"));
    type_keys(&mut e, "j");
    assert!(info_bar_position(&mut e).ends_with("3:3"));
    type_keys(&mut e, "k");
    assert!(info_bar_position(&mut e).ends_with("2:3"));
    type_keys(&mut e, "lll");
    assert!(info_bar_position(&mut e).ends_with("2:6"));
    type_keys(&mut e, "h0");
    assert!(info_bar_position(&mut e).ends_with("2:1"));
    type_keys(&mut e, "G");
    assert!(info_bar_position(&mut e).ends_with("3:1"));
    type_keys(&mut e, "gg");
    assert!(info_bar_position(&mut e).ends_with("1:1"));
}

#[test]
fn a_single_g_does_not_move() {
    let mut e = editor("a\nb\nc");
    type_keys(&mut e, "Gg");
    assert!(info_bar_position(&mut e).ends_with("3:1"));
    type_keys(&mut e, "g");
    assert!(info_bar_position(&mut e).ends_with("1:1"));
}

#[test]
fn moving_up_to_a_shorter_line_clamps_the_column() {
    let mut e = editor("ab\nabcdef");
    type_keys(&mut e, "j$k");
    assert!(info_bar_position(&mut e).ends_with("1:3"));
}

#[test]
fn enter_splits_the_line() {
    let mut e = editor("hello");
    type_keys(&mut e, "lli\r");
    assert!(info_bar_position(&mut e).ends_with("2:1"));
    assert_eq!(saved_text(&mut e), "he\nllo");
}

#[test]
fn enter_at_end_of_line_adds_an_empty_line() {
    let mut e = editor("\nx");
    type_keys(&mut e, "iz\r");
    assert!(info_bar_position(&mut e).ends_with("2:1"));
    assert_eq!(saved_text(&mut e), "z\n\nx");
}

#[test]
fn backspace_undoes_a_typed_character() {
    let mut e = editor("hello");
    type_keys(&mut e, "lli");
    let before = info_bar_position(&mut e);
    // a byte above 0x7f is typed as the Latin-1 character of that value
    press(&mut e, 0xC3);
    press(&mut e, 0x7F);
    assert_eq!(info_bar_position(&mut e), before);
    assert_eq!(saved_text(&mut e), "hello");
}

#[test]
fn backspace_after_enter_joins_the_lines_again() {
    let mut e = editor("hello\nworld");
    type_keys(&mut e, "lll");
    type_keys(&mut e, "i\r\u{7f}");
    assert!(info_bar_position(&mut e).ends_with("1:3"));
    assert_eq!(saved_text(&mut e), "hello\nworld");
}

#[test]
fn backspace_at_start_of_first_line_does_nothing() {
    let mut e = editor("abc");
    type_keys(&mut e, "i\u{7f}");
    assert_eq!(saved_text(&mut e), "abc");
}

#[test]
fn backspace_inside_a_multibyte_character_is_refused() {
    let mut e = editor("éa");
    // the cursor moves by bytes: column 3 is byte 2, inside `é`
    type_keys(&mut e, "lli");
    assert!(!e.handles_byte(0x7F));
}

#[test]
fn keys_on_an_empty_file_are_refused_where_they_read_a_line() {
    let mut e = editor("");
    assert!(!e.handles_byte(b'l'));
    assert!(e.handles_byte(b'j'));
    press(&mut e, b'i');
    assert!(!e.handles_byte(b'x'));
    assert!(!e.handles("ix"));
}

#[test]
fn dollar_on_an_empty_line_puts_the_cursor_at_column_zero() {
    let mut e = editor("\nabc");
    type_keys(&mut e, "$");
    assert!(info_bar_position(&mut e).ends_with("1:0"));
    press(&mut e, b'i');
    assert!(!e.handles_byte(b'x'));
}

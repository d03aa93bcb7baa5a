use miv::display::Renderer;
use miv::terminal::start_tui;
use miv::utils::{Mode, Pos};

fn strings(v: &[&str]) -> Vec<String> {
    v.iter().map(|s| s.to_string()).collect()
}

#[test]
fn start_tui_switches_to_alternate_screen() {
    assert_eq!(start_tui(), "\x1b[?1049h\x1b[2J\x1b[H");
}

#[test]
fn full_render_of_one_line() {
    let mut r = Renderer::new((24, 80));
    let content = strings(&["hello"]);
    let pos = Pos::new(1, 1);
    assert!(r.fits(&content, &pos));
    let out = r.render(&content, &pos, true, &Mode::NORMAL);
    let expected = format!(
        "\x1B[2J\x1B[H1\u{2503}hello\n\r\x1B[24;1H NORMAL{}1:1 \x1B[1;3H",
        " ".repeat(69)
    );
    assert_eq!(out, expected);
}

#[test]
fn partial_render_draws_only_bar_and_cursor() {
    let mut r = Renderer::new((24, 80));
    let content = strings(&["hello"]);
    let _ = r.render(&content, &Pos::new(1, 1), true, &Mode::NORMAL);
    let out = r.render(&content, &Pos::new(1, 4), false, &Mode::INSERT);
    let expected = format!("\x1B[24;1H INSERT{}1:4 \x1B[1;6H", " ".repeat(69));
    assert_eq!(out, expected);
}

#[test]
fn gutter_pads_line_numbers() {
    let mut r = Renderer::new((30, 40));
    let content: Vec<String> = (1..=10).map(|i| format!("l{}", i)).collect();
    let out = r.render(&content, &Pos::new(1, 1), true, &Mode::NORMAL);
    assert!(out.starts_with("\x1B[2J\x1B[H1 \u{2503}l1\n\r2 \u{2503}l2\n\r"));
    assert!(out.contains("10\u{2503}l10\n\r"));
    // the cursor sits after the three-column gutter
    assert!(out.ends_with("\x1B[1;4H"));
}

#[test]
fn cursor_past_the_window_scrolls_right_then_left() {
    let mut r = Renderer::new((10, 20));
    let content = strings(&["abcdefghijklmnopqrstuvwxyz0123"]);
    let out = r.render(&content, &Pos::new(1, 25), false, &Mode::NORMAL);
    let expected = format!(
        "\x1B[2J\x1B[H1\u{2503}hijklmnopqrstuvwxy\n\r\x1B[10;1H NORMAL{}1:25 \x1B[1;20H",
        " ".repeat(8)
    );
    assert_eq!(out, expected);
    let out = r.render(&content, &Pos::new(1, 3), false, &Mode::NORMAL);
    let expected = format!(
        "\x1B[2J\x1B[H1\u{2503}cdefghijklmnopqrst\n\r\x1B[10;1H NORMAL{}1:3 \x1B[1;3H",
        " ".repeat(9)
    );
    assert_eq!(out, expected);
}

#[test]
fn cursor_inside_the_window_does_not_scroll() {
    let mut r = Renderer::new((10, 20));
    let content = strings(&["abcdefghijklmnopqrstuvwxyz0123"]);
    let _ = r.render(&content, &Pos::new(1, 25), false, &Mode::NORMAL);
    let out = r.render(&content, &Pos::new(1, 20), false, &Mode::NORMAL);
    assert!(!out.contains("\x1B[2J"));
    assert!(out.ends_with("\x1B[1;15H"));
}

#[test]
fn too_narrow_terminal_does_not_fit() {
    let r = Renderer::new((24, 8));
    let content = strings(&["hello"]);
    assert!(!r.fits(&content, &Pos::new(1, 1)));
    let r = Renderer::new((24, 1));
    assert!(!r.fits(&content, &Pos::new(1, 1)));
}

#[test]
fn short_line_left_of_a_scrolled_window_shows_nothing() {
    let mut r = Renderer::new((10, 20));
    let content = strings(&["abcdefghijklmnopqrstuvwxyz0123", "ab"]);
    assert!(r.fits(&content, &Pos::new(1, 25)));
    let out = r.render(&content, &Pos::new(1, 25), false, &Mode::NORMAL);
    assert!(out.starts_with("\x1B[2J\x1B[H1\u{2503}hijklmnopqrstuvwxy\n\r2\u{2503}\n\r\x1B[10;1H"));
}

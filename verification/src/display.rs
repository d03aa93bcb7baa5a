//! Drawing the buffer: line-number gutter, horizontal scrolling window,
//! info bar and cursor, as the ANSI escape text to send to the terminal.

use vstd::prelude::*;
use crate::text::{
    byte_len, chars_of, decimal, is_ascii_line, lemma_ascii_utf8_len, push_char, push_decimal, utf8_len,
};
use crate::utils::{mode_text, Mode, Pos};

verus! {

/// The renderer's state: gutter width, the terminal size (rows, columns),
/// and the window of byte columns `[start, end)` of each line that is shown.
pub struct Renderer {
    info_pos_size: usize,
    info_bar_size: usize,
    win_size: (u16, u16),
    display_window: (usize, usize),
}

/// What a `Renderer` holds, as numbers.
pub struct RendererView {
    pub info_pos_size: nat,
    pub info_bar_size: nat,
    pub win_rows: nat,
    pub win_cols: nat,
    pub win_start: nat,
    pub win_end: nat,
}

impl View for Renderer {
    type V = RendererView;

    closed spec fn view(&self) -> RendererView {
        RendererView {
            info_pos_size: self.info_pos_size as nat,
            info_bar_size: self.info_bar_size as nat,
            win_rows: self.win_size.0 as nat,
            win_cols: self.win_size.1 as nat,
            win_start: self.display_window.0 as nat,
            win_end: self.display_window.1 as nat,
        }
    }
}

/// Width of the gutter for a buffer of `n` lines: the digits of `n` and the separator.
pub open spec fn gutter_size(n: nat) -> nat {
    decimal(n).len() + 1
}

/// Columns left for text once the gutter is drawn.
pub open spec fn text_width(r: RendererView, n: nat) -> int {
    r.win_cols - gutter_size(n)
}

/// The 0-based column of the cursor (`col - 1`, and 0 for column 0).
pub open spec fn cursor_index(col: nat) -> nat {
    if col == 0 {
        0
    } else {
        (col - 1) as nat
    }
}

/// The window before scrolling: a window never set yet, `(0, 0)`, becomes `(0, width)`.
pub open spec fn base_window(r: RendererView, n: nat) -> (int, int) {
    if r.win_start == 0 && r.win_end == 0 {
        (0, text_width(r, n))
    } else {
        (r.win_start as int, r.win_end as int)
    }
}

/// The window after the first scrolling rule: a cursor at or past the end
/// moves the window so that the cursor is its last column.
pub open spec fn window_after_right(r: RendererView, n: nat, col: nat) -> (int, int) {
    let w = text_width(r, n);
    let (s, e) = base_window(r, n);
    let c = cursor_index(col);
    if c >= e {
        (c + 1 - w, c + 1int)
    } else {
        (s, e)
    }
}

/// The window shown after rendering with the cursor at column `col`: after the
/// first rule, a cursor left of the start makes it the first column.
pub open spec fn scrolled_window(r: RendererView, n: nat, col: nat) -> (int, int) {
    let w = text_width(r, n);
    let (s, e) = window_after_right(r, n, col);
    let c = cursor_index(col);
    if c < s {
        (c as int, c + w)
    } else {
        (s, e)
    }
}

/// Rendering redraws the whole buffer when asked to or when the window scrolled.
pub open spec fn redraws(r: RendererView, n: nat, col: nat, full: bool) -> bool {
    let c = cursor_index(col);
    full || c >= base_window(r, n).1 || c < window_after_right(r, n, col).0
}

/// The renderer after drawing a buffer of `n` lines with the cursor at column `col`.
pub open spec fn rendered(r: RendererView, n: nat, col: nat) -> RendererView {
    RendererView {
        info_pos_size: gutter_size(n),
        win_start: scrolled_window(r, n, col).0 as nat,
        win_end: scrolled_window(r, n, col).1 as nat,
        ..r
    }
}

/// `k` spaces.
pub open spec fn spaces(k: nat) -> Seq<char> {
    Seq::new(k, |i: int| ' ')
}

/// `d` padded on the right with spaces, or cut, to `w` characters.
pub open spec fn pad_right(d: Seq<char>, w: nat) -> Seq<char> {
    Seq::new(w, |i: int| if i < d.len() { d[i] } else { ' ' })
}

/// The part of a line that the window `[start, end)` shows: `end` is first
/// cut to the line's byte length, then `end - start` characters are taken
/// from character position `start` on. When the cut `end` is before
/// `start`, that count wraps around, as it does in a release build, and every
/// character from position `start` on is taken: none for a line shorter than
/// `start` bytes.
pub open spec fn visible_part(row: Seq<char>, start: nat, end: nat) -> Seq<char> {
    let e = if utf8_len(row) < end {
        utf8_len(row)
    } else {
        end
    };
    let a = if start < row.len() {
        start
    } else {
        row.len()
    };
    let b = if e < start {
        row.len() as int
    } else if a + (e - start) < row.len() {
        a + (e - start)
    } else {
        row.len() as int
    };
    row.subrange(a as int, b)
}

/// One line on screen: its number `number` padded to the gutter, the
/// separator, the visible part of the text, and `"\n\r"`.
pub open spec fn display_row(number: nat, row: Seq<char>, gutter: nat, start: nat, end: nat) -> Seq<
    char,
> {
    pad_right(decimal(number), (gutter - 1) as nat) + seq!['\u{2503}'] + visible_part(row, start, end)
        + seq!['\n', '\r']
}

/// All lines of the buffer on screen.
pub open spec fn display(rows: Seq<Seq<char>>, gutter: nat, start: nat, end: nat) -> Seq<char>
    decreases rows.len(),
{
    if rows.len() == 0 {
        seq![]
    } else {
        display(rows.drop_last(), gutter, start, end) + display_row(
            rows.len(),
            rows.last(),
            gutter,
            start,
            end,
        )
    }
}

/// Number of spaces between the mode label and the position in the info bar.
pub open spec fn info_bar_padding(r: RendererView, pos: Pos) -> int {
    r.win_cols - (7 + decimal(pos.row as nat).len() + 1 + decimal(pos.col as nat).len() + 1)
}

/// The info bar on the last terminal row: the mode on the left, `row:col` on the right.
pub open spec fn info_bar(r: RendererView, mode: Mode, pos: Pos) -> Seq<char> {
    "\x1B["@ + decimal(r.win_rows) + ";1H"@ + " "@ + mode_text(mode) + spaces(
        info_bar_padding(r, pos) as nat,
    ) + decimal(pos.row as nat) + ":"@ + decimal(pos.col as nat) + " "@
}

/// The screen column of the cursor.
pub open spec fn cursor_screen_col(r: RendererView, pos: Pos) -> nat {
    let shifted = if cursor_index(pos.col as nat) < r.win_start {
        0
    } else {
        (cursor_index(pos.col as nat) - r.win_start) as nat
    };
    r.info_pos_size + 1 + shifted
}

/// The escape text that moves the terminal cursor onto the editor cursor.
pub open spec fn cursor_move(r: RendererView, pos: Pos) -> Seq<char> {
    "\x1B["@ + decimal(pos.row as nat) + ";"@ + decimal(cursor_screen_col(r, pos)) + "H"@
}

/// The inputs on which rendering does not overflow or underflow: the terminal
/// is wide enough for the gutter and the info bar, and the window's and the
/// cursor's columns stay within `usize`.
pub open spec fn render_ok(r: RendererView, rows: Seq<Seq<char>>, pos: Pos) -> bool {
    let n = rows.len();
    let w = text_width(r, n);
    let c = cursor_index(pos.col as nat);
    let r2 = rendered(r, n, pos.col as nat);
    &&& gutter_size(n) <= r.win_cols
    &&& c >= base_window(r, n).1 ==> c + 1 >= w
    &&& c < window_after_right(r, n, pos.col as nat).0 ==> c + w <= usize::MAX
    &&& info_bar_padding(r, pos) >= 0
    &&& cursor_screen_col(r2, pos) <= usize::MAX
}

/// What rendering sends to the terminal: the cleared screen and all lines
/// when it redraws, then the info bar, then the cursor position.
pub open spec fn frame(r: RendererView, rows: Seq<Seq<char>>, pos: Pos, full: bool, mode: Mode) -> Seq<
    char,
> {
    let r2 = rendered(r, rows.len(), pos.col as nat);
    (if redraws(r, rows.len(), pos.col as nat, full) {
        "\x1B[2J\x1B[H"@ + display(rows, r2.info_pos_size, r2.win_start, r2.win_end)
    } else {
        Seq::<char>::empty()
    }) + info_bar(r2, mode, pos) + cursor_move(r2, pos)
}


/// The number of decimal digits of `n`.
fn decimal_len(n: usize) -> (r: usize)
    ensures
        r == decimal(n as nat).len(),
        1 <= r <= n / 10 + 1,
    decreases n,
{
    if n >= 10 {
        1 + decimal_len(n / 10)
    } else {
        1
    }
}

impl Renderer {
    /// A renderer for a terminal of `win_size` (rows, columns), with no window set yet.
    pub fn new(win_size: (u16, u16)) -> (r: Self)
        ensures
            r@ == (RendererView {
                info_pos_size: 1,
                info_bar_size: 1,
                win_rows: win_size.0 as nat,
                win_cols: win_size.1 as nat,
                win_start: 0,
                win_end: 0,
            }),
    {
        Renderer { info_pos_size: 1, info_bar_size: 1, win_size: win_size, display_window: (0, 0) }
    }

    /// Appends one line as it appears on screen.
    fn push_row(&self, out: &mut String, number: usize, row: &String)
        requires
            self@.info_pos_size >= 1,
        ensures
            final(out)@ == old(out)@ + display_row(
                number as nat,
                row@,
                self@.info_pos_size,
                self@.win_start,
                self@.win_end,
            ),
    {
        let mut digits = String::new();
        push_decimal(&mut digits, number);
        let d = chars_of(digits.as_str());
        let w = self.info_pos_size - 1;
        let ghost base = out@;
        for i in 0..w
            invariant
                d@ == decimal(number as nat),
                out@ == base + pad_right(d@, i as nat),
        {
            let c = if i < d.len() {
                d[i]
            } else {
                ' '
            };
            push_char(out, c);
            assert(out@ =~= base + pad_right(d@, (i + 1) as nat));
        }
        push_char(out, '\u{2503}');
        let len = byte_len(row.as_str());
        let start = self.display_window.0;
        let end = if len < self.display_window.1 {
            len
        } else {
            self.display_window.1
        };
        let n = row.as_str().unicode_len();
        let a = if start < n {
            start
        } else {
            n
        };
        let b = if end < start {
            n
        } else if a + (end - start) < n {
            a + (end - start)
        } else {
            n
        };
        out.append(row.as_str().substring_char(a, b));
        out.append("\n\r");
        proof {
            reveal_strlit("\n\r");
            assert(out@ =~= base + display_row(
                number as nat,
                row@,
                self@.info_pos_size,
                self@.win_start,
                self@.win_end,
            ));
        }
    }

    /// Every line of `content` as it appears on screen.
    fn get_display(&self, content: &Vec<String>) -> (r: String)
        requires
            self@.info_pos_size >= 1,
        ensures
            r@ == display(content.deep_view(), self@.info_pos_size, self@.win_start, self@.win_end),
    {
        let ghost rows = content.deep_view();
        let mut r = String::new();
        for i in 0..content.len()
            invariant
                rows == content.deep_view(),
                self@.info_pos_size >= 1,
                r@ == display(rows.take(i as int), self@.info_pos_size, self@.win_start, self@.win_end),
        {
            proof {
                assert(rows.take(i + 1).drop_last() =~= rows.take(i as int));
                assert(rows[i as int] == content[i as int]@);
            }
            self.push_row(&mut r, i + 1, &content[i]);
        }
        proof {
            assert(rows.take(content.len() as int) =~= rows);
        }
        r
    }

    /// The escape text that puts the terminal cursor on `current_pos`.
    fn render_cursor(&self, current_pos: &Pos) -> (r: String)
        requires
            cursor_screen_col(self@, *current_pos) <= usize::MAX,
        ensures
            r@ == cursor_move(self@, *current_pos),
    {
        let col = self.info_pos_size + 1 + current_pos.col.saturating_sub(1).saturating_sub(
            self.display_window.0,
        );
        let mut r = String::new();
        r.append("\x1B[");
        push_decimal(&mut r, current_pos.row);
        r.append(";");
        push_decimal(&mut r, col);
        r.append("H");
        proof {
            assert(r@ =~= cursor_move(self@, *current_pos));
        }
        r
    }

    /// The info bar: the mode, padding, and `row:col`, on the last terminal row.
    fn render_info_bar(&self, mode: &Mode, current_pos: &Pos) -> (r: String)
        requires
            info_bar_padding(self@, *current_pos) >= 0,
        ensures
            r@ == info_bar(self@, *mode, *current_pos),
    {
        let used = 7 + decimal_len(current_pos.row) + 1 + decimal_len(current_pos.col) + 1;
        let padding = self.win_size.1 as usize - used;
        let mut r = String::new();
        r.append("\x1B[");
        push_decimal(&mut r, self.win_size.0 as usize);
        r.append(";1H");
        r.append(" ");
        r.append(mode.to_text());
        let ghost before = r@;
        for i in 0..padding
            invariant
                r@ == before + spaces(i as nat),
        {
            push_char(&mut r, ' ');
            assert(r@ =~= before + spaces((i + 1) as nat));
        }
        push_decimal(&mut r, current_pos.row);
        r.append(":");
        push_decimal(&mut r, current_pos.col);
        r.append(" ");
        proof {
            assert(r@ =~= info_bar(self@, *mode, *current_pos));
        }
        r
    }

    /// Draws `content` with the cursor at `current_pos`: updates the gutter
    /// width, scrolls the window so that the cursor column is shown, and
    /// returns the text to send to the terminal.
    pub fn render(
        &mut self,
        content: &Vec<String>,
        current_pos: &Pos,
        full_render: bool,
        mode: &Mode,
    ) -> (out: String)
        requires
            render_ok(old(self)@, content.deep_view(), *current_pos),
        ensures
            final(self)@ == rendered(old(self)@, content@.len(), current_pos.col as nat),
            out@ == frame(old(self)@, content.deep_view(), *current_pos, full_render, *mode),
    {
        let ghost r0 = self@;
        let ghost rows = content.deep_view();
        let mut full_render = full_render;
        self.info_pos_size = decimal_len(content.len()) + 1;
        let width = self.win_size.1 as usize - self.info_pos_size;
        if self.display_window.0 == 0 && self.display_window.1 == 0 {
            self.display_window = (0, width);
        }
        let mut start = self.display_window.0;
        let mut end = self.display_window.1;
        let col = current_pos.col.saturating_sub(1);
        if col >= end {
            start = col + 1 - width;
            end = start + width;
            full_render = true;
            self.display_window = (start, end);
        }
        if col < start {
            start = col;
            end = start + width;
            full_render = true;
            self.display_window = (start, end);
        }
        assert(self@ == rendered(r0, rows.len(), current_pos.col as nat));
        let mut out = String::new();
        if full_render {
            out.append("\x1B[2J\x1B[H");
            let shown = self.get_display(content);
            out.append(shown.as_str());
        }
        let bar = self.render_info_bar(mode, current_pos);
        out.append(bar.as_str());
        let cursor = self.render_cursor(current_pos);
        out.append(cursor.as_str());
        proof {
            assert(out@ =~= frame(r0, rows, *current_pos, full_render, *mode));
        }
        out
    }

    /// Whether `render` can draw `content` with the cursor at `current_pos`
    /// without an overflow or underflow (see `render_ok`).
    pub fn fits(&self, content: &Vec<String>, current_pos: &Pos) -> (r: bool)
        ensures
            r == render_ok(self@, content.deep_view(), *current_pos),
    {
        let ghost rows = content.deep_view();
        let n = content.len();
        assert(rows.len() == n);
        let gutter = decimal_len(n) + 1;
        let cols = self.win_size.1 as usize;
        if gutter > cols {
            return false;
        }
        let w = cols - gutter;
        let (s0, e0) = if self.display_window.0 == 0 && self.display_window.1 == 0 {
            (0, w)
        } else {
            self.display_window
        };
        let c = current_pos.col.saturating_sub(1);
        let mut s1 = s0;
        let mut e1 = e0;
        if c >= e0 {
            if c + 1 < w {
                return false;
            }
            s1 = c + 1 - w;
            e1 = c + 1;
        }
        let mut s2 = s1;
        let mut e2 = e1;
        if c < s1 {
            if c > usize::MAX - w {
                return false;
            }
            s2 = c;
            e2 = c + w;
        }
        assert(s2 == scrolled_window(self@, n as nat, current_pos.col as nat).0);
        assert(e2 == scrolled_window(self@, n as nat, current_pos.col as nat).1);
        let used = 7 + decimal_len(current_pos.row) + 1 + decimal_len(current_pos.col) + 1;
        if used > cols {
            return false;
        }
        let shifted = c.saturating_sub(s2);
        if shifted > usize::MAX - gutter - 1 {
            return false;
        }
        true
    }
}

} // verus!

verus! {

/// After rendering, the cursor's column lies inside the shown window, when
/// the terminal leaves at least one column for text; a window that scrolled
/// is exactly as wide as that text area.
pub proof fn lemma_cursor_in_window(r: RendererView, n: nat, col: nat)
    requires
        text_width(r, n) >= 1,
    ensures
        scrolled_window(r, n, col).0 <= cursor_index(col) < scrolled_window(r, n, col).1,
        cursor_index(col) >= base_window(r, n).1 || cursor_index(col) < window_after_right(
            r,
            n,
            col,
        ).0 ==> scrolled_window(r, n, col).1 - scrolled_window(r, n, col).0 == text_width(r, n),
{
}

/// The info bar fills the terminal's width: the mode label, the padding and
/// `row:col` take exactly `win_cols` characters.
pub proof fn lemma_info_bar_width(r: RendererView, mode: Mode, pos: Pos)
    requires
        info_bar_padding(r, pos) >= 0,
    ensures
        (" "@ + mode_text(mode) + spaces(info_bar_padding(r, pos) as nat) + decimal(pos.row as nat)
            + ":"@ + decimal(pos.col as nat) + " "@).len() == r.win_cols,
{
    reveal_strlit(" ");
    reveal_strlit(":");
    reveal_strlit("NORMAL");
    reveal_strlit("INSERT");
}

} // verus!

verus! {

/// Every frame ends by moving the terminal cursor to screen row `pos.row`,
/// the row that shows line `pos.row`, and to the column just right of the
/// gutter plus the cursor's offset inside the shown window.
pub proof fn lemma_frame_ends_with_cursor(
    r: RendererView,
    rows: Seq<Seq<char>>,
    pos: Pos,
    full: bool,
    mode: Mode,
)
    ensures
        ({
            let f = frame(r, rows, pos, full, mode);
            let start = rendered(r, rows.len(), pos.col as nat).win_start;
            let c = cursor_index(pos.col as nat);
            let shift = if c < start {
                0
            } else {
                c - start
            };
            let t = "\x1B["@ + decimal(pos.row as nat) + ";"@ + decimal(
                (gutter_size(rows.len()) + 1 + shift) as nat,
            ) + "H"@;
            f.len() >= t.len() && f.subrange(f.len() - t.len(), f.len() as int) == t
        }),
{
    let f = frame(r, rows, pos, full, mode);
    let r2 = rendered(r, rows.len(), pos.col as nat);
    let t = cursor_move(r2, pos);
    let head = (if redraws(r, rows.len(), pos.col as nat, full) {
        "\x1B[2J\x1B[H"@ + display(rows, r2.info_pos_size, r2.win_start, r2.win_end)
    } else {
        Seq::<char>::empty()
    }) + info_bar(r2, mode, pos);
    assert(f == head + t);
    assert(f.subrange(f.len() - t.len(), f.len() as int) =~= t);
}

/// Rendering is accepted whenever the gutter and the info bar fit in the
/// terminal's width and the scrolled window and the cursor's screen column
/// stay within `usize`: in particular scrolling left, or right, never makes
/// an otherwise drawable buffer undrawable.
pub proof fn lemma_drawable(r: RendererView, rows: Seq<Seq<char>>, pos: Pos)
    requires
        gutter_size(rows.len()) <= r.win_cols,
        info_bar_padding(r, pos) >= 0,
        0 <= scrolled_window(r, rows.len(), pos.col as nat).0,
        scrolled_window(r, rows.len(), pos.col as nat).1 <= usize::MAX,
        gutter_size(rows.len()) + 1 + cursor_index(pos.col as nat) <= usize::MAX,
    ensures
        render_ok(r, rows, pos),
{
}

} // verus!

verus! {

/// On an ASCII line (one byte per character) the window `[start, end)`
/// shows exactly the characters at positions `start` up to `end`, cut to the
/// line.
pub proof fn lemma_visible_ascii(row: Seq<char>, start: nat, end: nat)
    requires
        is_ascii_line(row),
        start <= end,
    ensures
        visible_part(row, start, end) == row.subrange(
            if start < row.len() {
                start as int
            } else {
                row.len() as int
            },
            if end < row.len() {
                end as int
            } else {
                row.len() as int
            },
        ),
{
    lemma_ascii_utf8_len(row);
}

/// A line on screen starts with its number, left-aligned and padded with
/// spaces to the gutter, then the separator, and ends with `"\n\r"`.
pub proof fn lemma_row_layout(number: nat, row: Seq<char>, gutter: nat, start: nat, end: nat)
    requires
        decimal(number).len() < gutter,
    ensures
        ({
            let d = decimal(number);
            let line = display_row(number, row, gutter, start, end);
            &&& line.take(gutter as int) == d + spaces((gutter - 1 - d.len()) as nat) + seq!['\u{2503}']
            &&& line.len() >= gutter + 2
            &&& line.subrange(line.len() - 2, line.len() as int) == seq!['\n', '\r']
        }),
{
    let d = decimal(number);
    let line = display_row(number, row, gutter, start, end);
    assert(pad_right(d, (gutter - 1) as nat) =~= d + spaces((gutter - 1 - d.len()) as nat));
    assert(line.take(gutter as int) =~= d + spaces((gutter - 1 - d.len()) as nat) + seq!['\u{2503}']);
    assert(line.subrange(line.len() - 2, line.len() as int) =~= seq!['\n', '\r']);
}

/// Scrolling is minimal: a cursor inside the window leaves it where it is
/// (and forces no redraw); a cursor at or past its end makes it the last
/// shown column; a cursor before its start makes it the first shown column.
pub proof fn lemma_scroll_minimal(r: RendererView, n: nat, col: nat, full: bool)
    requires
        text_width(r, n) >= 1,
    ensures
        ({
            let (s0, e0) = base_window(r, n);
            let c = cursor_index(col);
            let w = text_width(r, n);
            &&& s0 <= c < e0 ==> scrolled_window(r, n, col) == (s0, e0) && redraws(r, n, col, full)
                == full
            &&& c >= e0 ==> scrolled_window(r, n, col) == (c + 1 - w, c + 1int) && redraws(
                r,
                n,
                col,
                full,
            )
            &&& c < s0 && c < e0 ==> scrolled_window(r, n, col) == (c as int, c + w) && redraws(
                r,
                n,
                col,
                full,
            )
        }),
{
}

/// A frame redraws the screen (clears it and shows every line) exactly when
/// asked to or when the window scrolled; otherwise it is only the info bar
/// and the cursor move.
pub proof fn lemma_frame_redraw(r: RendererView, rows: Seq<Seq<char>>, pos: Pos, full: bool, mode: Mode)
    ensures
        ({
            let f = frame(r, rows, pos, full, mode);
            let r2 = rendered(r, rows.len(), pos.col as nat);
            let clear = "\x1B[2J\x1B[H"@;
            &&& redraws(r, rows.len(), pos.col as nat, full) ==> f.len() >= clear.len() && f.take(
                clear.len() as int,
            ) == clear
            &&& !redraws(r, rows.len(), pos.col as nat, full) ==> f == info_bar(r2, mode, pos)
                + cursor_move(r2, pos)
        }),
{
    let f = frame(r, rows, pos, full, mode);
    let clear = "\x1B[2J\x1B[H"@;
    if redraws(r, rows.len(), pos.col as nat, full) {
        assert(f.take(clear.len() as int) =~= clear);
    } else {
        assert(f =~= info_bar(rendered(r, rows.len(), pos.col as nat), mode, pos) + cursor_move(
            rendered(r, rows.len(), pos.col as nat),
            pos,
        ));
    }
}

/// The info bar moves to the terminal's last row, shows the mode's label
/// after one space, and ends with `row:col` and a space.
pub proof fn lemma_info_bar_parts(r: RendererView, mode: Mode, pos: Pos)
    ensures
        ({
            let b = info_bar(r, mode, pos);
            let head = "\x1B["@ + decimal(r.win_rows) + ";1H"@ + " "@ + mode_text(mode);
            let tail = decimal(pos.row as nat) + ":"@ + decimal(pos.col as nat) + " "@;
            &&& b.len() >= head.len() + tail.len()
            &&& b.take(head.len() as int) == head
            &&& b.subrange(b.len() - tail.len(), b.len() as int) == tail
        }),
{
    let b = info_bar(r, mode, pos);
    let head = "\x1B["@ + decimal(r.win_rows) + ";1H"@ + " "@ + mode_text(mode);
    let tail = decimal(pos.row as nat) + ":"@ + decimal(pos.col as nat) + " "@;
    let pad = spaces(info_bar_padding(r, pos) as nat);
    assert(b =~= head + pad + tail);
    assert(b.take(head.len() as int) =~= head);
    assert(b.subrange(b.len() - tail.len(), b.len() as int) =~= tail);
}

} // verus!

verus! {

/// The screen shows the buffer from its first line: the drawing of all lines
/// begins with line 1, numbered 1, and adding a line at the end adds its
/// screen line, numbered by its position, at the end.
pub proof fn lemma_display_order(rows: Seq<Seq<char>>, x: Seq<char>, gutter: nat, start: nat, end: nat)
    ensures
        display(rows.push(x), gutter, start, end) == display(rows, gutter, start, end) + display_row(
            rows.len() + 1,
            x,
            gutter,
            start,
            end,
        ),
        rows.len() >= 1 ==> ({
            let first = display_row(1, rows[0], gutter, start, end);
            let d = display(rows, gutter, start, end);
            d.len() >= first.len() && d.take(first.len() as int) == first
        }),
    decreases rows.len(),
{
    assert(rows.push(x).drop_last() =~= rows);
    if rows.len() == 1 {
        assert(rows.drop_last() =~= Seq::<Seq<char>>::empty());
        assert(display(Seq::<Seq<char>>::empty(), gutter, start, end) == Seq::<char>::empty());
        assert(rows.last() == rows[0]);
        assert(display(rows, gutter, start, end) =~= display_row(1, rows[0], gutter, start, end));
    } else if rows.len() > 1 {
        let first = display_row(1, rows[0], gutter, start, end);
        lemma_display_order(rows.drop_last(), rows.last(), gutter, start, end);
        assert(rows.drop_last().push(rows.last()) =~= rows);
        assert(rows.drop_last()[0] == rows[0]);
        let d0 = display(rows.drop_last(), gutter, start, end);
        assert(display(rows, gutter, start, end).take(first.len() as int) =~= d0.take(
            first.len() as int,
        ));
    }
}

} // verus!

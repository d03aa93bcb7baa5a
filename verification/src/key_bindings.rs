//! The editor's state and what each key does to it in Normal and Insert mode.

use vstd::prelude::*;
use crate::display::{frame, render_ok, rendered, Renderer, RendererView};
use crate::text::{
    push_char, byte_len, char_index_at, char_index_of_byte, insert_char, is_boundary, remove_char,
    split_at_char, starts_char, utf8_len,
};
use crate::utils::{join_content, join_lines, lines, read_file, Mode, Pos};

verus! {

/// The editor: its mode, the file it edits, the lines of text, the cursor,
/// the renderer, and every key typed so far (commands such as `gg` read it).
pub struct InnerBehavior {
    mode: Mode,
    content_path: Option<String>,
    content: Vec<String>,
    pos: Pos,
    renderer: Renderer,
    past_chars: String,
}

/// What an `InnerBehavior` holds, as mathematical values.
pub struct EditorView {
    pub mode: Mode,
    pub path: Option<Seq<char>>,
    pub content: Seq<Seq<char>>,
    pub row: nat,
    pub col: nat,
    pub renderer: RendererView,
    pub keys: Seq<char>,
}

/// What handling a key asks of the caller: whether to redraw everything,
/// a file to write (its path and its text), and whether to quit.
pub struct KeyOutcome {
    pub rerender: bool,
    pub save: Option<(String, String)>,
    pub quit: bool,
}

impl View for InnerBehavior {
    type V = EditorView;

    closed spec fn view(&self) -> EditorView {
        EditorView {
            mode: self.mode,
            path: match self.content_path {
                Some(p) => Some(p@),
                None => None,
            },
            content: self.content.deep_view(),
            row: self.pos.row as nat,
            col: self.pos.col as nat,
            renderer: self.renderer@,
            keys: self.past_chars@,
        }
    }
}

/// The key typed last is `c`.
pub open spec fn last_is(keys: Seq<char>, c: char) -> bool {
    keys.len() > 0 && keys.last() == c
}

/// The last two keys typed are `g`, `g`.
pub open spec fn ends_gg(keys: Seq<char>) -> bool {
    keys.len() >= 2 && keys[keys.len() - 1] == 'g' && keys[keys.len() - 2] == 'g'
}

/// The cursor position of `e`.
pub open spec fn cursor_of(e: EditorView) -> Pos {
    Pos { row: e.row as usize, col: e.col as usize }
}

/// Normal mode: the state after the keys `keys` were typed (the last one is the new key).
pub open spec fn normal_step(e: EditorView, keys: Seq<char>) -> EditorView {
    let r = e.row;
    let c = e.col;
    let ls = e.content;
    if last_is(keys, 'k') && r > 1 {
        let above = utf8_len(ls[r - 2]);
        EditorView {
            row: (r - 1) as nat,
            col: if above < utf8_len(ls[r - 1]) {
                above + 1
            } else {
                c
            },
            ..e
        }
    } else if last_is(keys, 'j') && r < ls.len() {
        let below = utf8_len(ls[r as int]);
        EditorView {
            row: r + 1,
            col: if below < utf8_len(ls[r - 1]) {
                below + 1
            } else {
                c
            },
            ..e
        }
    } else if last_is(keys, 'l') && c < utf8_len(ls[r - 1]) {
        EditorView { col: c + 1, ..e }
    } else if last_is(keys, 'h') && c > 1 {
        EditorView { col: (c - 1) as nat, ..e }
    } else if last_is(keys, '0') {
        EditorView { col: 1, ..e }
    } else if ends_gg(keys) {
        EditorView { row: 1, ..e }
    } else if last_is(keys, '$') {
        EditorView { col: utf8_len(ls[r - 1]), ..e }
    } else if last_is(keys, 'G') {
        EditorView { row: ls.len(), ..e }
    } else if last_is(keys, 'i') {
        EditorView { mode: Mode::INSERT, ..e }
    } else {
        e
    }
}

/// Normal mode: the file to write after the keys `keys`: `w` saves the lines
/// joined by `'\n'` to the editor's file, when it has one.
pub open spec fn normal_save(e: EditorView, keys: Seq<char>) -> Option<(Seq<char>, Seq<char>)> {
    if last_is(keys, 'w') && e.path is Some {
        Some((e.path->0, join_lines(e.content)))
    } else {
        None
    }
}

/// Normal mode: the keys on which the handling reads no line outside the buffer.
pub open spec fn normal_ok(e: EditorView, keys: Seq<char>) -> bool {
    let r = e.row;
    let n = e.content.len();
    if last_is(keys, 'k') {
        r > 1 ==> r <= n
    } else if last_is(keys, 'j') {
        r < n ==> r >= 1
    } else if last_is(keys, 'l') || last_is(keys, '$') {
        1 <= r <= n
    } else {
        true
    }
}

/// Insert mode: the state after the keys `keys` were typed (the last one is the new key).
pub open spec fn insert_step(e: EditorView, keys: Seq<char>) -> EditorView {
    let r = e.row;
    let c = e.col;
    let ls = e.content;
    if last_is(keys, '\x1B') {
        EditorView { mode: Mode::NORMAL, ..e }
    } else if last_is(keys, '\x7F') {
        if c > 1 {
            let line = ls[r - 1];
            EditorView {
                content: ls.update(r - 1, line.remove(char_index_at(line, c - 2))),
                col: (c - 1) as nat,
                ..e
            }
        } else if r > 1 {
            EditorView {
                content: ls.update(r - 2, ls[r - 2] + ls[r - 1]).remove(r - 1),
                row: (r - 1) as nat,
                col: utf8_len(ls[r - 2]),
                ..e
            }
        } else {
            e
        }
    } else if last_is(keys, '\r') {
        let line = ls[r - 1];
        if c == utf8_len(line) + 1 {
            EditorView { content: ls.insert(r as int, seq![]), row: r + 1, col: 1, ..e }
        } else {
            let k = char_index_at(line, c - 1);
            EditorView {
                content: ls.update(r - 1, line.take(k)).insert(r as int, line.skip(k)),
                row: r + 1,
                col: 1,
                ..e
            }
        }
    } else {
        let line = ls[r - 1];
        EditorView {
            content: ls.update(r - 1, line.insert(char_index_at(line, c - 1), keys.last())),
            col: c + 1,
            ..e
        }
    }
}

/// Insert mode: the keys on which the handling stays inside the buffer and
/// edits each line at a character boundary.
pub open spec fn insert_ok(e: EditorView, keys: Seq<char>) -> bool {
    let r = e.row;
    let c = e.col;
    let n = e.content.len();
    if last_is(keys, '\x1B') {
        true
    } else if last_is(keys, '\x7F') {
        if c > 1 {
            1 <= r <= n && starts_char(e.content[r - 1], c - 2)
        } else {
            r > 1 ==> r <= n
        }
    } else if last_is(keys, '\r') {
        &&& 1 <= r <= n
        &&& c != utf8_len(e.content[r - 1]) + 1 ==> c >= 1 && is_boundary(e.content[r - 1], c - 1)
    } else {
        &&& keys.len() > 0
        &&& 1 <= r <= n
        &&& c >= 1
        &&& is_boundary(e.content[r - 1], c - 1)
        &&& c < usize::MAX
    }
}

/// The state after the keys `keys` were typed.
pub open spec fn key_step(e: EditorView, keys: Seq<char>) -> EditorView {
    match e.mode {
        Mode::NORMAL => normal_step(e, keys),
        Mode::INSERT => insert_step(e, keys),
    }
}

/// Whether the screen is redrawn in full after the keys `keys`: in Insert
/// mode, every key but Escape.
pub open spec fn key_rerender(e: EditorView, keys: Seq<char>) -> bool {
    e.mode == Mode::INSERT && !last_is(keys, '\x1B')
}

/// The file written after the keys `keys`.
pub open spec fn key_save(e: EditorView, keys: Seq<char>) -> Option<(Seq<char>, Seq<char>)> {
    match e.mode {
        Mode::NORMAL => normal_save(e, keys),
        Mode::INSERT => None,
    }
}

/// The file and text of a save request, as mathematical values.
pub open spec fn save_view(save: Option<(String, String)>) -> Option<(Seq<char>, Seq<char>)> {
    match save {
        Some((p, t)) => Some((p@, t@)),
        None => None,
    }
}

/// Whether the editor quits after the keys `keys`: on `q` in Normal mode
/// (in Insert mode, `q` is text like any other character).
pub open spec fn key_quit(e: EditorView, keys: Seq<char>) -> bool {
    e.mode == Mode::NORMAL && last_is(keys, 'q')
}

/// The state after the byte `byte` is typed: it is added to the key history
/// as the character of the same value, and the history is handled.
pub open spec fn byte_step(e: EditorView, byte: u8) -> EditorView {
    EditorView { keys: e.keys.push(byte as char), ..key_step(e, e.keys.push(byte as char)) }
}

/// The keys that the editor handles without reading outside the buffer.
pub open spec fn key_ok(e: EditorView, keys: Seq<char>) -> bool {
    match e.mode {
        Mode::NORMAL => normal_ok(e, keys),
        Mode::INSERT => insert_ok(e, keys),
    }
}


/// Whether the last character of `s` is `c`.
fn ends_with_char(s: &str, c: char) -> (r: bool)
    ensures
        r == last_is(s@, c),
{
    let n = s.unicode_len();
    n > 0 && s.get_char(n - 1) == c
}

/// Whether `s` ends with `gg`.
fn ends_with_gg(s: &str) -> (r: bool)
    ensures
        r == ends_gg(s@),
{
    let n = s.unicode_len();
    n >= 2 && s.get_char(n - 1) == 'g' && s.get_char(n - 2) == 'g'
}

impl InnerBehavior {
    /// A new editor in Normal mode at line 1, column 1. With a file, the
    /// buffer holds the lines of `file_text` (the file's contents); without,
    /// one empty line and `file_text` is not read.
    pub fn new(content_path: Option<String>, file_text: &str, win_size: (u16, u16)) -> (r: Self)
        ensures
            r@.mode == Mode::NORMAL,
            r@.path == (match content_path {
                Some(p) => Some(p@),
                None => None::<Seq<char>>,
            }),
            r@.content == (match content_path {
                Some(_) => lines(file_text@),
                None => seq![Seq::<char>::empty()],
            }),
            r@.row == 1,
            r@.col == 1,
            r@.keys == Seq::<char>::empty(),
            r@.renderer == (RendererView {
                info_pos_size: 1,
                info_bar_size: 1,
                win_rows: win_size.0 as nat,
                win_cols: win_size.1 as nat,
                win_start: 0,
                win_end: 0,
            }),
    {
        let content = match &content_path {
            Some(_) => read_file(file_text),
            None => {
                let mut v: Vec<String> = Vec::new();
                v.push(String::new());
                assert(v.deep_view() =~= seq![Seq::<char>::empty()]);
                v
            },
        };
        InnerBehavior {
            mode: Mode::NORMAL,
            content_path,
            content,
            pos: Pos::new(1, 1),
            renderer: Renderer::new(win_size),
            past_chars: String::new(),
        }
    }

    /// Handles the keys `last_chars` in Normal mode; the last one is the new key.
    pub fn handle_char_normal(&mut self, last_chars: &str) -> (r: KeyOutcome)
        requires
            old(self)@.mode == Mode::NORMAL,
            normal_ok(old(self)@, last_chars@),
        ensures
            final(self)@ == normal_step(old(self)@, last_chars@),
            !r.rerender,
            r.quit == last_is(last_chars@, 'q'),
            save_view(r.save) == normal_save(old(self)@, last_chars@),
    {
        if ends_with_char(last_chars, 'k') && self.pos.row > 1 {
            let above_len = byte_len(self.content[self.pos.row - 2].as_str());
            if above_len < byte_len(self.content[self.pos.row - 1].as_str()) {
                self.pos.col = above_len + 1;
            }
            self.pos.row = self.pos.row - 1;
        } else if ends_with_char(last_chars, 'j') && self.pos.row < self.content.len() {
            let below_len = byte_len(self.content[self.pos.row].as_str());
            if below_len < byte_len(self.content[self.pos.row - 1].as_str()) {
                self.pos.col = below_len + 1;
            }
            self.pos.row = self.pos.row + 1;
        } else if ends_with_char(last_chars, 'l') && self.pos.col < byte_len(
            self.content[self.pos.row - 1].as_str(),
        ) {
            self.pos.col = self.pos.col + 1;
        } else if ends_with_char(last_chars, 'h') && self.pos.col > 1 {
            self.pos.col = self.pos.col - 1;
        } else if ends_with_char(last_chars, '0') {
            self.pos.col = 1;
        } else if ends_with_gg(last_chars) {
            self.pos.row = 1;
        } else if ends_with_char(last_chars, '$') {
            self.pos.col = byte_len(self.content[self.pos.row - 1].as_str());
        } else if ends_with_char(last_chars, 'G') {
            self.pos.row = self.content.len();
        } else if ends_with_char(last_chars, 'i') {
            self.mode = Mode::INSERT;
        } else if ends_with_char(last_chars, 'w') {
            match &self.content_path {
                Some(path) => {
                    let text = join_content(&self.content);
                    return KeyOutcome {
                        rerender: false,
                        save: Some((path.clone(), text)),
                        quit: false,
                    };
                },
                None => {},
            }
        }
        let quit = ends_with_char(last_chars, 'q');
        KeyOutcome { rerender: false, save: None, quit }
    }

    /// Handles the keys `last_chars` in Insert mode; the last one is the new
    /// key. Returns whether to redraw everything.
    pub fn handle_char_insert(&mut self, last_chars: &str) -> (r: bool)
        requires
            old(self)@.mode == Mode::INSERT,
            insert_ok(old(self)@, last_chars@),
        ensures
            final(self)@ == insert_step(old(self)@, last_chars@),
            r == !last_is(last_chars@, '\x1B'),
    {
        let ghost e = self@;
        if ends_with_char(last_chars, '\x1B') {
            self.mode = Mode::NORMAL;
            false
        } else if ends_with_char(last_chars, '\x7F') {
            if self.pos.col > 1 {
                let i = self.pos.row - 1;
                let line = self.content[i].as_str();
                assert(line@ == e.content[i as int]);
                proof {
                    let l = e.content[i as int];
                    let j = choose|j: int| 0 <= j < l.len() && #[trigger] utf8_len(l.take(j)) == e.col - 2;
                    crate::text::lemma_char_index_unique(l, e.col - 2, j);
                }
                let k = char_index_of_byte(line, self.pos.col - 2).unwrap();
                let edited = remove_char(line, k);
                self.content.set(i, edited);
                assert(self.content.deep_view() =~= e.content.update(
                    i as int,
                    e.content[i as int].remove(k as int),
                ));
                self.pos.col = self.pos.col - 1;
                return true;
            } else if self.pos.row > 1 {
                let current_row = self.content.remove(self.pos.row - 1);
                let prev_len = byte_len(self.content[self.pos.row - 2].as_str());
                let joined = self.content[self.pos.row - 2].clone().concat(current_row.as_str());
                self.content.set(self.pos.row - 2, joined);
                proof {
                    assert(self.content.deep_view() =~= e.content.update(e.row - 2, e.content[e.row - 2] + e.content[e.row - 1]).remove(e.row - 1));
                }
                self.pos.row = self.pos.row - 1;
                self.pos.col = prev_len;
            }
            true
        } else if ends_with_char(last_chars, '\r') {
            let i = self.pos.row - 1;
            let len = byte_len(self.content[i].as_str());
            if self.pos.col >= 1 && self.pos.col - 1 == len {
                self.content.insert(self.pos.row, String::new());
                assert(self.content.deep_view() =~= e.content.insert(e.row as int, seq![]));
                let total = self.content.len();
                assert(self.pos.row < total);
                self.pos.row = self.pos.row + 1;
                self.pos.col = 1;
            } else {
                let line = self.content[i].as_str();
                let k = char_index_of_byte(line, self.pos.col - 1).unwrap();
                let (head, tail) = split_at_char(line, k);
                self.content.set(i, head);
                self.content.insert(self.pos.row, tail);
                assert(self.content.deep_view() =~= e.content.update(
                    i as int,
                    e.content[i as int].take(k as int),
                ).insert(e.row as int, e.content[i as int].skip(k as int)));
                let total = self.content.len();
                assert(self.pos.row < total);
                self.pos.row = self.pos.row + 1;
                self.pos.col = 1;
            }
            true
        } else {
            let n = last_chars.unicode_len();
            let ch = last_chars.get_char(n - 1);
            let i = self.pos.row - 1;
            let line = self.content[i].as_str();
            let k = char_index_of_byte(line, self.pos.col - 1).unwrap();
            let edited = insert_char(line, k, ch);
            self.content.set(i, edited);
            assert(self.content.deep_view() =~= e.content.update(
                i as int,
                e.content[i as int].insert(k as int, ch),
            ));
            self.pos.col = self.pos.col + 1;
            true
        }
    }

    /// Handles the keys typed so far, `last_chars`, whose last character is
    /// the new key. Returns whether to redraw everything, what file to write
    /// and whether to quit. The key history is left as it is.
    pub fn handle_char(&mut self, last_chars: &str) -> (r: KeyOutcome)
        requires
            key_ok(old(self)@, last_chars@),
        ensures
            final(self)@ == key_step(old(self)@, last_chars@),
            r.rerender == key_rerender(old(self)@, last_chars@),
            save_view(r.save) == key_save(old(self)@, last_chars@),
            r.quit == key_quit(old(self)@, last_chars@),
    {
        match self.mode {
            Mode::NORMAL => self.handle_char_normal(last_chars),
            Mode::INSERT => {
                let rerender = self.handle_char_insert(last_chars);
                KeyOutcome { rerender, save: None, quit: false }
            },
        }
    }

    /// Handles one byte read from the keyboard: adds it to the key history as
    /// the character of the same value, then handles the history.
    pub fn handle_byte(&mut self, byte: u8) -> (r: KeyOutcome)
        requires
            key_ok(old(self)@, old(self)@.keys.push(byte as char)),
        ensures
            final(self)@ == byte_step(old(self)@, byte),
            r.rerender == key_rerender(old(self)@, old(self)@.keys.push(byte as char)),
            save_view(r.save) == key_save(old(self)@, old(self)@.keys.push(byte as char)),
            r.quit == (old(self)@.mode == Mode::NORMAL && byte == 0x71u8),
    {
        let ghost e = self@;
        push_char(&mut self.past_chars, byte as char);
        let keys = self.past_chars.clone();
        let ghost e1 = self@;
        assert(e1 == EditorView { keys: e.keys.push(byte as char), ..e });
        assert(key_ok(e1, keys@));
        let r = self.handle_char(keys.as_str());
        proof {
            assert(key_step(e1, keys@) == EditorView { keys: e.keys.push(byte as char), ..key_step(e, keys@) });
            assert((byte as char == 'q') == (byte == 0x71u8));
        }
        r
    }

    /// Whether `handle_byte` can handle `byte` (see `key_ok`).
    pub fn handles_byte(&self, byte: u8) -> (r: bool)
        ensures
            r == key_ok(self@, self@.keys.push(byte as char)),
    {
        let mut keys = self.past_chars.clone();
        push_char(&mut keys, byte as char);
        self.handles(keys.as_str())
    }

    /// Whether `handle_char` can handle `last_chars` (see `key_ok`).
    pub fn handles(&self, last_chars: &str) -> (r: bool)
        ensures
            r == key_ok(self@, last_chars@),
    {
        let row = self.pos.row;
        let col = self.pos.col;
        let n = self.content.len();
        let ghost e = self@;
        assert(e.content.len() == n);
        match self.mode {
            Mode::NORMAL => {
                if ends_with_char(last_chars, 'k') {
                    row <= 1 || row <= n
                } else if ends_with_char(last_chars, 'j') {
                    row >= n || row >= 1
                } else if ends_with_char(last_chars, 'l') || ends_with_char(last_chars, '$') {
                    1 <= row && row <= n
                } else {
                    true
                }
            },
            Mode::INSERT => {
                if ends_with_char(last_chars, '\x1B') {
                    true
                } else if ends_with_char(last_chars, '\x7F') {
                    if col > 1 {
                        if 1 <= row && row <= n {
                            let line = self.content[row - 1].as_str();
                            assert(line@ == e.content[row - 1]);
                            match char_index_of_byte(line, col - 2) {
                                Some(k) => {
                                    let m = line.unicode_len();
                                    proof {
                                        if starts_char(line@, col - 2) {
                                            let j = choose|j: int| 0 <= j < line@.len() && #[trigger] utf8_len(line@.take(j)) == col - 2;
                                            crate::text::lemma_char_index_unique(line@, col - 2, j);
                                        }
                                    }
                                    k < m
                                },
                                None => false,
                            }
                        } else {
                            false
                        }
                    } else {
                        row <= 1 || row <= n
                    }
                } else if ends_with_char(last_chars, '\r') {
                    if 1 <= row && row <= n {
                        let line = self.content[row - 1].as_str();
                        assert(line@ == e.content[row - 1]);
                        let len = byte_len(line);
                        if col >= 1 && col - 1 == len {
                            true
                        } else {
                            col >= 1 && char_index_of_byte(line, col - 1).is_some()
                        }
                    } else {
                        false
                    }
                } else {
                    if last_chars.unicode_len() > 0 && 1 <= row && row <= n && col >= 1 && col < usize::MAX {
                        let line = self.content[row - 1].as_str();
                        assert(line@ == e.content[row - 1]);
                        char_index_of_byte(line, col - 1).is_some()
                    } else {
                        false
                    }
                }
            },
        }
    }

    /// Draws the buffer with the cursor; returns the text for the terminal.
    pub fn render(&mut self, full_render: bool) -> (out: String)
        requires
            render_ok(old(self)@.renderer, old(self)@.content, cursor_of(old(self)@)),
        ensures
            final(self)@ == (EditorView {
                renderer: rendered(old(self)@.renderer, old(self)@.content.len(), old(self)@.col),
                ..old(self)@
            }),
            out@ == frame(
                old(self)@.renderer,
                old(self)@.content,
                cursor_of(old(self)@),
                full_render,
                old(self)@.mode,
            ),
    {
        assert(self.content@.len() == self@.content.len());
        self.renderer.render(&self.content, &self.pos, full_render, &self.mode)
    }

    /// Whether `render` can draw the buffer (see `render_ok`).
    pub fn renders(&self) -> (r: bool)
        ensures
            r == render_ok(self@.renderer, self@.content, cursor_of(self@)),
    {
        self.renderer.fits(&self.content, &self.pos)
    }
}

} // verus!

verus! {

/// In Insert mode, typing a character and then Backspace gives back the
/// text and the cursor as they were.
pub proof fn lemma_backspace_undoes_insert(e: EditorView, keys: Seq<char>, c: char)
    requires
        e.mode == Mode::INSERT,
        c != '\x1B',
        c != '\x7F',
        c != '\r',
        insert_ok(e, keys.push(c)),
    ensures
        insert_ok(insert_step(e, keys.push(c)), keys.push(c).push('\x7F')),
        insert_step(insert_step(e, keys.push(c)), keys.push(c).push('\x7F')) == e,
{
    let typed = keys.push(c);
    let e1 = insert_step(e, typed);
    let r = e.row;
    let line = e.content[r - 1];
    let k = char_index_at(line, e.col - 1);
    assert(last_is(typed, c) && typed.last() == c);
    let line1 = line.insert(k, c);
    assert(0 <= k <= line.len() && utf8_len(line.take(k)) == e.col - 1);
    assert(line1.take(k) =~= line.take(k));
    crate::text::lemma_char_index_unique(line1, e.col - 1, k);
    assert(e1.content[r - 1] == line1);
    assert(starts_char(line1, e1.col - 2));
    assert(line1.remove(k) =~= line);
    assert(e.content.update(r - 1, line1).update(r - 1, line) =~= e.content);
}

/// In Insert mode, Enter and then Backspace give back the text and the row;
/// the cursor ends one byte to the left of where it was.
pub proof fn lemma_backspace_undoes_enter(e: EditorView, keys: Seq<char>)
    requires
        e.mode == Mode::INSERT,
        insert_ok(e, keys.push('\r')),
    ensures
        insert_ok(insert_step(e, keys.push('\r')), keys.push('\r').push('\x7F')),
        insert_step(insert_step(e, keys.push('\r')), keys.push('\r').push('\x7F')) == (EditorView {
            col: (e.col - 1) as nat,
            ..e
        }),
{
    let typed = keys.push('\r');
    let e1 = insert_step(e, typed);
    let r = e.row;
    let ls = e.content;
    let line = ls[r - 1];
    assert(last_is(typed, '\r'));
    if e.col == utf8_len(line) + 1 {
        assert(e1.content[r - 1] == line);
        assert(e1.content[r as int] == Seq::<char>::empty());
        assert(line + Seq::<char>::empty() =~= line);
        assert(ls.insert(r as int, seq![]).update(r - 1, line).remove(r as int) =~= ls);
    } else {
        let k = char_index_at(line, e.col - 1);
        assert(0 <= k <= line.len() && utf8_len(line.take(k)) == e.col - 1);
        assert(e1.content[r - 1] == line.take(k));
        assert(e1.content[r as int] == line.skip(k));
        assert(line.take(k) + line.skip(k) =~= line);
        assert(ls.update(r - 1, line.take(k)).insert(r as int, line.skip(k)).update(r - 1, line).remove(
            r as int,
        ) =~= ls);
    }
}

/// Normal-mode keys never change the text, the file or the mode's text;
/// they move the cursor or switch to Insert mode.
pub proof fn lemma_normal_keeps_text(e: EditorView, keys: Seq<char>)
    ensures
        normal_step(e, keys).content == e.content,
        normal_step(e, keys).path == e.path,
        normal_step(e, keys).renderer == e.renderer,
{
}

/// In Normal mode, a cursor on a line of a non-empty buffer stays on a line.
pub proof fn lemma_normal_row_in_buffer(e: EditorView, keys: Seq<char>)
    requires
        1 <= e.row <= e.content.len(),
    ensures
        1 <= normal_step(e, keys).row <= e.content.len(),
{
}

/// Escape leaves Insert mode and changes nothing else; `i` in Normal mode
/// enters Insert mode and changes nothing else.
pub proof fn lemma_mode_switches(e: EditorView, keys: Seq<char>)
    ensures
        e.mode == Mode::INSERT && last_is(keys, '\x1B') ==> key_step(e, keys) == (EditorView {
            mode: Mode::NORMAL,
            ..e
        }) && !key_rerender(e, keys),
        e.mode == Mode::NORMAL && last_is(keys, 'i') ==> key_step(e, keys) == (EditorView {
            mode: Mode::INSERT,
            ..e
        }),
{
}

} // verus!

verus! {

/// Normal mode, `h`: the cursor moves one column to the left, when it is not
/// in the first column; nothing else changes.
pub proof fn lemma_h_moves_left(e: EditorView, keys: Seq<char>)
    requires
        e.mode == Mode::NORMAL,
        last_is(keys, 'h'),
    ensures
        e.col > 1 ==> key_step(e, keys) == (EditorView { col: (e.col - 1) as nat, ..e }),
        e.col <= 1 ==> key_step(e, keys) == e,
{
}

/// Normal mode, `l`: the cursor moves one column to the right while it is
/// left of the line's last byte; otherwise nothing changes.
pub proof fn lemma_l_moves_right(e: EditorView, keys: Seq<char>)
    requires
        e.mode == Mode::NORMAL,
        last_is(keys, 'l'),
        1 <= e.row <= e.content.len(),
    ensures
        e.col < utf8_len(e.content[e.row - 1]) ==> key_step(e, keys) == (EditorView {
            col: e.col + 1,
            ..e
        }),
        e.col >= utf8_len(e.content[e.row - 1]) ==> key_step(e, keys) == e,
{
}

/// Normal mode: `l` then `h` gives back the column, when `l` moved the cursor
/// from a column of at least 1.
pub proof fn lemma_l_then_h(e: EditorView, keys: Seq<char>)
    requires
        e.mode == Mode::NORMAL,
        1 <= e.row <= e.content.len(),
        1 <= e.col < utf8_len(e.content[e.row - 1]),
    ensures
        key_step(key_step(e, keys.push('l')), keys.push('l').push('h')) == e,
{
    let k1 = keys.push('l');
    let k2 = k1.push('h');
    assert(k1.last() == 'l' && k2.last() == 'h');
    let e1 = key_step(e, k1);
    assert(e1 == EditorView { col: e.col + 1, ..e });
    lemma_h_moves_left(e1, k2);
    assert(EditorView { col: (e1.col - 1) as nat, ..e1 } == e);
}

/// Normal mode, `j`: on a line above the last, the cursor goes one line
/// down; its column becomes one past the end of the line below when that line
/// is shorter than the current one, and stays otherwise.
pub proof fn lemma_j_moves_down(e: EditorView, keys: Seq<char>)
    requires
        e.mode == Mode::NORMAL,
        last_is(keys, 'j'),
        1 <= e.row < e.content.len(),
    ensures
        key_step(e, keys).row == e.row + 1,
        key_step(e, keys).col == (if utf8_len(e.content[e.row as int]) < utf8_len(
            e.content[e.row - 1],
        ) {
            utf8_len(e.content[e.row as int]) + 1
        } else {
            e.col
        }),
        key_step(e, keys).content == e.content,
        key_step(e, keys).mode == Mode::NORMAL,
{
}

/// Normal mode, `k`: below the first line, the cursor goes one line up; its
/// column becomes one past the end of the line above when that line is
/// shorter than the current one, and stays otherwise.
pub proof fn lemma_k_moves_up(e: EditorView, keys: Seq<char>)
    requires
        e.mode == Mode::NORMAL,
        last_is(keys, 'k'),
        1 < e.row <= e.content.len(),
    ensures
        key_step(e, keys).row == e.row - 1,
        key_step(e, keys).col == (if utf8_len(e.content[e.row - 2]) < utf8_len(
            e.content[e.row - 1],
        ) {
            utf8_len(e.content[e.row - 2]) + 1
        } else {
            e.col
        }),
        key_step(e, keys).content == e.content,
        key_step(e, keys).mode == Mode::NORMAL,
{
}

/// Normal mode: `j` on the last line and `k` on the first line do nothing.
pub proof fn lemma_vertical_moves_stop_at_edges(e: EditorView, keys: Seq<char>)
    requires
        e.mode == Mode::NORMAL,
        1 <= e.row <= e.content.len(),
    ensures
        last_is(keys, 'j') && e.row == e.content.len() ==> key_step(e, keys) == e,
        last_is(keys, 'k') && e.row == 1 ==> key_step(e, keys) == e,
{
}

/// Normal mode, `0`, `$`, `gg`, `G`: first column, last byte of the line,
/// first line, last line; only that coordinate changes.
pub proof fn lemma_jumps(e: EditorView, keys: Seq<char>)
    requires
        e.mode == Mode::NORMAL,
    ensures
        last_is(keys, '0') ==> key_step(e, keys) == (EditorView { col: 1, ..e }),
        1 <= e.row <= e.content.len() && last_is(keys, '$') ==> key_step(e, keys) == (
        EditorView { col: utf8_len(e.content[e.row - 1]), ..e }),
        ends_gg(keys) ==> key_step(e, keys) == (EditorView { row: 1, ..e }),
        last_is(keys, 'G') ==> key_step(e, keys) == (EditorView { row: e.content.len(), ..e }),
{
}

/// Normal mode, `w`: the request writes the lines joined by `'\n'` to the
/// editor's file, and moves nothing; with no file there is no request.
/// `q` asks to quit; no other Normal-mode key does, and no Insert-mode key.
pub proof fn lemma_save_and_quit(e: EditorView, keys: Seq<char>)
    ensures
        e.mode == Mode::NORMAL && last_is(keys, 'w') ==> key_step(e, keys) == e && key_save(e, keys)
            == (match e.path {
            Some(p) => Some((p, join_lines(e.content))),
            None => None::<(Seq<char>, Seq<char>)>,
        }),
        !last_is(keys, 'w') ==> key_save(e, keys) is None,
        key_quit(e, keys) <==> e.mode == Mode::NORMAL && keys.len() > 0 && keys.last() == 'q',
        e.mode == Mode::NORMAL && last_is(keys, 'q') ==> key_step(e, keys) == e,
{
}

/// Normal mode never asks for a full redraw.
pub proof fn lemma_normal_never_redraws(e: EditorView, keys: Seq<char>)
    requires
        e.mode == Mode::NORMAL,
    ensures
        !key_rerender(e, keys),
{
}

} // verus!

verus! {

/// Insert mode, any character but Escape, Backspace and Enter: it is inserted
/// into the cursor's line just before the cursor (at character position `k`,
/// the one that starts at byte `col - 1`), the cursor moves one column right,
/// no other line changes, and the screen is redrawn.
pub proof fn lemma_typing_inserts(e: EditorView, keys: Seq<char>, k: int)
    requires
        e.mode == Mode::INSERT,
        keys.len() > 0,
        keys.last() != '\x1B',
        keys.last() != '\x7F',
        keys.last() != '\r',
        1 <= e.row <= e.content.len(),
        0 <= k <= e.content[e.row - 1].len(),
        utf8_len(e.content[e.row - 1].take(k)) == e.col - 1,
    ensures
        key_step(e, keys) == (EditorView {
            content: e.content.update(
                e.row - 1,
                e.content[e.row - 1].take(k).push(keys.last()) + e.content[e.row - 1].skip(k),
            ),
            col: e.col + 1,
            ..e
        }),
        key_rerender(e, keys),
{
    let line = e.content[e.row - 1];
    crate::text::lemma_char_index_unique(line, e.col - 1, k);
    assert(line.insert(k, keys.last()) =~= line.take(k).push(keys.last()) + line.skip(k));
}

/// Insert mode, Backspace with the cursor past column 1: the character that
/// starts at byte `col - 2` (position `k`) is removed from the cursor's line,
/// the cursor moves one column left, no other line changes, and the screen is
/// redrawn.
pub proof fn lemma_backspace_deletes(e: EditorView, keys: Seq<char>, k: int)
    requires
        e.mode == Mode::INSERT,
        last_is(keys, '\x7F'),
        1 <= e.row <= e.content.len(),
        0 <= k < e.content[e.row - 1].len(),
        utf8_len(e.content[e.row - 1].take(k)) == e.col - 2,
    ensures
        key_step(e, keys) == (EditorView {
            content: e.content.update(
                e.row - 1,
                e.content[e.row - 1].take(k) + e.content[e.row - 1].skip(k + 1),
            ),
            col: (e.col - 1) as nat,
            ..e
        }),
        key_rerender(e, keys),
{
    let line = e.content[e.row - 1];
    crate::text::lemma_char_index_unique(line, e.col - 2, k);
    assert(line.remove(k) =~= line.take(k) + line.skip(k + 1));
}

/// Insert mode, Backspace in column 1 (or 0) below the first line: the line
/// is appended to the one above and removed, and the cursor goes to the line
/// above, at the column equal to that line's former byte length.
pub proof fn lemma_backspace_joins(e: EditorView, keys: Seq<char>)
    requires
        e.mode == Mode::INSERT,
        last_is(keys, '\x7F'),
        e.col <= 1,
        1 < e.row <= e.content.len(),
    ensures
        key_step(e, keys) == (EditorView {
            content: e.content.take(e.row - 2) + seq![e.content[e.row - 2] + e.content[e.row - 1]]
                + e.content.skip(e.row as int),
            row: (e.row - 1) as nat,
            col: utf8_len(e.content[e.row - 2]),
            ..e
        }),
        key_rerender(e, keys),
{
    let ls = e.content;
    let r = e.row as int;
    assert(ls.update(r - 2, ls[r - 2] + ls[r - 1]).remove(r - 1) =~= ls.take(r - 2) + seq![
        ls[r - 2] + ls[r - 1],
    ] + ls.skip(r));
}

/// Insert mode, Backspace in column 1 (or 0) of the first line: nothing
/// changes, and the screen is redrawn.
pub proof fn lemma_backspace_at_start(e: EditorView, keys: Seq<char>)
    requires
        e.mode == Mode::INSERT,
        last_is(keys, '\x7F'),
        e.col <= 1,
        e.row <= 1,
    ensures
        key_step(e, keys) == e,
        key_rerender(e, keys),
{
}

/// Insert mode, Enter: the cursor's line is split where the cursor is (before
/// character position `k`, the one that starts at byte `col - 1`; at the end
/// of the line the new line is empty), the second part becomes the next line,
/// the cursor goes to its first column, and the screen is redrawn.
pub proof fn lemma_enter_splits(e: EditorView, keys: Seq<char>, k: int)
    requires
        e.mode == Mode::INSERT,
        last_is(keys, '\r'),
        1 <= e.row <= e.content.len(),
        0 <= k <= e.content[e.row - 1].len(),
        utf8_len(e.content[e.row - 1].take(k)) == e.col - 1,
    ensures
        key_step(e, keys) == (EditorView {
            content: e.content.take(e.row - 1) + seq![
                e.content[e.row - 1].take(k),
                e.content[e.row - 1].skip(k),
            ] + e.content.skip(e.row as int),
            row: e.row + 1,
            col: 1,
            ..e
        }),
        key_rerender(e, keys),
{
    let ls = e.content;
    let r = e.row as int;
    let line = ls[r - 1];
    crate::text::lemma_char_index_unique(line, e.col - 1, k);
    crate::text::lemma_full_take(line);
    if e.col == utf8_len(line) + 1 {
        if k < line.len() {
            crate::text::lemma_take_strictly_increasing(line, k, line.len() as int);
        }
        assert(k == line.len());
        assert(line.take(k) =~= line);
        assert(line.skip(k) =~= Seq::<char>::empty());
        assert(ls.insert(r, seq![]) =~= ls.take(r - 1) + seq![line.take(k), line.skip(k)] + ls.skip(
            r,
        ));
    } else {
        assert(ls.update(r - 1, line.take(k)).insert(r, line.skip(k)) =~= ls.take(r - 1) + seq![
            line.take(k),
            line.skip(k),
        ] + ls.skip(r));
    }
}

/// Insert mode, Escape: back to Normal mode, the text and cursor unchanged,
/// no full redraw.
pub proof fn lemma_escape_leaves_insert(e: EditorView, keys: Seq<char>)
    requires
        e.mode == Mode::INSERT,
        last_is(keys, '\x1B'),
    ensures
        key_step(e, keys) == (EditorView { mode: Mode::NORMAL, ..e }),
        !key_rerender(e, keys),
{
}

/// Insert mode: every key that changes the text asks for a full redraw.
pub proof fn lemma_text_change_redraws(e: EditorView, keys: Seq<char>)
    requires
        e.mode == Mode::INSERT,
    ensures
        key_step(e, keys).content != e.content ==> key_rerender(e, keys),
        key_step(e, keys).row != e.row ==> key_rerender(e, keys),
{
}

/// In Normal mode, every key is handled while the cursor is on a line.
pub proof fn lemma_normal_keys_accepted(e: EditorView, keys: Seq<char>)
    requires
        e.mode == Mode::NORMAL,
        1 <= e.row <= e.content.len(),
    ensures
        key_ok(e, keys),
{
}

/// In Insert mode, with the cursor on a line and at a column whose byte
/// `col - 1` starts a character or ends the line (position `k`): Escape,
/// Enter and (below `usize::MAX`) any character are handled; Backspace is
/// handled in column 1, and past it when byte `col - 2` starts a character
/// (position `j`).
pub proof fn lemma_insert_keys_accepted(e: EditorView, keys: Seq<char>, k: int, j: int)
    requires
        e.mode == Mode::INSERT,
        keys.len() > 0,
        1 <= e.row <= e.content.len(),
        1 <= e.col,
        0 <= k <= e.content[e.row - 1].len(),
        utf8_len(e.content[e.row - 1].take(k)) == e.col - 1,
    ensures
        last_is(keys, '\x1B') ==> key_ok(e, keys),
        last_is(keys, '\r') ==> key_ok(e, keys),
        e.col < usize::MAX ==> key_ok(e, keys) || last_is(keys, '\x7F'),
        last_is(keys, '\x7F') && e.col == 1 ==> key_ok(e, keys),
        last_is(keys, '\x7F') && 0 <= j < e.content[e.row - 1].len() && utf8_len(
            e.content[e.row - 1].take(j),
        ) == e.col - 2 ==> key_ok(e, keys),
{
    let line = e.content[e.row - 1];
    assert(is_boundary(line, e.col - 1));
    if 0 <= j < line.len() && utf8_len(line.take(j)) == e.col - 2 {
        assert(starts_char(line, e.col - 2));
    }
}

} // verus!

verus! {

/// Normal mode: a key that is no command (not `h j k l 0 $ G i` and not the
/// second `g` of `gg`) changes nothing.
pub proof fn lemma_other_normal_keys(e: EditorView, keys: Seq<char>)
    requires
        e.mode == Mode::NORMAL,
        keys.len() > 0,
        keys.last() != 'h' && keys.last() != 'j' && keys.last() != 'k' && keys.last() != 'l',
        keys.last() != '0' && keys.last() != '$' && keys.last() != 'G' && keys.last() != 'i',
        !ends_gg(keys),
    ensures
        key_step(e, keys) == e,
{
}

} // verus!

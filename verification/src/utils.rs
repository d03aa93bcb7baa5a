//! Editor modes, cursor positions, and the text that the editor reads from
//! and writes to a file.

use vstd::prelude::*;
use crate::text::{chars_of, push_char};

verus! {

/// The two modes of the editor.
#[derive(Debug, Clone, Copy, PartialEq, Eq, Structural)]
pub enum Mode {
    NORMAL,
    INSERT,
}

/// The label that the info bar shows for `mode`.
pub open spec fn mode_text(mode: Mode) -> Seq<char> {
    match mode {
        Mode::NORMAL => "NORMAL"@,
        Mode::INSERT => "INSERT"@,
    }
}

impl Mode {
    pub fn to_text(&self) -> (r: &str)
        ensures
            r@ == mode_text(*self),
    {
        match self {
            Mode::NORMAL => "NORMAL",
            Mode::INSERT => "INSERT",
        }
    }
}

/// A cursor position: `row` and `col` count from 1; `col` counts bytes.
#[derive(Debug, Clone, Copy)]
pub struct Pos {
    pub row: usize,
    pub col: usize,
}

impl Pos {
    pub fn new(row: usize, col: usize) -> (r: Self)
        ensures
            r.row == row,
            r.col == col,
    {
        Pos { row: row, col: col }
    }
}

/// The file to edit: the argument after the program name (`args[0]`), when
/// there is one and `path_exists`, the answer to whether a file exists at
/// that path, is `true`. Later arguments are ignored.
pub fn get_content_path(args: &Vec<String>, path_exists: bool) -> (r: Option<String>)
    ensures
        r is Some <==> args.len() > 1 && path_exists,
        r matches Some(p) ==> p@ == args@[1]@,
{
    if args.len() > 1 && path_exists {
        Some(args[1].clone())
    } else {
        None
    }
}

/// Index of the first `'\n'` in `s`, or `s.len()` when there is none.
pub open spec fn first_newline(s: Seq<char>) -> nat
    decreases s.len(),
{
    if s.len() == 0 {
        0
    } else if s[0] == '\n' {
        0
    } else {
        1 + first_newline(s.drop_first())
    }
}

pub proof fn lemma_first_newline(s: Seq<char>)
    ensures
        first_newline(s) <= s.len(),
        first_newline(s) < s.len() ==> s[first_newline(s) as int] == '\n',
        forall|i: int| 0 <= i < first_newline(s) ==> s[i] != '\n',
    decreases s.len(),
{
    if s.len() > 0 && s[0] != '\n' {
        lemma_first_newline(s.drop_first());
        assert forall|i: int| 0 <= i < first_newline(s) implies s[i] != '\n' by {
            if i > 0 {
                assert(s[i] == s.drop_first()[i - 1]);
            }
        }
    }
}

/// `line` without one trailing carriage return.
pub open spec fn strip_cr(line: Seq<char>) -> Seq<char> {
    if line.len() > 0 && line.last() == '\r' {
        line.drop_last()
    } else {
        line
    }
}

/// The lines of `s`, as `str::lines` gives them: split at each `'\n'`, a
/// `'\r'` just before a `'\n'` dropped, and no empty line after a final `'\n'`.
pub open spec fn lines(s: Seq<char>) -> Seq<Seq<char>>
    decreases s.len(),
{
    if s.len() == 0 {
        seq![]
    } else {
        let i = first_newline(s);
        proof {
            lemma_first_newline(s);
        }
        if i == s.len() {
            seq![s]
        } else {
            seq![strip_cr(s.take(i as int))] + lines(s.skip(i + 1 as int))
        }
    }
}

/// The lines of `ls` joined by `'\n'`, as `[String]::join("\n")` builds them.
pub open spec fn join_lines(ls: Seq<Seq<char>>) -> Seq<char>
    decreases ls.len(),
{
    if ls.len() == 0 {
        seq![]
    } else if ls.len() == 1 {
        ls[0]
    } else {
        ls[0] + seq!['\n'] + join_lines(ls.drop_first())
    }
}

} // verus!

verus! {

proof fn lemma_first_newline_prefix(a: Seq<char>, b: Seq<char>)
    requires
        forall|j: int| 0 <= j < a.len() ==> a[j] != '\n',
    ensures
        first_newline(a + b) == a.len() + first_newline(b),
    decreases a.len(),
{
    if a.len() > 0 {
        assert((a + b).drop_first() =~= a.drop_first() + b);
        assert((a + b)[0] == a[0]);
        lemma_first_newline_prefix(a.drop_first(), b);
    } else {
        assert(a + b =~= b);
    }
}

/// The lines of a piece `cur` that holds no `'\n'`, followed by `rest`.
proof fn lemma_lines_after_piece(cur: Seq<char>, rest: Seq<char>)
    requires
        forall|j: int| 0 <= j < cur.len() ==> cur[j] != '\n',
    ensures
        rest.len() == 0 ==> lines(cur + rest) == (if cur.len() == 0 {
            Seq::<Seq<char>>::empty()
        } else {
            seq![cur]
        }),
        rest.len() > 0 && rest[0] == '\n' ==> lines(cur + rest) == seq![strip_cr(cur)] + lines(
            rest.drop_first(),
        ),
{
    let s = cur + rest;
    lemma_first_newline_prefix(cur, rest);
    if rest.len() == 0 {
        assert(s =~= cur);
        assert(first_newline(rest) == 0);
    } else if rest[0] == '\n' {
        assert(first_newline(rest) == 0);
        assert(s.take(cur.len() as int) =~= cur);
        assert(s.skip(cur.len() + 1int) =~= rest.drop_first());
    }
}

fn strip_trailing_cr(line: &str) -> (r: String)
    ensures
        r@ == strip_cr(line@),
{
    let n = line.unicode_len();
    if n > 0 && line.get_char(n - 1) == '\r' {
        String::from_str(line.substring_char(0, n - 1))
    } else {
        String::from_str(line)
    }
}

/// The lines of a file's text, as the editor loads them.
pub fn read_file(text: &str) -> (r: Vec<String>)
    ensures
        r.deep_view() == lines(text@),
{
    let cs = chars_of(text);
    let mut out: Vec<String> = Vec::new();
    let mut cur = String::new();
    proof {
        assert(text@.skip(0) =~= text@);
        assert(cur@ + text@.skip(0) =~= text@);
        assert(out.deep_view() =~= Seq::<Seq<char>>::empty());
        assert(lines(text@) =~= out.deep_view() + lines(cur@ + text@.skip(0)));
    }
    for i in 0..cs.len()
        invariant
            cs@ == text@,
            forall|j: int| 0 <= j < cur@.len() ==> cur@[j] != '\n',
            lines(text@) == out.deep_view() + lines(cur@ + text@.skip(i as int)),
    {
        let c = cs[i];
        let ghost rest = text@.skip(i as int);
        proof {
            assert(rest[0] == c);
            assert(rest.drop_first() =~= text@.skip(i + 1));
        }
        if c == '\n' {
            let line = strip_trailing_cr(cur.as_str());
            let ghost before = out.deep_view();
            let ghost piece = cur@;
            proof {
                lemma_lines_after_piece(cur@, rest);
            }
            out.push(line);
            cur = String::new();
            proof {
                assert(out.deep_view() =~= before.push(strip_cr(piece)));
                assert(cur@ + text@.skip(i + 1) =~= text@.skip(i + 1));
                assert(before + (seq![strip_cr(piece)] + lines(rest.drop_first())) =~= out.deep_view()
                    + lines(cur@ + text@.skip(i + 1)));
            }
        } else {
            let ghost old_cur = cur@;
            push_char(&mut cur, c);
            proof {
                assert(cur@ + text@.skip(i + 1) =~= old_cur + rest);
            }
        }
    }
    let ghost before = out.deep_view();
    proof {
        lemma_lines_after_piece(cur@, text@.skip(cs.len() as int));
    }
    if cur.unicode_len() > 0 {
        let ghost piece = cur@;
        out.push(cur);
        proof {
            assert(out.deep_view() =~= before + seq![piece]);
        }
    } else {
        assert(before + Seq::<Seq<char>>::empty() =~= before);
    }
    out
}

} // verus!

verus! {

proof fn lemma_join_lines_last(ls: Seq<Seq<char>>)
    requires
        ls.len() >= 2,
    ensures
        join_lines(ls) == join_lines(ls.drop_last()) + seq!['\n'] + ls.last(),
    decreases ls.len(),
{
    if ls.len() == 2 {
        assert(ls.drop_first() =~= seq![ls[1]]);
        assert(ls.drop_last() =~= seq![ls[0]]);
        assert(join_lines(ls.drop_first()) == ls[1]);
        assert(join_lines(ls.drop_last()) == ls[0]);
        assert(join_lines(ls) =~= ls[0] + seq!['\n'] + ls[1]);
    } else {
        lemma_join_lines_last(ls.drop_first());
        assert(ls.drop_first().drop_last() =~= ls.drop_last().drop_first());
        assert(ls.drop_last()[0] == ls[0]);
        assert(ls.drop_first().last() == ls.last());
        let x = join_lines(ls.drop_last().drop_first());
        assert(join_lines(ls.drop_last()) == ls[0] + seq!['\n'] + x);
        assert(join_lines(ls) =~= (ls[0] + seq!['\n'] + x) + seq!['\n'] + ls.last());
    }
}

/// The text that saving writes: the lines joined by `'\n'`.
pub fn join_content(content: &Vec<String>) -> (r: String)
    ensures
        r@ == join_lines(content.deep_view()),
{
    let mut r = String::new();
    let n = content.len();
    let ghost ls = content.deep_view();
    for i in 0..n
        invariant
            n == content.len(),
            ls == content.deep_view(),
            r@ == join_lines(ls.take(i as int)),
    {
        proof {
            assert(ls.take(i + 1).drop_last() =~= ls.take(i as int));
            assert(ls.take(i + 1).last() == content[i as int]@);
        }
        if i > 0 {
            r.append("\n");
            proof {
                lemma_join_lines_last(ls.take(i + 1));
                reveal_strlit("\n");
            }
        } else {
            proof {
                assert(ls.take(1) =~= seq![content[0]@]);
            }
        }
        r.append(content[i].as_str());
        proof {
            if i > 0 {
                assert(r@ =~= join_lines(ls.take(i + 1)));
            }
        }
    }
    proof {
        assert(ls.take(n as int) =~= ls);
    }
    r
}

/// Saving then loading gives back the same lines, when no line holds a
/// `'\n'`, no line but the last ends in `'\r'`, and the last line is not empty.
pub proof fn lemma_load_after_save(ls: Seq<Seq<char>>)
    requires
        ls.len() >= 1,
        forall|i: int, j: int| 0 <= i < ls.len() && 0 <= j < ls[i].len() ==> ls[i][j] != '\n',
        forall|i: int| 0 <= i < ls.len() - 1 && ls[i].len() > 0 ==> ls[i].last() != '\r',
        ls.last().len() > 0,
    ensures
        lines(join_lines(ls)) == ls,
    decreases ls.len(),
{
    if ls.len() == 1 {
        lemma_lines_after_piece(ls[0], Seq::<char>::empty());
        assert(ls[0] + Seq::<char>::empty() =~= ls[0]);
        assert(ls =~= seq![ls[0]]);
    } else {
        let rest = ls.drop_first();
        assert forall|i: int, j: int| 0 <= i < rest.len() && 0 <= j < rest[i].len() implies rest[i][j]
            != '\n' by {
            assert(rest[i] == ls[i + 1]);
        }
        assert forall|i: int| 0 <= i < rest.len() - 1 && rest[i].len() > 0 implies rest[i].last()
            != '\r' by {
            assert(rest[i] == ls[i + 1]);
        }
        lemma_load_after_save(rest);
        let tail = seq!['\n'] + join_lines(rest);
        assert(join_lines(ls) =~= ls[0] + tail);
        assert forall|j: int| 0 <= j < ls[0].len() implies ls[0][j] != '\n' by {}
        lemma_lines_after_piece(ls[0], tail);
        assert(tail.drop_first() =~= join_lines(rest));
        assert(strip_cr(ls[0]) == ls[0]);
        assert(ls =~= seq![ls[0]] + rest);
    }
}

} // verus!

verus! {

/// No loaded line holds a `'\n'`.
pub proof fn lemma_lines_have_no_newline(s: Seq<char>)
    ensures
        forall|i: int, j: int|
            0 <= i < lines(s).len() && 0 <= j < lines(s)[i].len() ==> lines(s)[i][j] != '\n',
    decreases s.len(),
{
    if s.len() > 0 {
        let i = first_newline(s);
        lemma_first_newline(s);
        if i < s.len() {
            lemma_lines_have_no_newline(s.skip(i + 1int));
            let rest = lines(s.skip(i + 1int));
            let first = strip_cr(s.take(i as int));
            assert(lines(s) == seq![first] + rest);
            assert forall|a: int, b: int|
                0 <= a < lines(s).len() && 0 <= b < lines(s)[a].len() implies lines(s)[a][b]
                != '\n' by {
                if a == 0 {
                    assert(lines(s)[0] == first);
                    assert(first[b] == s[b]);
                } else {
                    assert(lines(s)[a] == rest[a - 1]);
                }
            }
        }
    }
}

/// Loading then saving gives back the text, when it holds no `'\r'` and does
/// not end with `'\n'`.
pub proof fn lemma_save_after_load(s: Seq<char>)
    requires
        forall|i: int| 0 <= i < s.len() ==> s[i] != '\r',
        s.len() == 0 || s.last() != '\n',
    ensures
        join_lines(lines(s)) == s,
    decreases s.len(),
{
    if s.len() > 0 {
        let i = first_newline(s);
        lemma_first_newline(s);
        if i == s.len() {
            assert(lines(s) == seq![s]);
        } else {
            let rest = s.skip(i + 1int);
            assert(rest.len() > 0);
            assert(rest.last() == s.last());
            assert forall|j: int| 0 <= j < rest.len() implies rest[j] != '\r' by {
                assert(rest[j] == s[i + 1 + j]);
            }
            lemma_save_after_load(rest);
            let head = s.take(i as int);
            assert(head.len() == 0 || head.last() != '\r');
            assert(strip_cr(head) == head);
            let ls = lines(s);
            assert(ls == seq![head] + lines(rest));
            assert(lines(rest).len() > 0) by {
                lemma_first_newline(rest);
            }
            assert(ls.len() >= 2);
            assert(ls.drop_first() =~= lines(rest));
            assert(ls[0] == head);
            assert(join_lines(ls) == head + seq!['\n'] + join_lines(lines(rest)));
            assert(s =~= head + seq!['\n'] + rest);
        }
    }
}

} // verus!

verus! {

/// A line ended by `"\r\n"` is loaded without the `'\r'`; a line ended by
/// `'\n'` alone is loaded as it is.
pub proof fn lemma_line_endings(l: Seq<char>, rest: Seq<char>)
    requires
        forall|j: int| 0 <= j < l.len() ==> l[j] != '\n',
        l.len() == 0 || l.last() != '\r',
    ensures
        lines(l + seq!['\r', '\n'] + rest) == seq![l] + lines(rest),
        lines(l + seq!['\n'] + rest) == seq![l] + lines(rest),
{
    let lcr = l.push('\r');
    assert forall|j: int| 0 <= j < lcr.len() implies lcr[j] != '\n' by {
        if j < l.len() {
            assert(lcr[j] == l[j]);
        }
    }
    let t = seq!['\n'] + rest;
    lemma_lines_after_piece(lcr, t);
    assert(l + seq!['\r', '\n'] + rest =~= lcr + t);
    assert(t.drop_first() =~= rest);
    assert(strip_cr(lcr) =~= l);
    lemma_lines_after_piece(l, t);
    assert(l + seq!['\n'] + rest =~= l + t);
}

/// A final `'\n'` adds no empty line: text that does not already end with a
/// line ending has the same lines with one added.
pub proof fn lemma_final_newline(s: Seq<char>)
    requires
        s.len() > 0,
        s.last() != '\n',
        s.last() != '\r',
    ensures
        lines(s.push('\n')) == lines(s),
    decreases s.len(),
{
    let i = first_newline(s);
    lemma_first_newline(s);
    let t = s.push('\n');
    if i == s.len() {
        assert forall|j: int| 0 <= j < s.len() implies s[j] != '\n' by {}
        lemma_lines_after_piece(s, seq!['\n']);
        assert(t =~= s + seq!['\n']);
        assert(seq!['\n'].drop_first() =~= Seq::<char>::empty());
        assert(lines(Seq::<char>::empty()) =~= Seq::<Seq<char>>::empty());
        assert(s.last() != '\r');
        assert(strip_cr(s) == s);
        assert(lines(s) == seq![s]);
        assert(lines(t) =~= seq![s]);
    } else {
        let head = s.take(i as int);
        let rest = s.skip(i + 1int);
        assert forall|j: int| 0 <= j < head.len() implies head[j] != '\n' by {}
        lemma_lines_after_piece(head, s.skip(i as int));
        lemma_lines_after_piece(head, t.skip(i as int));
        assert(head + s.skip(i as int) =~= s);
        assert(head + t.skip(i as int) =~= t);
        assert(s.skip(i as int).drop_first() =~= rest);
        assert(t.skip(i as int).drop_first() =~= rest.push('\n'));
        assert(rest.len() > 0);
        assert(rest.last() == s.last());
        lemma_final_newline(rest);
    }
}

} // verus!

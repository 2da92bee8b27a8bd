//! The cursor-addressed text buffer behind the embedded line editor: a
//! line-indexed store whose observable value is the joined content plus
//! the cursor, and the session-control outcomes of the editor's key
//! chords.

use vstd::prelude::*;
use crate::text::lemma_find_first;
use crate::text::lemma_split_no_sep;
use crate::text::spec_find;
use crate::text::spec_split;
use crate::text::spec_split_from;
use crate::text::split_char;
use crate::text::str_to_chars;
use crate::text::chars_to_string;

verus! {

/// A direction of cursor movement.
#[derive(PartialEq, Eq, Structural, Debug, Clone, Copy)]
pub enum Direction {
    Up,
    Down,
    Left,
    Right,
}

/// What an editing session does after a modifier-key chord.
#[derive(PartialEq, Eq, Structural, Debug, Clone, Copy)]
pub enum EditorOutcome {
    Continue,
    SaveAndContinue,
    SaveAndExit,
    DiscardAndExit,
}

/// Decides the session outcome of one key: the dedicated control chords
/// save and leave, leave discarding, or save and stay; anything else
/// leaves the session editing.
pub fn editor_key_outcome(ctrl: bool, c: char) -> (r: EditorOutcome)
    ensures
        r == (if ctrl && c == 'x' {
            EditorOutcome::SaveAndExit
        } else if ctrl && c == 'q' {
            EditorOutcome::DiscardAndExit
        } else if ctrl && c == 's' {
            EditorOutcome::SaveAndContinue
        } else {
            EditorOutcome::Continue
        }),
{
    if ctrl && c == 'x' {
        EditorOutcome::SaveAndExit
    } else if ctrl && c == 'q' {
        EditorOutcome::DiscardAndExit
    } else if ctrl && c == 's' {
        EditorOutcome::SaveAndContinue
    } else {
        EditorOutcome::Continue
    }
}

/// The views of a sequence of character rows.
pub open spec fn rows_view(rows: Seq<Vec<char>>) -> Seq<Seq<char>> {
    Seq::new(rows.len(), |i: int| rows[i]@)
}

/// The text that a sequence of lines denotes: the lines joined with
/// line breaks.
pub open spec fn join_lines(ls: Seq<Seq<char>>) -> Seq<char>
    decreases ls.len(),
{
    if ls.len() == 0 {
        Seq::empty()
    } else if ls.len() == 1 {
        ls[0]
    } else {
        ls[0] + seq!['\n'] + join_lines(ls.drop_first())
    }
}

/// Joining after appending a line appends the line after a line break.
pub proof fn lemma_join_push(ls: Seq<Seq<char>>, l: Seq<char>)
    ensures
        join_lines(ls.push(l)) == (if ls.len() == 0 {
            l
        } else {
            join_lines(ls) + seq!['\n'] + l
        }),
    decreases ls.len(),
{
    if ls.len() == 0 {
        assert(ls.push(l)[0] == l);
    } else if ls.len() == 1 {
        assert(ls.push(l)[0] == ls[0]);
        assert(ls.push(l).drop_first() =~= seq![l]);
        assert(join_lines(seq![l]) == l);
    } else {
        lemma_join_push(ls.drop_first(), l);
        assert(ls.push(l).drop_first() =~= ls.drop_first().push(l));
        assert(ls.push(l)[0] == ls[0]);
        assert(join_lines(ls.push(l)) == ls[0] + seq!['\n'] + join_lines(ls.drop_first().push(l)));
        assert(ls[0] + seq!['\n'] + (join_lines(ls.drop_first()) + seq!['\n'] + l) =~= (ls[0]
            + seq!['\n'] + join_lines(ls.drop_first())) + seq!['\n'] + l);
    }
}

/// Joining the split of a text gives the text back.
pub proof fn lemma_join_split(s: Seq<char>, i: int)
    requires
        0 <= i <= s.len(),
    ensures
        join_lines(spec_split_from(s, '\n', i)) == s.skip(i),
    decreases s.len() - i,
{
    lemma_find_first(s, '\n', i);
    let p = spec_find(s, '\n', i);
    if i <= p < s.len() {
        lemma_join_split(s, p + 1);
        let parts = spec_split_from(s, '\n', i);
        let rest = spec_split_from(s, '\n', p + 1);
        assert(parts == seq![s.subrange(i, p)] + rest);
        assert(parts[0] == s.subrange(i, p));
        assert(parts.drop_first() =~= rest);
        assert(rest.len() >= 1);
        assert(join_lines(parts) == s.subrange(i, p) + seq!['\n'] + join_lines(rest));
        assert(s.subrange(i, p) + seq!['\n'] + s.skip(p + 1) =~= s.skip(i));
    } else {
        assert(spec_split_from(s, '\n', i) == seq![s.subrange(i, s.len() as int)]);
        assert(s.subrange(i, s.len() as int) =~= s.skip(i));
    }
}

/// The logical position of column `x` on line `y` inside the joined
/// content: the lengths of the earlier lines, their line breaks, and
/// the column.
pub open spec fn line_offset(ls: Seq<Seq<char>>, y: int, x: int) -> int
    decreases y,
{
    if y <= 0 {
        x
    } else {
        ls[0].len() + 1 + line_offset(ls.drop_first(), y - 1, x)
    }
}

proof fn lemma_insert_in_front(a: Seq<char>, b: Seq<char>, x: int, c: char)
    requires
        0 <= x <= a.len(),
    ensures
        (a + b).insert(x, c) == a.insert(x, c) + b,
{
    assert((a + b).insert(x, c) =~= a.insert(x, c) + b);
}

proof fn lemma_insert_in_back(a: Seq<char>, b: Seq<char>, k: int, c: char)
    requires
        0 <= k <= b.len(),
    ensures
        (a + b).insert(a.len() + k, c) == a + b.insert(k, c),
{
    assert((a + b).insert(a.len() + k, c) =~= a + b.insert(k, c));
}

proof fn lemma_remove_in_front(a: Seq<char>, b: Seq<char>, x: int)
    requires
        0 <= x < a.len(),
    ensures
        (a + b).remove(x) == a.remove(x) + b,
{
    assert((a + b).remove(x) =~= a.remove(x) + b);
}

proof fn lemma_remove_in_back(a: Seq<char>, b: Seq<char>, k: int)
    requires
        0 <= k < b.len(),
    ensures
        (a + b).remove(a.len() + k) == a + b.remove(k),
{
    assert((a + b).remove(a.len() + k) =~= a + b.remove(k));
}

/// Law: inserting a plain character at column `x` of line `y` inserts
/// it at the corresponding logical position of the joined content.
pub proof fn lemma_insert_char_offset(ls: Seq<Seq<char>>, y: int, x: int, c: char)
    requires
        0 <= y < ls.len(),
        0 <= x <= ls[y].len(),
    ensures
        join_lines(ls.update(y, ls[y].insert(x, c))) == join_lines(ls).insert(
            line_offset(ls, y, x),
            c,
        ),
    decreases y,
{
    let ls2 = ls.update(y, ls[y].insert(x, c));
    if y == 0 {
        if ls.len() == 1 {
            assert(ls2 =~= seq![ls[0].insert(x, c)]);
        } else {
            assert(ls2[0] == ls[0].insert(x, c));
            assert(ls2.drop_first() =~= ls.drop_first());
            lemma_insert_in_front(ls[0], seq!['\n'] + join_lines(ls.drop_first()), x, c);
            assert(ls[0] + (seq!['\n'] + join_lines(ls.drop_first())) =~= join_lines(ls));
            assert(ls[0].insert(x, c) + (seq!['\n'] + join_lines(ls.drop_first())) =~= join_lines(
                ls2,
            ));
        }
    } else {
        assert(ls.len() > 1);
        assert(ls2[0] == ls[0]);
        assert(ls2.drop_first() =~= ls.drop_first().update(y - 1, ls[y].insert(x, c)));
        assert(ls.drop_first()[y - 1] == ls[y]);
        lemma_insert_char_offset(ls.drop_first(), y - 1, x, c);
        let off = line_offset(ls.drop_first(), y - 1, x);
        lemma_offset_in_range(ls.drop_first(), y - 1, x);
        lemma_insert_in_back(ls[0] + seq!['\n'], join_lines(ls.drop_first()), off, c);
        assert((ls[0] + seq!['\n']) + join_lines(ls.drop_first()) =~= join_lines(ls));
        assert((ls[0] + seq!['\n']) + join_lines(ls.drop_first()).insert(off, c) =~= join_lines(
            ls2,
        ));
        assert((ls[0] + seq!['\n']).len() + off == line_offset(ls, y, x));
    }
}

/// The logical position of a valid cursor lies inside the content.
pub proof fn lemma_offset_in_range(ls: Seq<Seq<char>>, y: int, x: int)
    requires
        0 <= y < ls.len(),
        0 <= x <= ls[y].len(),
    ensures
        0 <= line_offset(ls, y, x) <= join_lines(ls).len(),
        x < ls[y].len() || y < ls.len() - 1 ==> line_offset(ls, y, x) < join_lines(ls).len(),
    decreases y,
{
    if y == 0 {
        if ls.len() > 1 {
            assert(join_lines(ls).len() == ls[0].len() + 1 + join_lines(ls.drop_first()).len());
        }
    } else {
        assert(ls.drop_first()[y - 1] == ls[y]);
        lemma_offset_in_range(ls.drop_first(), y - 1, x);
        assert(join_lines(ls).len() == ls[0].len() + 1 + join_lines(ls.drop_first()).len());
    }
}

/// Law: inserting a line break at column `x` of line `y` splits that
/// line, which inserts a break character at the corresponding logical
/// position of the joined content.
pub proof fn lemma_insert_break_offset(ls: Seq<Seq<char>>, y: int, x: int)
    requires
        0 <= y < ls.len(),
        0 <= x <= ls[y].len(),
    ensures
        join_lines(ls.update(y, ls[y].take(x)).insert(y + 1, ls[y].skip(x))) == join_lines(
            ls,
        ).insert(line_offset(ls, y, x), '\n'),
    decreases y,
{
    let ls2 = ls.update(y, ls[y].take(x)).insert(y + 1, ls[y].skip(x));
    if y == 0 {
        assert(ls2[0] == ls[0].take(x));
        assert(ls2[1] == ls[0].skip(x));
        if ls.len() == 1 {
            assert(ls2 =~= seq![ls[0].take(x), ls[0].skip(x)]);
            assert(ls2.drop_first() =~= seq![ls[0].skip(x)]);
            assert(join_lines(seq![ls[0].skip(x)]) == ls[0].skip(x));
            assert(join_lines(ls2) == ls[0].take(x) + seq!['\n'] + ls[0].skip(x));
            assert(ls[0].take(x) + seq!['\n'] + ls[0].skip(x) =~= ls[0].insert(x, '\n'));
        } else {
            assert(ls2.drop_first() =~= seq![ls[0].skip(x)] + ls.drop_first());
            assert(ls2.drop_first()[0] == ls[0].skip(x));
            assert(ls2.drop_first().drop_first() =~= ls.drop_first());
            assert(ls2.drop_first().len() == 1 + ls.drop_first().len());
            assert(join_lines(ls2.drop_first()) == ls[0].skip(x) + seq!['\n'] + join_lines(
                ls.drop_first(),
            ));
            assert(join_lines(ls2) == ls[0].take(x) + seq!['\n'] + (ls[0].skip(x) + seq!['\n']
                + join_lines(ls.drop_first())));
            assert(join_lines(ls2) =~= join_lines(ls).insert(x, '\n'));
        }
    } else {
        assert(ls.len() > 1);
        assert(ls2[0] == ls[0]);
        assert(ls2.drop_first() =~= ls.drop_first().update(y - 1, ls[y].take(x)).insert(
            y,
            ls[y].skip(x),
        ));
        assert(ls.drop_first()[y - 1] == ls[y]);
        lemma_insert_break_offset(ls.drop_first(), y - 1, x);
        let off = line_offset(ls.drop_first(), y - 1, x);
        lemma_offset_in_range(ls.drop_first(), y - 1, x);
        lemma_insert_in_back(ls[0] + seq!['\n'], join_lines(ls.drop_first()), off, '\n');
        assert((ls[0] + seq!['\n']) + join_lines(ls.drop_first()) =~= join_lines(ls));
        assert((ls[0] + seq!['\n']) + join_lines(ls.drop_first()).insert(off, '\n') =~= join_lines(
            ls2,
        ));
        assert((ls[0] + seq!['\n']).len() + off == line_offset(ls, y, x));
    }
}

/// Law: deleting the character before column `x` of line `y` removes
/// the character at the corresponding logical position of the joined
/// content.
pub proof fn lemma_delete_char_offset(ls: Seq<Seq<char>>, y: int, x: int)
    requires
        0 <= y < ls.len(),
        0 < x <= ls[y].len(),
    ensures
        join_lines(ls.update(y, ls[y].remove(x - 1))) == join_lines(ls).remove(
            line_offset(ls, y, x - 1),
        ),
    decreases y,
{
    let ls2 = ls.update(y, ls[y].remove(x - 1));
    if y == 0 {
        if ls.len() == 1 {
            assert(ls2 =~= seq![ls[0].remove(x - 1)]);
        } else {
            assert(ls2[0] == ls[0].remove(x - 1));
            assert(ls2.drop_first() =~= ls.drop_first());
            lemma_remove_in_front(ls[0], seq!['\n'] + join_lines(ls.drop_first()), x - 1);
            assert(ls[0] + (seq!['\n'] + join_lines(ls.drop_first())) =~= join_lines(ls));
            assert(ls[0].remove(x - 1) + (seq!['\n'] + join_lines(ls.drop_first())) =~= join_lines(
                ls2,
            ));
        }
    } else {
        assert(ls.len() > 1);
        assert(ls2[0] == ls[0]);
        assert(ls2.drop_first() =~= ls.drop_first().update(y - 1, ls[y].remove(x - 1)));
        assert(ls.drop_first()[y - 1] == ls[y]);
        lemma_delete_char_offset(ls.drop_first(), y - 1, x);
        let off = line_offset(ls.drop_first(), y - 1, x - 1);
        lemma_offset_in_range(ls.drop_first(), y - 1, x - 1);
        lemma_remove_in_back(ls[0] + seq!['\n'], join_lines(ls.drop_first()), off);
        assert((ls[0] + seq!['\n']) + join_lines(ls.drop_first()) =~= join_lines(ls));
        assert((ls[0] + seq!['\n']) + join_lines(ls.drop_first()).remove(off) =~= join_lines(ls2));
        assert((ls[0] + seq!['\n']).len() + off == line_offset(ls, y, x - 1));
    }
}

/// Law: deleting at the start of line `y` removes the line break that
/// joined it to the previous line — the character just before the
/// logical position of the line's start in the joined content.
pub proof fn lemma_delete_merge_offset(ls: Seq<Seq<char>>, y: int)
    requires
        0 < y < ls.len(),
    ensures
        join_lines(ls.update(y - 1, ls[y - 1] + ls[y]).remove(y)) == join_lines(ls).remove(
            line_offset(ls, y - 1, ls[y - 1].len() as int),
        ),
    decreases y,
{
    let ls2 = ls.update(y - 1, ls[y - 1] + ls[y]).remove(y);
    if y == 1 {
        assert(ls2[0] == ls[0] + ls[1]);
        if ls.len() == 2 {
            assert(ls2 =~= seq![ls[0] + ls[1]]);
            assert(ls.drop_first() =~= seq![ls[1]]);
            assert(join_lines(ls) == ls[0] + seq!['\n'] + ls[1]);
            assert((ls[0] + seq!['\n'] + ls[1]).remove(ls[0].len() as int) =~= ls[0] + ls[1]);
        } else {
            assert(ls2.drop_first() =~= ls.drop_first().drop_first());
            assert(ls.drop_first()[0] == ls[1]);
            assert(join_lines(ls.drop_first()) == ls[1] + seq!['\n'] + join_lines(
                ls.drop_first().drop_first(),
            ));
            assert(join_lines(ls2) == (ls[0] + ls[1]) + seq!['\n'] + join_lines(
                ls.drop_first().drop_first(),
            ));
            assert(join_lines(ls) =~= (ls[0] + seq!['\n'] + ls[1]) + seq!['\n'] + join_lines(
                ls.drop_first().drop_first(),
            ));
            assert(join_lines(ls).remove(ls[0].len() as int) =~= join_lines(ls2));
        }
    } else {
        assert(ls.len() > 2);
        assert(ls2[0] == ls[0]);
        assert(ls2.drop_first() =~= ls.drop_first().update(y - 2, ls[y - 1] + ls[y]).remove(
            y - 1,
        ));
        assert(ls.drop_first()[y - 2] == ls[y - 1]);
        assert(ls.drop_first()[y - 1] == ls[y]);
        lemma_delete_merge_offset(ls.drop_first(), y - 1);
        let off = line_offset(ls.drop_first(), y - 2, ls[y - 1].len() as int);
        lemma_offset_in_range(ls.drop_first(), y - 2, ls[y - 1].len() as int);
        lemma_remove_in_back(ls[0] + seq!['\n'], join_lines(ls.drop_first()), off);
        assert((ls[0] + seq!['\n']) + join_lines(ls.drop_first()) =~= join_lines(ls));
        assert((ls[0] + seq!['\n']) + join_lines(ls.drop_first()).remove(off) =~= join_lines(ls2));
        assert((ls[0] + seq!['\n']).len() + off == line_offset(ls, y - 1, ls[y - 1].len() as int));
    }
}

/// The editor's text buffer: the lines of the document and the cursor,
/// with column `cursor_x` on line `cursor_y`. The observable content is
/// the lines joined with line breaks.
pub struct TextBuffer {
    pub lines: Vec<Vec<char>>,
    pub cursor_x: usize,
    pub cursor_y: usize,
}

impl TextBuffer {
    /// The lines as mathematical sequences.
    pub open spec fn lines_model(self) -> Seq<Seq<char>> {
        rows_view(self.lines@)
    }

    /// The buffer's observable text.
    pub open spec fn content(self) -> Seq<char> {
        join_lines(self.lines_model())
    }

    /// The buffer invariant: at least one line, no line break stored
    /// inside a line, the cursor on an existing line at a column no
    /// greater than that line's length.
    pub open spec fn wf(self) -> bool {
        &&& self.lines@.len() >= 1
        &&& forall|i: int, j: int|
            0 <= i < self.lines@.len() && 0 <= j < self.lines@[i]@.len()
                ==> self.lines@[i]@[j] != '\n'
        &&& self.cursor_y < self.lines@.len()
        &&& self.cursor_x <= self.lines@[self.cursor_y as int]@.len()
    }

    /// A fresh buffer holding `text`, with the cursor at the start.
    pub fn from_text(text: &str) -> (r: TextBuffer)
        ensures
            r.wf(),
            r.lines_model() == spec_split(text@, '\n'),
            r.content() == text@,
            r.cursor_x == 0,
            r.cursor_y == 0,
    {
        let parts = split_char(text, '\n');
        let mut lines: Vec<Vec<char>> = Vec::new();
        let mut i: usize = 0;
        while i < parts.len()
            invariant
                0 <= i <= parts@.len(),
                lines@.len() == i,
                forall|j: int| 0 <= j < i ==> lines@[j]@ == parts@[j]@,
            decreases parts@.len() - i,
        {
            lines.push(str_to_chars(parts[i].as_str()));
            i += 1;
        }
        let r = TextBuffer { lines, cursor_x: 0, cursor_y: 0 };
        proof {
            assert(r.lines_model() =~= spec_split(text@, '\n'));
            lemma_split_no_sep(text@, '\n', 0);
            lemma_join_split(text@, 0);
            assert(text@.skip(0) =~= text@);
            assert(spec_split(text@, '\n').len() >= 1);
            assert forall|a: int, b: int|
                0 <= a < r.lines@.len() && 0 <= b < r.lines@[a]@.len() implies r.lines@[a]@[b]
                != '\n' by {
                assert(r.lines@[a]@ == spec_split(text@, '\n')[a]);
            }
        }
        r
    }

    /// The buffer's text as a vector of characters.
    pub fn content_chars(&self) -> (r: Vec<char>)
        requires
            self.wf(),
        ensures
            r@ == self.content(),
    {
        let ghost ls = self.lines_model();
        let mut acc: Vec<char> = Vec::new();
        let first = &self.lines[0];
        let mut j: usize = 0;
        while j < first.len()
            invariant
                0 <= j <= first@.len(),
                acc@ == first@.subrange(0, j as int),
            decreases first@.len() - j,
        {
            acc.push(first[j]);
            j += 1;
        }
        proof {
            assert(acc@ =~= ls[0]);
            assert(ls.take(1) =~= seq![ls[0]]);
            assert(join_lines(ls.take(1)) == ls[0]);
        }
        let mut i: usize = 1;
        while i < self.lines.len()
            invariant
                1 <= i <= self.lines@.len(),
                ls == self.lines_model(),
                ls.len() == self.lines@.len(),
                acc@ == join_lines(ls.take(i as int)),
            decreases self.lines@.len() - i,
        {
            acc.push('\n');
            let row = &self.lines[i];
            let mut k: usize = 0;
            let ghost acc1 = acc@;
            while k < row.len()
                invariant
                    0 <= k <= row@.len(),
                    acc@ == acc1 + row@.subrange(0, k as int),
                decreases row@.len() - k,
            {
                acc.push(row[k]);
                k += 1;
            }
            proof {
                lemma_join_push(ls.take(i as int), ls[i as int]);
                assert(ls.take(i as int).push(ls[i as int]) =~= ls.take(i as int + 1));
                assert(acc@ =~= join_lines(ls.take(i as int)) + seq!['\n'] + ls[i as int]);
            }
            i += 1;
        }
        proof {
            assert(ls.take(ls.len() as int) =~= ls);
        }
        acc
    }

    /// The buffer's text as a string.
    pub fn content_string(&self) -> (r: String)
        requires
            self.wf(),
        ensures
            r@ == self.content(),
    {
        let chars = self.content_chars();
        chars_to_string(&chars)
    }

    /// The cursor as `(column, line)`.
    pub fn cursor(&self) -> (r: (usize, usize))
        ensures
            r.0 == self.cursor_x,
            r.1 == self.cursor_y,
    {
        (self.cursor_x, self.cursor_y)
    }

    /// Inserts a character at the cursor: a line break splits the
    /// current line at the cursor and moves to the start of the new
    /// line; any other character lands at the cursor's column, which
    /// advances by one.
    pub fn insert(&mut self, c: char)
        requires
            old(self).wf(),
        ensures
            final(self).wf(),
            final(self).content() == old(self).content().insert(
                line_offset(
                    old(self).lines_model(),
                    old(self).cursor_y as int,
                    old(self).cursor_x as int,
                ),
                c,
            ),
            ({
                let y = old(self).cursor_y as int;
                let x = old(self).cursor_x as int;
                let l = old(self).lines_model()[y];
                if c == '\n' {
                    &&& final(self).lines_model() == old(self).lines_model().update(
                        y,
                        l.take(x),
                    ).insert(y + 1, l.skip(x))
                    &&& final(self).cursor_x == 0
                    &&& final(self).cursor_y == y + 1
                } else {
                    &&& final(self).lines_model() == old(self).lines_model().update(
                        y,
                        l.insert(x, c),
                    )
                    &&& final(self).cursor_x == x + 1
                    &&& final(self).cursor_y == y
                }
            }),
    {
        let y = self.cursor_y;
        let x = self.cursor_x;
        let n = self.lines.len();
        let ghost ls = old(self).lines_model();
        if c == '\n' {
            let rest = {
                let row = &mut self.lines[y];
                row.split_off(x)
            };
            proof {
                assert(y < n);
            }
            self.lines.insert(y + 1, rest);
            self.cursor_y = y + 1;
            self.cursor_x = 0;
            proof {
                assert(self.lines_model() =~= ls.update(y as int, ls[y as int].take(x as int))
                    .insert(y as int + 1, ls[y as int].skip(x as int)));
                lemma_insert_break_offset(ls, y as int, x as int);
            }
        } else {
            let row = &mut self.lines[y];
            row.insert(x, c);
            let rl = row.len();
            proof {
                assert(x < rl);
            }
            self.cursor_x = x + 1;
            proof {
                assert(self.lines_model() =~= ls.update(
                    y as int,
                    ls[y as int].insert(x as int, c),
                ));
                lemma_insert_char_offset(ls, y as int, x as int, c);
            }
        }
    }

    /// Deletes before the cursor: inside a line the previous character
    /// goes; at the start of a line the break joining it to the
    /// previous line goes, merging the two; at the start of the
    /// document nothing happens.
    pub fn delete_before_cursor(&mut self)
        requires
            old(self).wf(),
        ensures
            final(self).wf(),
            old(self).cursor_x > 0 ==> final(self).content() == old(self).content().remove(
                line_offset(
                    old(self).lines_model(),
                    old(self).cursor_y as int,
                    old(self).cursor_x - 1,
                ),
            ),
            old(self).cursor_x == 0 && old(self).cursor_y > 0 ==> final(self).content() == old(
                self,
            ).content().remove(
                line_offset(
                    old(self).lines_model(),
                    old(self).cursor_y - 1,
                    old(self).lines_model()[old(self).cursor_y - 1].len() as int,
                ),
            ),
            ({
                let y = old(self).cursor_y as int;
                let x = old(self).cursor_x as int;
                let ls = old(self).lines_model();
                if x > 0 {
                    &&& final(self).lines_model() == ls.update(y, ls[y].remove(x - 1))
                    &&& final(self).cursor_x == x - 1
                    &&& final(self).cursor_y == y
                } else if y > 0 {
                    &&& final(self).lines_model() == ls.update(y - 1, ls[y - 1] + ls[y]).remove(y)
                    &&& final(self).cursor_x == ls[y - 1].len()
                    &&& final(self).cursor_y == y - 1
                } else {
                    *final(self) == *old(self)
                }
            }),
    {
        let y = self.cursor_y;
        let x = self.cursor_x;
        let ghost ls = old(self).lines_model();
        if x > 0 {
            let row = &mut self.lines[y];
            row.remove(x - 1);
            self.cursor_x = x - 1;
            proof {
                assert(self.lines_model() =~= ls.update(
                    y as int,
                    ls[y as int].remove(x as int - 1),
                ));
                lemma_delete_char_offset(ls, y as int, x as int);
            }
        } else if y > 0 {
            let mut row = self.lines.remove(y);
            let prev = &mut self.lines[y - 1];
            let px = prev.len();
            prev.append(&mut row);
            self.cursor_x = px;
            self.cursor_y = y - 1;
            proof {
                assert(self.lines_model() =~= ls.update(
                    y as int - 1,
                    ls[y as int - 1] + ls[y as int],
                ).remove(y as int));
                lemma_delete_merge_offset(ls, y as int);
            }
        }
    }

    /// Moves the cursor one step: vertical moves clamp the column to
    /// the new line's length, re-deriving the clamp from the current
    /// column each time; horizontal moves wrap across line ends; moves
    /// past the document's edges do nothing.
    pub fn move_cursor(&mut self, dir: Direction)
        requires
            old(self).wf(),
        ensures
            final(self).wf(),
            final(self).lines == old(self).lines,
            ({
                let y = old(self).cursor_y as int;
                let x = old(self).cursor_x as int;
                let ls = old(self).lines_model();
                match dir {
                    Direction::Up => if y > 0 {
                        final(self).cursor_y == y - 1 && final(self).cursor_x as int == (if x <= ls[y - 1].len() {
                            x
                        } else {
                            ls[y - 1].len() as int
                        })
                    } else {
                        *final(self) == *old(self)
                    },
                    Direction::Down => if y + 1 < ls.len() {
                        final(self).cursor_y == y + 1 && final(self).cursor_x as int == (if x <= ls[y + 1].len() {
                            x
                        } else {
                            ls[y + 1].len() as int
                        })
                    } else {
                        *final(self) == *old(self)
                    },
                    Direction::Left => if x > 0 {
                        final(self).cursor_x == x - 1 && final(self).cursor_y == y
                    } else if y > 0 {
                        final(self).cursor_x == ls[y - 1].len() && final(self).cursor_y == y - 1
                    } else {
                        *final(self) == *old(self)
                    },
                    Direction::Right => if x < ls[y].len() {
                        final(self).cursor_x == x + 1 && final(self).cursor_y == y
                    } else if y + 1 < ls.len() {
                        final(self).cursor_x == 0 && final(self).cursor_y == y + 1
                    } else {
                        *final(self) == *old(self)
                    },
                }
            }),
    {
        match dir {
            Direction::Up => {
                if self.cursor_y > 0 {
                    self.cursor_y = self.cursor_y - 1;
                    let l = self.lines[self.cursor_y].len();
                    if self.cursor_x > l {
                        self.cursor_x = l;
                    }
                }
            },
            Direction::Down => {
                let n = self.lines.len();
                if self.cursor_y + 1 < n {
                    self.cursor_y = self.cursor_y + 1;
                    let l = self.lines[self.cursor_y].len();
                    if self.cursor_x > l {
                        self.cursor_x = l;
                    }
                }
            },
            Direction::Left => {
                if self.cursor_x > 0 {
                    self.cursor_x = self.cursor_x - 1;
                } else if self.cursor_y > 0 {
                    self.cursor_y = self.cursor_y - 1;
                    self.cursor_x = self.lines[self.cursor_y].len();
                }
            },
            Direction::Right => {
                if self.cursor_x < self.lines[self.cursor_y].len() {
                    self.cursor_x = self.cursor_x + 1;
                } else {
                    let n = self.lines.len();
                    if self.cursor_y + 1 < n {
                        self.cursor_y = self.cursor_y + 1;
                        self.cursor_x = 0;
                    }
                }
            },
        }
    }
}

} // verus!

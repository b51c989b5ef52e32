//! A cursor over the source characters that tracks the position and can
//! re-deliver the last character once.
use vstd::prelude::*;
use crate::token::{loc_view, Loc};

verus! {

/// The position after consuming the characters `t[0..=i]`: the line counts
/// newlines from 1, the column counts characters since the last newline.
pub open spec fn loc_after(t: Seq<char>, i: int) -> (int, int)
    decreases i + 1,
{
    if i < 0 || i >= t.len() {
        (1, 0)
    } else {
        let prev = loc_after(t, i - 1);
        if t[i] == '\n' {
            (prev.0 + 1, 0)
        } else {
            (prev.0, prev.1 + 1)
        }
    }
}

pub proof fn lemma_loc_after_bounds(t: Seq<char>, i: int)
    requires
        -1 <= i < t.len(),
    ensures
        1 <= loc_after(t, i).0 <= i + 2,
        0 <= loc_after(t, i).1 <= i + 1,
    decreases i + 1,
{
    if i >= 0 {
        lemma_loc_after_bounds(t, i - 1);
    }
}

pub struct Cursor {
    chars: Vec<char>,
    pos: usize,
    replay: bool,
    loc: Loc,
}

impl Cursor {
    pub closed spec fn text(&self) -> Seq<char> {
        self.chars@
    }

    /// Index of the character that the next `advance` delivers.
    pub closed spec fn next_index(&self) -> int {
        if self.replay {
            self.pos - 1
        } else {
            self.pos as int
        }
    }

    pub closed spec fn replaying(&self) -> bool {
        self.replay
    }

    pub closed spec fn position(&self) -> Loc {
        self.loc
    }

    pub closed spec fn wf(&self) -> bool {
        &&& self.pos <= self.chars.len()
        &&& self.chars.len() < usize::MAX
        &&& (self.replay ==> self.pos >= 1)
        &&& (self.loc.line as int, self.loc.col as int) == loc_after(self.chars@, self.pos - 1)
    }

    pub proof fn lemma_wf(&self)
        requires
            self.wf(),
        ensures
            self.text().len() < usize::MAX,
            0 <= self.next_index() <= self.text().len(),
            self.replaying() ==> self.next_index() < self.text().len(),
            loc_view(self.position()) == loc_after(
                self.text(),
                if self.replaying() {
                    self.next_index()
                } else {
                    self.next_index() - 1
                },
            ),
    {
    }

    pub fn new(chars: Vec<char>) -> (c: Cursor)
        requires
            chars@.len() < usize::MAX,
        ensures
            c.wf(),
            c.text() == chars@,
            c.next_index() == 0,
            !c.replaying(),
            c.position() == (Loc { line: 1, col: 0 }),
    {
        Cursor { chars, pos: 0, replay: false, loc: Loc { line: 1, col: 0 } }
    }

    /// The position of the last character delivered.
    pub fn loc(&self) -> (l: Loc)
        ensures
            l == self.position(),
    {
        self.loc
    }

    /// Delivers the next character, or `None` at the end of the input.
    pub fn advance(&mut self) -> (c: Option<char>)
        requires
            old(self).wf(),
        ensures
            final(self).wf(),
            final(self).text() == old(self).text(),
            old(self).next_index() < old(self).text().len() ==> {
                &&& c == Some(old(self).text()[old(self).next_index()])
                &&& final(self).next_index() == old(self).next_index() + 1
                &&& !final(self).replaying()
                &&& loc_view(final(self).position()) == loc_after(
                    old(self).text(),
                    old(self).next_index(),
                )
                &&& old(self).replaying() ==> final(self).position() == old(self).position()
                &&& !old(self).replaying() && c != Some('\n') ==> final(self).position() == (Loc {
                    line: old(self).position().line,
                    col: (old(self).position().col + 1) as usize,
                })
                &&& !old(self).replaying() && c == Some('\n') ==> final(self).position() == (Loc {
                    line: (old(self).position().line + 1) as usize,
                    col: 0,
                })
            },
            old(self).next_index() >= old(self).text().len() ==> {
                &&& c is None
                &&& *final(self) == *old(self)
                &&& !final(self).replaying()
                &&& loc_view(final(self).position()) == loc_after(
                    old(self).text(),
                    old(self).text().len() - 1,
                )
            },
            0 <= old(self).next_index() <= old(self).text().len(),
    {
        if self.replay {
            self.replay = false;
            return Some(self.chars[self.pos - 1]);
        }
        if self.pos >= self.chars.len() {
            return None;
        }
        let c = self.chars[self.pos];
        proof {
            lemma_loc_after_bounds(self.chars@, self.pos - 1);
        }
        if c == '\n' {
            self.loc = Loc { line: self.loc.line + 1, col: 0 };
        } else {
            self.loc = Loc { line: self.loc.line, col: self.loc.col + 1 };
        }
        self.pos = self.pos + 1;
        Some(c)
    }

    /// Makes the next `advance` deliver the character just delivered again.
    pub fn unread(&mut self)
        requires
            old(self).wf(),
            !old(self).replaying(),
            old(self).next_index() >= 1,
        ensures
            final(self).wf(),
            final(self).text() == old(self).text(),
            final(self).next_index() == old(self).next_index() - 1,
            final(self).replaying(),
            final(self).position() == old(self).position(),
    {
        self.replay = true;
    }
}

} // verus!

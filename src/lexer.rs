//! The tokenizer: turns characters into tokens, literals and indentation
//! markers, one item per call.
use vstd::prelude::*;
use crate::cursor::{loc_after, Cursor};
use crate::indent::{
    dedent_lands, dedent_level, dedent_target, get_indent_level, is_blank, leading_spaces, lemma_dedent_target_shape,
    lemma_sum_prefix, levels_positive, line_start, offside, seq_sum,
};
use crate::literal::{classify, classify_word, result_view};
use crate::token::{
    item_loc, item_view, kind_view, loc_view, text_of, LexItem, Lexeme, LexerError, LexerErrorType,
    Loc, Token, TokenType,
};

verus! {

/// A character that ends a word; it is read again as the start of what
/// follows.
pub open spec fn is_boundary(c: char) -> bool {
    c == ' ' || c == '\n' || c == '\r' || c == ')'
}

pub open spec fn skip_blanks(t: Seq<char>, i: int) -> int
    decreases t.len() - i,
{
    if 0 <= i < t.len() && is_blank(t[i]) {
        skip_blanks(t, i + 1)
    } else {
        i
    }
}

/// The index of the first boundary at or after `i`, or the end.
pub open spec fn word_end(t: Seq<char>, i: int) -> int
    decreases t.len() - i,
{
    if 0 <= i < t.len() && !is_boundary(t[i]) {
        word_end(t, i + 1)
    } else {
        i
    }
}

/// The index of the first `"` at or after `i`, or the end.
pub open spec fn quote_end(t: Seq<char>, i: int) -> int
    decreases t.len() - i,
{
    if 0 <= i < t.len() && t[i] != '"' {
        quote_end(t, i + 1)
    } else {
        i
    }
}

/// One call of the tokenizer: what it yields (`None` once the input is
/// exhausted), at which position, where reading resumes, and the new stack.
pub struct Step {
    pub lexeme: Option<Lexeme>,
    pub loc: (int, int),
    pub next: int,
    pub stack: Seq<usize>,
}

/// At the end of the input the open levels are closed by one dedent; after
/// that the stream ends.
pub open spec fn end_step(t: Seq<char>, st: Seq<usize>) -> Step {
    if st.len() > 0 {
        Step {
            lexeme: Some(Lexeme::Dedent(st.len())),
            loc: loc_after(t, t.len() - 1),
            next: t.len() as int,
            stack: Seq::empty(),
        }
    } else {
        Step { lexeme: None, loc: loc_after(t, t.len() - 1), next: t.len() as int, stack: st }
    }
}

/// The tokenizer reading from index `n` with the stack `st`. Blanks
/// (space, tab, carriage return) are skipped. A newline yields the offside
/// marker of the next line (or its layout error), a parenthesis a delimiter,
/// a `"` the text up to the next `"` (an error if the input ends first), and
/// anything else the classified word running up to a boundary. A token
/// carries the position of its first character.
pub open spec fn lex_step(t: Seq<char>, n: int, st: Seq<usize>) -> Step {
    let s = skip_blanks(t, n);
    if s >= t.len() {
        end_step(t, st)
    } else {
        let c = t[s];
        let at = loc_after(t, s);
        if c == '\n' {
            let o = offside(t, s + 1, st);
            Step { lexeme: Some(o.lexeme), loc: at, next: o.next, stack: o.stack }
        } else if c == '(' {
            Step { lexeme: Some(Lexeme::OpenParen), loc: at, next: s + 1, stack: st }
        } else if c == ')' {
            Step { lexeme: Some(Lexeme::CloseParen), loc: at, next: s + 1, stack: st }
        } else if c == '"' {
            let e = quote_end(t, s + 1);
            if e < t.len() {
                Step {
                    lexeme: Some(Lexeme::StringLiteral(t.subrange(s + 1, e))),
                    loc: at,
                    next: e + 1,
                    stack: st,
                }
            } else {
                Step {
                    lexeme: Some(Lexeme::Unterminated(t.subrange(s + 1, t.len() as int))),
                    loc: at,
                    next: t.len() as int,
                    stack: st,
                }
            }
        } else {
            let e = word_end(t, s + 1);
            Step { lexeme: Some(classify(t.subrange(s, e))), loc: at, next: e, stack: st }
        }
    }
}

/// The reading position and stack after the first `k` items of the
/// tokenizer's stream of `t`, which starts at index 0 with no level open.
pub open spec fn run(t: Seq<char>, k: nat) -> (int, Seq<usize>)
    decreases k,
{
    if k == 0 {
        (0, Seq::empty())
    } else {
        let (n, st) = run(t, (k - 1) as nat);
        let s = lex_step(t, n, st);
        (s.next, s.stack)
    }
}

/// The step that yields item `k` of the tokenizer's stream of `t` (or ends
/// the stream there).
pub open spec fn step_at(t: Seq<char>, k: nat) -> Step {
    lex_step(t, run(t, k).0, run(t, k).1)
}

/// `h` is the start of the tokenizer's stream of `t`.
pub open spec fn is_stream_prefix(t: Seq<char>, h: Seq<LexItem>) -> bool {
    forall|i: int| 0 <= i < h.len() ==> yields(step_at(t, i as nat), Some(#[trigger] h[i]))
}

/// An identifier's or an operator's text is non-empty and holds no
/// boundary character.
pub open spec fn word_is_clean(m: Lexeme) -> bool {
    match m {
        Lexeme::Identifier(w) => w.len() > 0 && forall|i: int|
            0 <= i < w.len() ==> !is_boundary(#[trigger] w[i]),
        Lexeme::Operator(w) => w.len() > 0 && forall|i: int|
            0 <= i < w.len() ==> !is_boundary(#[trigger] w[i]),
        _ => true,
    }
}

/// Whether an item yielded agrees with a step of the model.
pub open spec fn yields(s: Step, r: Option<LexItem>) -> bool {
    match s.lexeme {
        None => r is None,
        Some(m) => (r matches Some(x) && item_view(x) == m && loc_view(item_loc(x)) == s.loc),
    }
}

/// How many levels a token opens (an indent) or closes (a dedent).
pub open spec fn lexeme_delta(m: Lexeme) -> int {
    match m {
        Lexeme::Indent(_) => 1,
        Lexeme::Dedent(n) => -(n as int),
        _ => 0,
    }
}

pub open spec fn level_delta(r: LexItem) -> int {
    lexeme_delta(item_view(r))
}

/// The number of levels left open by a stream of items.
pub open spec fn levels(h: Seq<LexItem>) -> int
    decreases h.len(),
{
    if h.len() == 0 {
        0
    } else {
        levels(h.drop_last()) + level_delta(h.last())
    }
}

/// No start of the stream closes more levels than it opened.
pub open spec fn levels_never_negative(h: Seq<LexItem>) -> bool {
    forall|i: int| 0 <= i <= h.len() ==> levels(#[trigger] h.take(i)) >= 0
}

pub proof fn lemma_levels_push(h: Seq<LexItem>, x: LexItem)
    ensures
        levels(h.push(x)) == levels(h) + level_delta(x),
{
    assert(h.push(x).drop_last() =~= h);
}

pub struct Lexer {
    cursor: Cursor,
    indent_stack: Vec<usize>,
    history: Ghost<Seq<LexItem>>,
}

impl Lexer {
    pub closed spec fn text(&self) -> Seq<char> {
        self.cursor.text()
    }

    /// The index from which the next call reads.
    pub closed spec fn next_index(&self) -> int {
        self.cursor.next_index()
    }

    /// The indentation stack: the width of each open level.
    pub closed spec fn stack(&self) -> Seq<usize> {
        self.indent_stack@
    }

    /// Every item yielded so far, in order.
    pub closed spec fn history(&self) -> Seq<LexItem> {
        self.history@
    }

    /// The position reached in the input.
    pub closed spec fn position(&self) -> Loc {
        self.cursor.position()
    }

    /// Whether the character before `next_index()` is to be read again.
    pub closed spec fn replaying(&self) -> bool {
        self.cursor.replaying()
    }

    /// What has been yielded is the start of the tokenizer's stream of the
    /// text, and reading on from here continues that stream.
    pub open spec fn on_stream(&self) -> bool {
        &&& is_stream_prefix(self.text(), self.history())
        &&& lex_step(self.text(), self.next_index(), self.stack()) == step_at(
            self.text(),
            self.history().len(),
        )
    }

    /// Decreases with every item yielded.
    pub open spec fn measure(&self) -> int {
        2 * (self.text().len() - self.next_index()) + if self.stack().len() > 0 {
            1int
        } else {
            0int
        }
    }

    /// Whether the input is exhausted and every level closed.
    pub open spec fn done(&self) -> bool {
        self.next_index() >= self.text().len() && self.stack().len() == 0
    }

    closed spec fn core_wf(&self) -> bool {
        &&& self.cursor.wf()
        &&& 0 <= self.cursor.next_index() <= self.cursor.text().len()
        &&& seq_sum(self.indent_stack@) <= self.cursor.text().len()
        &&& levels_positive(self.indent_stack@)
    }

    pub closed spec fn wf(&self) -> bool {
        &&& self.core_wf()
        &&& self.indent_stack@.len() == levels(self.history@)
        &&& levels_never_negative(self.history@)
        &&& self.on_stream()
    }

    /// A well-formed lexer has as many levels open as its stream has left
    /// open, each of positive width, and reads within the input.
    pub proof fn lemma_wf(&self)
        requires
            self.wf(),
        ensures
            self.stack().len() == levels(self.history()),
            levels_never_negative(self.history()),
            levels_positive(self.stack()),
            0 <= self.next_index() <= self.text().len(),
            self.on_stream(),
            loc_view(self.position()) == loc_after(
                self.text(),
                if self.replaying() {
                    self.next_index()
                } else {
                    self.next_index() - 1
                },
            ),
    {
        self.cursor.lemma_wf();
    }

    /// The number of levels open.
    pub fn open_levels(&self) -> (n: usize)
        ensures
            n == self.stack().len(),
    {
        self.indent_stack.len()
    }

    /// The position reached in the input.
    pub fn loc(&self) -> (l: Loc)
        ensures
            l == self.position(),
    {
        self.cursor.loc()
    }

    fn end_of_input(&mut self) -> (r: Option<LexItem>)
        requires
            old(self).core_wf(),
            old(self).next_index() >= old(self).text().len(),
        ensures
            final(self).core_wf(),
            final(self).text() == old(self).text(),
            final(self).history() == old(self).history(),
            loc_view(final(self).position()) == loc_after(
                final(self).text(),
                final(self).text().len() - 1,
            ),
            ({
                let s = end_step(old(self).text(), old(self).stack());
                &&& yields(s, r)
                &&& final(self).next_index() == s.next
                &&& final(self).stack() == s.stack
            }),
    {
        self.cursor.advance();
        let n = self.indent_stack.len();
        if n > 0 {
            self.indent_stack.clear();
            assert(self.indent_stack@ =~= Seq::<usize>::empty());
            Some(Ok(Token { token_type: TokenType::Dedent(n), loc: self.cursor.loc() }))
        } else {
            None
        }
    }

    /// The offside rule at the start of a line: reads the line's leading
    /// blanks, skipping blank lines, and leaves its first character to be
    /// read again. Only spaces count as indentation.
    fn detect_indent(&mut self) -> (r: Result<TokenType, LexerErrorType>)
        requires
            old(self).core_wf(),
        ensures
            final(self).core_wf(),
            final(self).text() == old(self).text(),
            final(self).history() == old(self).history(),
            ({
                let o = offside(old(self).text(), old(self).next_index(), old(self).stack());
                &&& result_view(r) == o.lexeme
                &&& final(self).next_index() == o.next
                &&& final(self).stack() == o.stack
            }),
    {
        let ghost t = self.cursor.text();
        let ghost i0 = self.cursor.next_index();
        let ghost mut k = i0;
        proof {
            self.cursor.lemma_wf();
        }
        let mut level: usize = 0;
        let mut counting = true;
        let mut c = self.cursor.advance();
        let ghost mut j = i0;
        while is_blank_or_newline(c)
            invariant
                self.cursor.wf(),
                self.cursor.text() == t,
                self.indent_stack@ == old(self).indent_stack@,
                self.history == old(self).history,
                t.len() < usize::MAX,
                0 <= k <= j <= t.len(),
                level <= j - k,
                counting ==> level == j - k && leading_spaces(t, k) == level + leading_spaces(t, j),
                !counting ==> level == leading_spaces(t, k),
                line_start(t, j, k) == line_start(t, i0, i0),
                c is Some ==> j < t.len() && c == Some(t[j]) && self.cursor.next_index() == j + 1
                    && !self.cursor.replaying(),
                c is None ==> j == t.len() && self.cursor.next_index() >= t.len()
                    && !self.cursor.replaying(),
            decreases t.len() - j,
        {
            let x = c.unwrap();
            if x == '\n' {
                level = 0;
                counting = true;
                proof {
                    k = j + 1;
                }
            } else if x == ' ' {
                if counting {
                    level = level + 1;
                }
            } else {
                counting = false;
            }
            proof {
                j = j + 1;
            }
            c = self.cursor.advance();
        }
        let at_end = c.is_none();
        if !at_end {
            self.cursor.unread();
        }
        proof {
            self.cursor.lemma_wf();
            lemma_sum_prefix(self.indent_stack@, self.indent_stack@.len() as int);
            assert(self.indent_stack@.take(self.indent_stack@.len() as int) =~= self.indent_stack@);
        }
        let depth = get_indent_level(&self.indent_stack);
        if at_end || level == depth {
            Ok(TokenType::LineEnd)
        } else if level > depth {
            let ghost before = self.indent_stack@;
            self.indent_stack.push(level - depth);
            assert(self.indent_stack@.drop_last() =~= before);
            assert(levels_positive(self.indent_stack@)) by {
                assert forall|x: int| 0 <= x < self.indent_stack@.len() implies #[trigger]
                    self.indent_stack@[x] > 0 by {
                    if x < before.len() {
                        assert(self.indent_stack@[x] == before[x]);
                    }
                }
            }
            Ok(TokenType::Indent(1))
        } else if dedent_lands(&self.indent_stack, level) {
            let ghost before = self.indent_stack@;
            let n = dedent_level(&mut self.indent_stack, level);
            proof {
                lemma_dedent_prefix(before, level as int);
            }
            Ok(TokenType::Dedent(n))
        } else {
            Err(LexerErrorType::InconsistentDedent(level))
        }
    }

    /// Reads a string literal after its opening quote: its text, and whether
    /// the closing quote was found.
    fn detect_string(&mut self) -> (r: (String, bool))
        requires
            old(self).core_wf(),
            !old(self).cursor.replaying(),
        ensures
            final(self).core_wf(),
            final(self).text() == old(self).text(),
            final(self).history() == old(self).history(),
            final(self).stack() == old(self).stack(),
            ({
                let t = old(self).text();
                let i = old(self).next_index();
                let e = quote_end(t, i);
                &&& r.1 == (e < t.len())
                &&& e < t.len() ==> r.0@ == t.subrange(i, e) && final(self).next_index() == e + 1
                &&& e >= t.len() ==> r.0@ == t.subrange(i, t.len() as int)
                    && final(self).next_index() >= t.len()
            }),
    {
        let ghost t = self.cursor.text();
        let ghost i0 = self.cursor.next_index();
        let mut buf: Vec<char> = Vec::new();
        let mut c = self.cursor.advance();
        let ghost mut j = i0;
        while is_not_quote(c)
            invariant
                self.cursor.wf(),
                self.cursor.text() == t,
                self.indent_stack@ == old(self).indent_stack@,
                self.history == old(self).history,
                0 <= i0 <= j <= t.len(),
                buf@ == t.subrange(i0, j),
                quote_end(t, j) == quote_end(t, i0),
                c is Some ==> j < t.len() && c == Some(t[j]) && self.cursor.next_index() == j + 1,
                c is None ==> j == t.len() && self.cursor.next_index() >= t.len(),
            decreases t.len() - j,
        {
            buf.push(c.unwrap());
            proof {
                j = j + 1;
                assert(buf@ =~= t.subrange(i0, j));
            }
            c = self.cursor.advance();
        }
        proof {
            self.cursor.lemma_wf();
        }
        (text_of(buf.as_slice()), c.is_some())
    }

    /// Reads a word whose first character `first` was just read, and
    /// classifies it; the boundary after it is left to be read again.
    fn detect_ident_or_literal(&mut self, first: char) -> (r: Result<TokenType, LexerErrorType>)
        requires
            old(self).core_wf(),
            !old(self).cursor.replaying(),
            old(self).next_index() >= 1,
            old(self).text()[old(self).next_index() - 1] == first,
        ensures
            final(self).core_wf(),
            final(self).text() == old(self).text(),
            final(self).history() == old(self).history(),
            final(self).stack() == old(self).stack(),
            ({
                let t = old(self).text();
                let s = old(self).next_index() - 1;
                let e = word_end(t, s + 1);
                &&& result_view(r) == classify(t.subrange(s, e))
                &&& final(self).next_index() == e
            }),
    {
        let ghost t = self.cursor.text();
        let ghost s = self.cursor.next_index() - 1;
        let mut buf: Vec<char> = Vec::new();
        buf.push(first);
        assert(buf@ =~= t.subrange(s, s + 1));
        let mut c = self.cursor.advance();
        let ghost mut j = s + 1;
        while is_word_char(c)
            invariant
                self.cursor.wf(),
                self.cursor.text() == t,
                self.indent_stack@ == old(self).indent_stack@,
                self.history == old(self).history,
                0 <= s < j <= t.len(),
                buf@ == t.subrange(s, j),
                word_end(t, j) == word_end(t, s + 1),
                c is Some ==> j < t.len() && c == Some(t[j]) && self.cursor.next_index() == j + 1
                    && !self.cursor.replaying(),
                c is None ==> j == t.len() && self.cursor.next_index() >= t.len(),
            decreases t.len() - j,
        {
            buf.push(c.unwrap());
            proof {
                j = j + 1;
                assert(buf@ =~= t.subrange(s, j));
            }
            c = self.cursor.advance();
        }
        if c.is_some() {
            self.cursor.unread();
        }
        proof {
            self.cursor.lemma_wf();
        }
        classify_word(buf.as_slice())
    }

    fn step(&mut self) -> (r: Option<LexItem>)
        requires
            old(self).core_wf(),
        ensures
            final(self).core_wf(),
            final(self).text() == old(self).text(),
            final(self).history() == old(self).history(),
            ({
                let s = lex_step(old(self).text(), old(self).next_index(), old(self).stack());
                &&& yields(s, r)
                &&& final(self).next_index() == s.next
                &&& final(self).stack() == s.stack
            }),
            r is None ==> loc_view(final(self).position()) == loc_after(
                final(self).text(),
                final(self).text().len() - 1,
            ),
    {
        let ghost t = self.cursor.text();
        let ghost n0 = self.cursor.next_index();
        let mut c = self.cursor.advance();
        let ghost mut j = n0;
        while is_blank_char(c)
            invariant
                self.cursor.wf(),
                self.cursor.text() == t,
                self.indent_stack@ == old(self).indent_stack@,
                self.history == old(self).history,
                0 <= n0 <= j <= t.len(),
                skip_blanks(t, j) == skip_blanks(t, n0),
                c is Some ==> j < t.len() && c == Some(t[j]) && self.cursor.next_index() == j + 1
                    && !self.cursor.replaying() && loc_view(self.cursor.position()) == loc_after(t, j),
                c is None ==> j == t.len() && self.cursor.next_index() >= t.len(),
                self.core_wf(),
            decreases t.len() - j,
        {
            proof {
                j = j + 1;
            }
            c = self.cursor.advance();
        }
        match c {
            None => self.end_of_input(),
            Some(x) => {
                let at = self.cursor.loc();
                if x == '\n' {
                    match self.detect_indent() {
                        Ok(tt) => Some(Ok(Token { token_type: tt, loc: at })),
                        Err(e) => Some(Err(LexerError { error_type: e, loc: at })),
                    }
                } else if x == '(' {
                    Some(Ok(Token { token_type: TokenType::OpenParen, loc: at }))
                } else if x == ')' {
                    Some(Ok(Token { token_type: TokenType::CloseParen, loc: at }))
                } else if x == '"' {
                    let (s, closed) = self.detect_string();
                    if closed {
                        Some(Ok(Token { token_type: TokenType::StringLiteral(s), loc: at }))
                    } else {
                        Some(Err(LexerError { error_type: LexerErrorType::UnterminatedString(s), loc: at }))
                    }
                } else {
                    match self.detect_ident_or_literal(x) {
                        Ok(tt) => Some(Ok(Token { token_type: tt, loc: at })),
                        Err(e) => Some(Err(LexerError { error_type: e, loc: at })),
                    }
                }
            },
        }
    }

    /// Yields the next token or error, or `None` once the input is exhausted
    /// and every level closed.
    pub fn next(&mut self) -> (r: Option<LexItem>)
        requires
            old(self).wf(),
        ensures
            final(self).wf(),
            final(self).text() == old(self).text(),
            ({
                let s = lex_step(old(self).text(), old(self).next_index(), old(self).stack());
                &&& yields(s, r)
                &&& final(self).next_index() == s.next
                &&& final(self).stack() == s.stack
            }),
            final(self).history() == match r {
                Some(x) => old(self).history().push(x),
                None => old(self).history(),
            },
            final(self).on_stream(),
            r matches Some(x) ==> word_is_clean(item_view(x)),
            r is Some ==> final(self).measure() < old(self).measure(),
            r is None ==> step_at(final(self).text(), final(self).history().len()).lexeme is None,
            r is None ==> final(self).done() && loc_view(final(self).position()) == loc_after(
                final(self).text(),
                final(self).text().len() - 1,
            ),
    {
        let r = self.step();
        proof {
            let t = self.cursor.text();
            let k = self.history@.len();
            lemma_step_facts(t, old(self).next_index(), old(self).stack());
            lemma_words_clean(t, old(self).next_index(), old(self).stack());
            if r is Some {
                let x = r->0;
                lemma_levels_push(self.history@, x);
                let h = self.history@.push(x);
                assert forall|i: int| 0 <= i < h.len() implies yields(
                    step_at(t, i as nat),
                    Some(#[trigger] h[i]),
                ) by {
                    if i < k {
                        assert(h[i] == self.history@[i]);
                    }
                }
                assert(run(t, (k + 1) as nat) == (self.next_index(), self.stack()));
                assert forall|i: int| 0 <= i <= h.len() implies levels(#[trigger] h.take(i)) >= 0 by {
                    if i < h.len() {
                        assert(h.take(i) =~= self.history@.take(i));
                    } else {
                        assert(h.take(i) =~= h);
                    }
                }
                self.history = Ghost(h);
            } else {
                assert(self.indent_stack@ =~= Seq::<usize>::empty());
                assert(old(self).stack() =~= Seq::<usize>::empty());
            }
        }
        r
    }
}

proof fn lemma_dedent_prefix(s: Seq<usize>, level: int)
    requires
        levels_positive(s),
    ensures
        levels_positive(dedent_target(s, level)),
        seq_sum(dedent_target(s, level)) <= seq_sum(s),
    decreases s.len(),
{
    if s.len() > 0 && seq_sum(s) > level {
        assert(levels_positive(s.drop_last())) by {
            assert forall|i: int| 0 <= i < s.drop_last().len() implies #[trigger] s.drop_last()[i]
                > 0 by {
                assert(s.drop_last()[i] == s[i]);
            }
        }
        lemma_dedent_prefix(s.drop_last(), level);
        assert(s.drop_last().take(s.len() - 1) =~= s.drop_last());
        lemma_sum_prefix(s.drop_last(), s.len() - 1);
    }
}

fn is_blank_char(c: Option<char>) -> (r: bool)
    ensures
        r == (c matches Some(x) && is_blank(x)),
{
    match c {
        Some(x) => x == ' ' || x == '\t' || x == '\r',
        None => false,
    }
}

fn is_blank_or_newline(c: Option<char>) -> (r: bool)
    ensures
        r == (c matches Some(x) && (is_blank(x) || x == '\n')),
{
    match c {
        Some(x) => x == ' ' || x == '\t' || x == '\r' || x == '\n',
        None => false,
    }
}

fn is_not_quote(c: Option<char>) -> (r: bool)
    ensures
        r == (c matches Some(x) && x != '"'),
{
    match c {
        Some(x) => x != '"',
        None => false,
    }
}

fn is_word_char(c: Option<char>) -> (r: bool)
    ensures
        r == (c matches Some(x) && !is_boundary(x)),
{
    match c {
        Some(x) => !(x == ' ' || x == '\n' || x == '\r' || x == ')'),
        None => false,
    }
}

pub proof fn lemma_scans_advance(t: Seq<char>, i: int, k: int)
    requires
        0 <= i,
    ensures
        i <= skip_blanks(t, i) <= if i <= t.len() { t.len() as int } else { i },
        skip_blanks(t, i) < t.len() ==> !is_blank(t[skip_blanks(t, i)]),
        i <= word_end(t, i) <= if i <= t.len() { t.len() as int } else { i },
        i <= quote_end(t, i) <= if i <= t.len() { t.len() as int } else { i },
        i <= line_start(t, i, k).0 <= if i <= t.len() { t.len() as int } else { i },
    decreases t.len() - i,
{
    if i < t.len() {
        lemma_scans_advance(t, i + 1, k);
        lemma_scans_advance(t, i + 1, i + 1);
    }
}

/// What every step does to the stack and the reading position.
pub proof fn lemma_step_facts(t: Seq<char>, n: int, st: Seq<usize>)
    requires
        0 <= n <= t.len(),
    ensures
        ({
            let s = lex_step(t, n, st);
            &&& n <= s.next <= t.len()
            &&& s.lexeme is Some ==> s.next > n || (st.len() > 0 && s.stack.len() == 0)
            &&& s.lexeme is None ==> s.next >= t.len() && st.len() == 0 && s.stack == st
            &&& s.lexeme matches Some(m) ==> s.stack.len() == st.len() + lexeme_delta(m)
        }),
{
    lemma_scans_advance(t, n, 0);
    let b = skip_blanks(t, n);
    let (q, k) = line_start(t, b + 1, b + 1);
    lemma_dedent_target_shape(st, leading_spaces(t, k));
    if b < t.len() {
        lemma_scans_advance(t, b + 1, b + 1);
    }
}

proof fn lemma_word_end_clean(t: Seq<char>, i: int)
    requires
        0 <= i,
    ensures
        forall|j: int| i <= j < word_end(t, i) ==> !is_boundary(#[trigger] t[j]),
    decreases t.len() - i,
{
    if 0 <= i < t.len() && !is_boundary(t[i]) {
        lemma_word_end_clean(t, i + 1);
    }
}

/// Identifiers and operators never start with, nor hold, a boundary.
proof fn lemma_words_clean(t: Seq<char>, n: int, st: Seq<usize>)
    requires
        0 <= n <= t.len(),
    ensures
        word_is_clean(lex_step(t, n, st).lexeme.unwrap_or(Lexeme::LineEnd)),
{
    let b = skip_blanks(t, n);
    lemma_scans_advance(t, n, 0);
    if b < t.len() && t[b] != '\n' && t[b] != '(' && t[b] != ')' && t[b] != '"' {
        let e = word_end(t, b + 1);
        lemma_scans_advance(t, b + 1, 0);
        lemma_word_end_clean(t, b + 1);
        let w = t.subrange(b, e);
        assert forall|i: int| 0 <= i < w.len() implies !is_boundary(#[trigger] w[i]) by {
            assert(w[i] == t[b + i]);
        }
    }
}

/// Starts reading `source` at its first character, at line 1.
pub fn new_lexer(source: Vec<char>) -> (l: Lexer)
    requires
        source@.len() < usize::MAX,
    ensures
        l.wf(),
        l.on_stream(),
        l.position() == (Loc { line: 1, col: 0 }),
        !l.replaying(),
        l.text() == source@,
        l.next_index() == 0,
        l.stack().len() == 0,
        l.history().len() == 0,
{
    let l = Lexer {
        cursor: Cursor::new(source),
        indent_stack: Vec::new(),
        history: Ghost(Seq::empty()),
    };
    assert(l.indent_stack@ =~= Seq::<usize>::empty());
    assert(run(l.text(), 0) == (0int, Seq::<usize>::empty()));
    assert forall|i: int| 0 <= i <= 0 implies levels(#[trigger] l.history@.take(i)) >= 0 by {
        assert(l.history@.take(i) =~= Seq::<LexItem>::empty());
    }
    l
}

} // verus!

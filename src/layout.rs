//! The layout transformer: groups the tokenizer's output line by line and
//! turns indentation markers into explicit, balanced delimiters.
use vstd::prelude::*;
use std::collections::VecDeque;
use crate::lexer::{lemma_levels_push, level_delta, levels, levels_never_negative, Lexer};
use crate::token::{item_loc, loc_of, LexItem, LexerError, Loc, Token, TokenType};

verus! {

pub open spec fn open_at(l: Loc) -> LexItem {
    Ok(Token { token_type: TokenType::OpenParen, loc: l })
}

pub open spec fn close_at(l: Loc) -> LexItem {
    Ok(Token { token_type: TokenType::CloseParen, loc: l })
}

/// The implicit opener of the whole program.
pub open spec fn sentinel() -> LexItem {
    open_at(Loc { line: 0, col: 0 })
}

pub open spec fn is_open_item(r: LexItem) -> bool {
    r matches Ok(t) && t.token_type is OpenParen
}

pub open spec fn is_close_item(r: LexItem) -> bool {
    r matches Ok(t) && t.token_type is CloseParen
}

/// A token that ends a line: a plain line end, an indent or a dedent.
pub open spec fn is_marker(r: LexItem) -> bool {
    r matches Ok(t) && (t.token_type is Indent || t.token_type is Dedent
        || t.token_type is LineEnd)
}

/// A line is wrapped when it has more than one item, does not start with an
/// opener, and does not end in a dedent.
pub open spec fn wraps(line: Seq<LexItem>, dedent: bool) -> bool {
    line.len() > 1 && !is_open_item(line[0]) && !dedent
}

pub open spec fn wrapped(line: Seq<LexItem>, dedent: bool, end: Loc) -> Seq<LexItem> {
    if wraps(line, dedent) {
        seq![open_at(item_loc(line[0]))] + line + seq![close_at(end)]
    } else {
        line
    }
}

pub open spec fn closers(n: nat, l: Loc) -> Seq<LexItem> {
    Seq::new(n, |i: int| close_at(l))
}

/// A line's items as emitted, given the marker that ended it: auto-wrapped
/// if need be, then an opener for an indent, or one closer per level that a
/// dedent closes.
pub open spec fn frame_line(line: Seq<LexItem>, marker: Token) -> Seq<LexItem> {
    match marker.token_type {
        TokenType::Indent(_) => wrapped(line, false, marker.loc).push(open_at(marker.loc)),
        TokenType::Dedent(n) => wrapped(line, true, marker.loc) + closers(n as nat, marker.loc),
        _ => wrapped(line, false, marker.loc),
    }
}

/// Reading a stream of tokenizer items: what has been emitted for the
/// completed lines, and the items of the line under way (the first line
/// starts with the implicit opener).
pub open spec fn feed_all(raw: Seq<LexItem>) -> (Seq<LexItem>, Seq<LexItem>)
    decreases raw.len(),
{
    if raw.len() == 0 {
        (Seq::empty(), seq![sentinel()])
    } else {
        let (out, line) = feed_all(raw.drop_last());
        let x = raw.last();
        if is_marker(x) {
            (out + frame_line(line, x->Ok_0), Seq::empty())
        } else {
            (out, line.push(x))
        }
    }
}

/// The whole output for a complete tokenizer stream that ended at `end`: the
/// last line framed, then one closer per level still open and one for the
/// implicit opener.
pub open spec fn layout_of(raw: Seq<LexItem>, end: Loc) -> Seq<LexItem> {
    let (out, line) = feed_all(raw);
    out + wrapped(line, false, end) + closers((1 + levels(raw)) as nat, end)
}

/// `a` is a start of `b`.
pub open spec fn prefix_of(a: Seq<LexItem>, b: Seq<LexItem>) -> bool {
    a.len() <= b.len() && b.take(a.len() as int) == a
}

/// What the completed lines frame only grows as the stream goes on, and is
/// the start of the whole layout: so everything yielded before the end is
/// the start of the final output.
pub proof fn lemma_output_prefix(raw: Seq<LexItem>, more: Seq<LexItem>, end: Loc)
    ensures
        prefix_of(feed_all(raw).0, feed_all(raw + more).0),
        prefix_of(feed_all(raw).0, layout_of(raw + more, end)),
    decreases more.len(),
{
    if more.len() == 0 {
        assert(raw + more =~= raw);
        assert(feed_all(raw).0.take(feed_all(raw).0.len() as int) =~= feed_all(raw).0);
    } else {
        let m = more.drop_last();
        lemma_output_prefix(raw, m, end);
        assert((raw + more).drop_last() =~= raw + m);
        let a = feed_all(raw).0;
        let b = feed_all(raw + m).0;
        let c = feed_all(raw + more).0;
        assert(c.take(b.len() as int) =~= b);
        assert(c.take(a.len() as int) =~= b.take(a.len() as int));
    }
    let a = feed_all(raw).0;
    let (out, line) = feed_all(raw + more);
    let full = out + wrapped(line, false, end) + closers((1 + levels(raw + more)) as nat, end);
    assert(full.take(out.len() as int) =~= out);
    assert(full.take(a.len() as int) =~= out.take(a.len() as int));
}

/// Openers minus closers.
pub open spec fn delim_balance(s: Seq<LexItem>) -> int
    decreases s.len(),
{
    if s.len() == 0 {
        0
    } else {
        delim_balance(s.drop_last()) + if is_open_item(s.last()) {
            1int
        } else if is_close_item(s.last()) {
            -1int
        } else {
            0int
        }
    }
}

/// The items that are not line markers.
pub open spec fn strip_markers(s: Seq<LexItem>) -> Seq<LexItem>
    decreases s.len(),
{
    if s.len() == 0 {
        s
    } else if is_marker(s.last()) {
        strip_markers(s.drop_last())
    } else {
        strip_markers(s.drop_last()).push(s.last())
    }
}

pub proof fn lemma_balance_concat(a: Seq<LexItem>, b: Seq<LexItem>)
    ensures
        delim_balance(a + b) == delim_balance(a) + delim_balance(b),
    decreases b.len(),
{
    if b.len() == 0 {
        assert(a + b =~= a);
    } else {
        assert((a + b).drop_last() =~= a + b.drop_last());
        lemma_balance_concat(a, b.drop_last());
    }
}

proof fn lemma_balance_closers(n: nat, l: Loc)
    ensures
        delim_balance(closers(n, l)) == -(n as int),
    decreases n,
{
    if n > 0 {
        assert(closers(n, l).drop_last() =~= closers((n - 1) as nat, l));
        lemma_balance_closers((n - 1) as nat, l);
    }
}

proof fn lemma_balance_wrapped(line: Seq<LexItem>, dedent: bool, end: Loc)
    ensures
        delim_balance(wrapped(line, dedent, end)) == delim_balance(line),
{
    if wraps(line, dedent) {
        let o = seq![open_at(item_loc(line[0]))];
        let c = seq![close_at(end)];
        lemma_balance_concat(o + line, c);
        lemma_balance_concat(o, line);
        assert(o.drop_last() =~= Seq::<LexItem>::empty());
        assert(c.drop_last() =~= Seq::<LexItem>::empty());
        assert(delim_balance(Seq::<LexItem>::empty()) == 0);
        assert(is_open_item(o.last()));
        assert(delim_balance(o) == 1);
        assert(!is_open_item(c.last()) && is_close_item(c.last()));
        assert(delim_balance(c) == -1);
    }
}

proof fn lemma_balance_frame(line: Seq<LexItem>, m: Token)
    requires
        is_marker(Ok(m)),
    ensures
        delim_balance(frame_line(line, m)) == delim_balance(line) + level_delta(Ok(m)),
{
    lemma_balance_wrapped(line, false, m.loc);
    lemma_balance_wrapped(line, true, m.loc);
    match m.token_type {
        TokenType::Indent(_) => {
            let w = wrapped(line, false, m.loc);
            assert(w.push(open_at(m.loc)).drop_last() =~= w);
        },
        TokenType::Dedent(n) => {
            lemma_balance_concat(wrapped(line, true, m.loc), closers(n as nat, m.loc));
            lemma_balance_closers(n as nat, m.loc);
        },
        _ => {},
    }
}

proof fn lemma_balance_feed(raw: Seq<LexItem>)
    ensures
        delim_balance(feed_all(raw).0) + delim_balance(feed_all(raw).1) == 1 + delim_balance(raw)
            + levels(raw),
    decreases raw.len(),
{
    if raw.len() == 0 {
        assert(seq![sentinel()].drop_last() =~= Seq::<LexItem>::empty());
    } else {
        let r = raw.drop_last();
        let x = raw.last();
        lemma_balance_feed(r);
        let (out, line) = feed_all(r);
        if is_marker(x) {
            lemma_balance_concat(out, frame_line(line, x->Ok_0));
            lemma_balance_frame(line, x->Ok_0);
        } else {
            assert(line.push(x).drop_last() =~= line);
        }
    }
}

/// The layout adds as many closers as openers: the balance of its output
/// is that of the explicit parentheses in the tokenizer's stream. So a
/// source whose parentheses balance yields a balanced stream.
pub proof fn lemma_layout_balanced(raw: Seq<LexItem>, end: Loc)
    requires
        levels(raw) >= 0,
    ensures
        delim_balance(layout_of(raw, end)) == delim_balance(raw),
{
    let (out, line) = feed_all(raw);
    lemma_balance_feed(raw);
    lemma_balance_concat(out + wrapped(line, false, end), closers((1 + levels(raw)) as nat, end));
    lemma_balance_concat(out, wrapped(line, false, end));
    lemma_balance_wrapped(line, false, end);
    lemma_balance_closers((1 + levels(raw)) as nat, end);
}

/// No start of the sequence has more closers than openers.
pub open spec fn never_negative(s: Seq<LexItem>) -> bool {
    forall|j: int| 0 <= j <= s.len() ==> delim_balance(#[trigger] s.take(j)) >= 0
}

/// Every start of `raw` has no more explicit closers than openers and no
/// more levels closed than opened.
pub open spec fn prefixes_balanced(raw: Seq<LexItem>) -> bool {
    forall|i: int|
        0 <= i <= raw.len() ==> delim_balance(#[trigger] raw.take(i)) >= 0 && levels(raw.take(i))
            >= 0
}

proof fn lemma_append_never_negative(a: Seq<LexItem>, b: Seq<LexItem>)
    requires
        never_negative(a),
        forall|j: int| 0 <= j <= b.len() ==> delim_balance(a) + delim_balance(#[trigger] b.take(j)) >= 0,
    ensures
        never_negative(a + b),
{
    assert forall|j: int| 0 <= j <= (a + b).len() implies delim_balance(#[trigger] (a + b).take(j)) >= 0 by {
        if j <= a.len() {
            assert((a + b).take(j) =~= a.take(j));
        } else {
            assert((a + b).take(j) =~= a + b.take(j - a.len()));
            lemma_balance_concat(a, b.take(j - a.len()));
        }
    }
}

proof fn lemma_closers_prefix(n: nat, l: Loc)
    ensures
        forall|j: int| 0 <= j <= n ==> delim_balance(#[trigger] closers(n, l).take(j)) == -j,
{
    assert forall|j: int| 0 <= j <= n implies delim_balance(#[trigger] closers(n, l).take(j)) == -j by {
        assert(closers(n, l).take(j) =~= closers(j as nat, l));
        lemma_balance_closers(j as nat, l);
    }
}

proof fn lemma_never_negative_wrapped(out: Seq<LexItem>, line: Seq<LexItem>, dedent: bool, end: Loc)
    requires
        never_negative(out + line),
    ensures
        never_negative(out + wrapped(line, dedent, end)),
        delim_balance(out + wrapped(line, dedent, end)) == delim_balance(out + line),
{
    lemma_balance_concat(out, line);
    lemma_balance_concat(out, wrapped(line, dedent, end));
    lemma_balance_wrapped(line, dedent, end);
    assert((out + line).take(out.len() as int) =~= out);
    assert(never_negative(out)) by {
        assert forall|j: int| 0 <= j <= out.len() implies delim_balance(#[trigger] out.take(j)) >= 0 by {
            assert((out + line).take(j) =~= out.take(j));
        }
    }
    if wraps(line, dedent) {
        let o = seq![open_at(item_loc(line[0]))];
        let w = o + line + seq![close_at(end)];
        assert(delim_balance(Seq::<LexItem>::empty()) == 0);
        assert forall|j: int| 0 <= j <= w.len() implies delim_balance(out) + delim_balance(
            #[trigger] w.take(j),
        ) >= 0 by {
            if j == 0 {
                assert(w.take(0) =~= Seq::<LexItem>::empty());
            } else if j <= line.len() + 1 {
                assert(w.take(j) =~= o + line.take(j - 1));
                lemma_balance_concat(o, line.take(j - 1));
                assert(o.drop_last() =~= Seq::<LexItem>::empty());
                assert((out + line).take(out.len() + j - 1) =~= out + line.take(j - 1));
                lemma_balance_concat(out, line.take(j - 1));
            } else {
                assert(w.take(j) =~= w);
                assert((out + line).take((out + line).len() as int) =~= out + line);
            }
        }
        lemma_append_never_negative(out, w);
    } else {
        assert(out + wrapped(line, dedent, end) =~= out + line);
    }
}

proof fn lemma_prefix_feed(raw: Seq<LexItem>)
    requires
        prefixes_balanced(raw),
    ensures
        never_negative(feed_all(raw).0 + feed_all(raw).1),
    decreases raw.len(),
{
    if raw.len() == 0 {
        let s = Seq::<LexItem>::empty() + seq![sentinel()];
        assert forall|j: int| 0 <= j <= s.len() implies delim_balance(#[trigger] s.take(j)) >= 0 by {
            if j == 0 {
                assert(s.take(0) =~= Seq::<LexItem>::empty());
            } else {
                assert(s.take(1) =~= s);
                assert(s.drop_last() =~= Seq::<LexItem>::empty());
                assert(delim_balance(Seq::<LexItem>::empty()) == 0);
                assert(is_open_item(s.last()));
            }
        }
    } else {
        let r = raw.drop_last();
        let x = raw.last();
        assert(prefixes_balanced(r)) by {
            assert forall|i: int| 0 <= i <= r.len() implies delim_balance(#[trigger] r.take(i)) >= 0
                && levels(r.take(i)) >= 0 by {
                assert(r.take(i) =~= raw.take(i));
            }
        }
        assert(raw.take(raw.len() as int) =~= raw);
        lemma_prefix_feed(r);
        lemma_balance_feed(raw);
        let (out, line) = feed_all(r);
        if is_marker(x) {
            let m = x->Ok_0;
            let dedent = m.token_type is Dedent;
            lemma_never_negative_wrapped(out, line, dedent, m.loc);
            let w = out + wrapped(line, dedent, m.loc);
            assert((out + line).take((out + line).len() as int) =~= out + line);
            assert(delim_balance(w) >= 0);
            lemma_balance_concat(out, frame_line(line, m));
            match m.token_type {
                TokenType::Indent(_) => {
                    let o = seq![open_at(m.loc)];
                    assert(o.drop_last() =~= Seq::<LexItem>::empty());
                    assert(delim_balance(Seq::<LexItem>::empty()) == 0);
                    assert forall|j: int| 0 <= j <= o.len() implies delim_balance(w) + delim_balance(
                        #[trigger] o.take(j),
                    ) >= 0 by {
                        if j == 0 {
                            assert(o.take(0) =~= Seq::<LexItem>::empty());
                        } else {
                            assert(o.take(1) =~= o);
                            assert(is_open_item(o.last()));
                        }
                    }
                    lemma_append_never_negative(w, o);
                    assert(out + frame_line(line, m) + Seq::<LexItem>::empty() =~= w + o);
                },
                TokenType::Dedent(n) => {
                    let c = closers(n as nat, m.loc);
                    lemma_closers_prefix(n as nat, m.loc);
                    lemma_balance_concat(wrapped(line, true, m.loc), c);
                    lemma_balance_wrapped(line, true, m.loc);
                    lemma_balance_concat(out, wrapped(line, true, m.loc));
                    lemma_append_never_negative(w, c);
                    assert(out + frame_line(line, m) + Seq::<LexItem>::empty() =~= w + c);
                },
                _ => {
                    assert(out + frame_line(line, m) + Seq::<LexItem>::empty() =~= w);
                },
            }
        } else {
            let s = out + line.push(x);
            assert(s =~= (out + line).push(x));
            lemma_balance_concat(out, line.push(x));
            assert forall|j: int| 0 <= j <= s.len() implies delim_balance(#[trigger] s.take(j)) >= 0 by {
                if j < s.len() {
                    assert(s.take(j) =~= (out + line).take(j));
                } else {
                    assert(s.take(j) =~= s);
                }
            }
        }
    }
}

/// Where the explicit parentheses never close more than they opened, no
/// start of the layout has more closers than openers either: every
/// synthetic closer follows its opener.
pub proof fn lemma_layout_never_negative(raw: Seq<LexItem>, end: Loc)
    requires
        prefixes_balanced(raw),
    ensures
        never_negative(layout_of(raw, end)),
{
    let (out, line) = feed_all(raw);
    lemma_prefix_feed(raw);
    lemma_balance_feed(raw);
    assert(raw.take(raw.len() as int) =~= raw);
    lemma_never_negative_wrapped(out, line, false, end);
    lemma_balance_concat(out, line);
    let k = (1 + levels(raw)) as nat;
    lemma_closers_prefix(k, end);
    lemma_append_never_negative(out + wrapped(line, false, end), closers(k, end));
}

/// A single bare item is never wrapped; two or more that do not start with
/// an opener, on a line that does not end in a dedent, are wrapped in an
/// opener at the first item and a closer at the line's end.
pub proof fn lemma_auto_wrap(line: Seq<LexItem>, dedent: bool, end: Loc)
    ensures
        line.len() <= 1 ==> wrapped(line, dedent, end) == line,
        line.len() >= 2 && !is_open_item(line[0]) && !dedent ==> wrapped(line, dedent, end)
            == seq![open_at(item_loc(line[0]))] + line + seq![close_at(end)],
        dedent ==> wrapped(line, dedent, end) == line,
{
}

/// Each line holds at most one item, and no line starts a level or
/// closes one.
pub open spec fn one_item_per_line(raw: Seq<LexItem>) -> bool {
    &&& forall|i: int| 0 <= i < raw.len() ==> !(#[trigger] raw[i] matches Ok(t) && (t.token_type is Indent || t.token_type is Dedent))
    &&& forall|i: int| 0 < i < raw.len() && !is_marker(#[trigger] raw[i]) ==> is_marker(raw[i - 1])
}

proof fn lemma_plain_lines_feed(raw: Seq<LexItem>)
    requires
        one_item_per_line(raw),
    ensures
        feed_all(raw).0 + feed_all(raw).1 == seq![sentinel()] + strip_markers(raw),
        !wraps(feed_all(raw).1, false),
        raw.len() == 0 ==> feed_all(raw).1 == seq![sentinel()],
        raw.len() > 0 && is_marker(raw.last()) ==> feed_all(raw).1.len() == 0,
        levels(raw) == 0,
    decreases raw.len(),
{
    if raw.len() == 0 {
        assert(Seq::<LexItem>::empty() + seq![sentinel()] =~= seq![sentinel()] + raw);
    } else {
        let r = raw.drop_last();
        let x = raw.last();
        assert(one_item_per_line(r)) by {
            assert forall|i: int| 0 <= i < r.len() implies !(#[trigger] r[i] matches Ok(t) && (t.token_type is Indent || t.token_type is Dedent)) by {
                assert(r[i] == raw[i]);
            }
            assert forall|i: int| 0 < i < r.len() && !is_marker(#[trigger] r[i]) implies is_marker(r[i - 1]) by {
                assert(r[i] == raw[i]);
                assert(r[i - 1] == raw[i - 1]);
            }
        }
        lemma_plain_lines_feed(r);
        assert(level_delta(raw[raw.len() - 1]) == 0);
        let (out, line) = feed_all(r);
        if is_marker(x) {
            assert(!(raw[raw.len() - 1] matches Ok(t) && (t.token_type is Indent || t.token_type is Dedent)));
            assert(frame_line(line, x->Ok_0) == line);
            assert(out + frame_line(line, x->Ok_0) + Seq::<LexItem>::empty() =~= out + line);
        } else {
            if r.len() > 0 {
                assert(is_marker(raw[raw.len() - 2]));
            }
            assert(out + line.push(x) =~= (out + line).push(x));
        }
    }
}

/// With no indentation changes and one item per line, the layout emits the
/// tokenizer's items with the line markers dropped, inside the implicit
/// outer pair of delimiters and nothing else.
pub proof fn lemma_plain_lines(raw: Seq<LexItem>, end: Loc)
    requires
        one_item_per_line(raw),
    ensures
        layout_of(raw, end) == seq![sentinel()] + strip_markers(raw) + seq![close_at(end)],
{
    lemma_plain_lines_feed(raw);
    let (out, line) = feed_all(raw);
    assert(closers(1, end) =~= seq![close_at(end)]);
    assert(out + line + closers(1, end) =~= seq![sentinel()] + strip_markers(raw) + seq![close_at(end)]);
}

/// The tokenizer with its layout rewritten into explicit delimiters.
pub struct LexerNoIndent {
    lexer: Lexer,
    queue: VecDeque<LexItem>,
    started: bool,
    finished: bool,
    emitted: Ghost<Seq<LexItem>>,
}

fn open_paren(l: Loc) -> (r: LexItem)
    ensures
        r == open_at(l),
{
    Ok(Token { token_type: TokenType::OpenParen, loc: l })
}

fn close_paren(l: Loc) -> (r: LexItem)
    ensures
        r == close_at(l),
{
    Ok(Token { token_type: TokenType::CloseParen, loc: l })
}

fn starts_with_open(line: &VecDeque<LexItem>) -> (r: bool)
    requires
        line@.len() > 0,
    ensures
        r == is_open_item(line@[0]),
{
    match &line[0] {
        Ok(t) => match t.token_type {
            TokenType::OpenParen => true,
            _ => false,
        },
        Err(_) => false,
    }
}

/// Appends a line to the (empty) queue, wrapped if the wrap rule says so.
fn push_wrapped(queue: &mut VecDeque<LexItem>, mut line: VecDeque<LexItem>, dedent: bool, end: Loc)
    requires
        old(queue)@.len() == 0,
    ensures
        final(queue)@ == wrapped(line@, dedent, end),
{
    let wrap = line.len() > 1 && !starts_with_open(&line) && !dedent;
    if wrap {
        let first = loc_of(&line[0]);
        queue.push_back(open_paren(first));
    }
    let ghost before = queue@;
    let ghost items = line@;
    queue.append(&mut line);
    if wrap {
        queue.push_back(close_paren(end));
        assert(queue@ =~= seq![open_at(item_loc(items[0]))] + items + seq![close_at(end)]);
    } else {
        assert(queue@ =~= items);
    }
}

fn push_closers(queue: &mut VecDeque<LexItem>, n: usize, l: Loc)
    ensures
        final(queue)@ == old(queue)@ + closers(n as nat, l),
{
    let mut i: usize = 0;
    while i < n
        invariant
            i <= n,
            queue@ == old(queue)@ + closers(i as nat, l),
        decreases n - i,
    {
        queue.push_back(close_paren(l));
        i = i + 1;
        assert(queue@ =~= old(queue)@ + closers(i as nat, l));
    }
}

fn is_line_marker(t: &Token) -> (r: bool)
    ensures
        r == is_marker(Ok(*t)),
{
    match t.token_type {
        TokenType::Indent(_) => true,
        TokenType::Dedent(_) => true,
        TokenType::LineEnd => true,
        _ => false,
    }
}

/// Starts the layout over a tokenizer that has yielded nothing yet.
pub fn new_lexer_no_indent(lexer: Lexer) -> (l: LexerNoIndent)
    requires
        lexer.wf(),
        lexer.history().len() == 0,
    ensures
        l.wf(),
        l.lexer() == lexer,
        l.emitted().len() == 0,
        !l.finished(),
{
    LexerNoIndent {
        lexer,
        queue: VecDeque::new(),
        started: false,
        finished: false,
        emitted: Ghost(Seq::empty()),
    }
}

impl LexerNoIndent {
    /// The tokenizer underneath.
    pub closed spec fn lexer(&self) -> Lexer {
        self.lexer
    }

    /// Every item yielded so far, in order.
    pub closed spec fn emitted(&self) -> Seq<LexItem> {
        self.emitted@
    }

    /// Whether the tokenizer is exhausted.
    pub closed spec fn finished(&self) -> bool {
        self.finished
    }

    /// The number of items framed but not yet yielded.
    pub closed spec fn pending(&self) -> nat {
        self.queue@.len()
    }

    /// A call that yields an item makes progress in the lexicographic order
    /// of the tokenizer's measure, then being unfinished, then the pending
    /// items: together with `lemma_wf` this bounds the number of calls.
    pub open spec fn progressed(old: &Self, new: &Self) -> bool {
        ||| new.lexer().measure() < old.lexer().measure()
        ||| new.lexer().measure() == old.lexer().measure() && !old.finished() && new.finished()
        ||| new.lexer().measure() == old.lexer().measure() && old.finished() == new.finished()
            && new.pending() < old.pending()
    }

    /// A well-formed layout reads a tokenizer that is on its text's stream;
    /// until it finishes, it has yielded the start of what that stream's
    /// completed lines frame, and once finished, the start of the whole
    /// layout.
    pub proof fn lemma_wf(&self)
        requires
            self.wf(),
        ensures
            self.lexer().wf(),
            self.lexer().on_stream(),
            self.lexer().measure() >= 0,
            !self.finished() ==> prefix_of(self.emitted(), feed_all(self.lexer().history()).0),
            self.finished() ==> self.lexer().done() && prefix_of(
                self.emitted(),
                layout_of(self.lexer().history(), self.lexer().position()),
            ),
    {
        self.lexer.lemma_wf();
        assert((self.emitted@ + self.queue@).take(self.emitted@.len() as int) =~= self.emitted@);
    }

    pub closed spec fn wf(&self) -> bool {
        let raw = self.lexer.history();
        &&& self.lexer.wf()
        &&& !self.started ==> raw.len() == 0 && !self.finished
        &&& !self.finished ==> {
            &&& self.emitted@ + self.queue@ == feed_all(raw).0
            &&& feed_all(raw).1 == if self.started {
                Seq::<LexItem>::empty()
            } else {
                seq![sentinel()]
            }
        }
        &&& self.finished ==> {
            &&& self.lexer.done()
            &&& self.emitted@ + self.queue@ == layout_of(raw, self.lexer.position())
        }
    }

    /// Reads the tokenizer up to the marker that ends the current line,
    /// adding the line's items to `line`; `None` at the end of the input.
    fn fill_line_buffer(&mut self, line: &mut VecDeque<LexItem>) -> (m: Option<Token>)
        requires
            old(self).lexer.wf(),
            feed_all(old(self).lexer.history()).1 == old(line)@,
        ensures
            final(self).lexer.wf(),
            final(self).lexer.measure() <= old(self).lexer.measure(),
            final(self).lexer.text() == old(self).lexer.text(),
            final(self).queue == old(self).queue,
            final(self).started == old(self).started,
            final(self).finished == old(self).finished,
            final(self).emitted == old(self).emitted,
            ({
                let before = feed_all(old(self).lexer.history());
                let after = feed_all(final(self).lexer.history());
                match m {
                    Some(t) => {
                        &&& is_marker(Ok(t))
                        &&& after.0 == before.0 + frame_line(final(line)@, t)
                        &&& after.1.len() == 0
                        &&& final(self).lexer.measure() < old(self).lexer.measure()
                    },
                    None => {
                        &&& final(self).lexer.done()
                        &&& after.0 == before.0
                        &&& after.1 == final(line)@
                    },
                }
            }),
            ({
                let h0 = old(self).lexer.history();
                let h1 = final(self).lexer.history();
                &&& h0.len() <= h1.len()
                &&& h1.take(h0.len() as int) == h0
                &&& match m {
                    Some(t) => {
                        &&& h1.len() > h0.len()
                        &&& h1.last() == Ok::<Token, LexerError>(t)
                        &&& forall|i: int| h0.len() <= i < h1.len() - 1 ==> !is_marker(#[trigger] h1[i])
                        &&& final(line)@ == old(line)@ + h1.subrange(h0.len() as int, h1.len() - 1)
                    },
                    None => {
                        &&& forall|i: int| h0.len() <= i < h1.len() ==> !is_marker(#[trigger] h1[i])
                        &&& final(line)@ == old(line)@ + h1.skip(h0.len() as int)
                    },
                }
            }),
    {
        let ghost out0 = feed_all(self.lexer.history()).0;
        let ghost h0 = self.lexer.history();
        assert(h0.take(h0.len() as int) =~= h0);
        assert(old(line)@ =~= old(line)@ + h0.skip(h0.len() as int));
        proof {
            self.lexer.lemma_wf();
        }
        loop
            invariant
                self.lexer.wf(),
                self.lexer.measure() <= old(self).lexer.measure(),
                self.lexer.measure() >= 0,
                self.lexer.text() == old(self).lexer.text(),
                self.queue == old(self).queue,
                self.started == old(self).started,
                self.finished == old(self).finished,
                self.emitted == old(self).emitted,
                out0 == feed_all(old(self).lexer.history()).0,
                feed_all(self.lexer.history()).0 == out0,
                feed_all(self.lexer.history()).1 == line@,
                h0 == old(self).lexer.history(),
                h0.len() <= self.lexer.history().len(),
                self.lexer.history().take(h0.len() as int) == h0,
                forall|i: int|
                    h0.len() <= i < self.lexer.history().len() ==> !is_marker(
                        #[trigger] self.lexer.history()[i],
                    ),
                line@ == old(line)@ + self.lexer.history().skip(h0.len() as int),
            decreases self.lexer.measure(),
        {
            proof {
                self.lexer.lemma_wf();
            }
            let ghost raw = self.lexer.history();
            let r = self.lexer.next();
            proof {
                self.lexer.lemma_wf();
            }
            match r {
                None => {
                    return None;
                },
                Some(item) => {
                    let ghost x = item;
                    let ghost h1 = self.lexer.history();
                    assert(h1.drop_last() =~= raw);
                    assert(h1.take(h0.len() as int) =~= h0);
                    assert(h1.subrange(h0.len() as int, h1.len() - 1) =~= raw.skip(h0.len() as int));
                    assert(h1.skip(h0.len() as int) =~= raw.skip(h0.len() as int).push(x));
                    match item {
                        Ok(t) => {
                            if is_line_marker(&t) {
                                return Some(t);
                            }
                            line.push_back(Ok(t));
                        },
                        Err(e) => {
                            line.push_back(Err(e));
                        },
                    }
                    assert(line@ =~= old(line)@ + h1.skip(h0.len() as int));
                },
            }
        }
    }

    /// Yields the next item of the delimited stream, or `None` once it has
    /// ended: then it is the layout of the tokenizer's whole stream, and it
    /// has as many more openers than closers as the source's explicit
    /// parentheses have.
    pub fn next(&mut self) -> (r: Option<LexItem>)
        requires
            old(self).wf(),
        ensures
            final(self).wf(),
            final(self).lexer().text() == old(self).lexer().text(),
            final(self).lexer().on_stream(),
            final(self).lexer().measure() <= old(self).lexer().measure(),
            old(self).finished() ==> final(self).finished(),
            r is Some ==> Self::progressed(old(self), final(self)),
            final(self).emitted() == match r {
                Some(x) => old(self).emitted().push(x),
                None => old(self).emitted(),
            },
            r is None ==> {
                &&& final(self).finished()
                &&& final(self).lexer().done()
                &&& final(self).emitted() == layout_of(
                    final(self).lexer().history(),
                    final(self).lexer().position(),
                )
                &&& delim_balance(final(self).emitted()) == delim_balance(
                    final(self).lexer().history(),
                )
                &&& (forall|i: int|
                    0 <= i <= final(self).lexer().history().len() ==> delim_balance(
                        #[trigger] final(self).lexer().history().take(i),
                    ) >= 0) ==> never_negative(final(self).emitted())
            },
    {
        proof {
            self.lexer.lemma_wf();
        }
        loop
            invariant
                self.wf(),
                self.emitted == old(self).emitted,
                self.lexer.text() == old(self).lexer.text(),
                self.lexer.measure() >= 0,
                self.lexer.measure() <= old(self).lexer.measure(),
                old(self).finished ==> self.finished,
                self.lexer.measure() == old(self).lexer.measure() && self.finished == old(
                    self,
                ).finished ==> self.queue@ == old(self).queue@,
            decreases 2 * self.lexer.measure() + if self.finished {
                0int
            } else {
                1int
            },
        {
            if self.queue.len() > 0 {
                let ghost q = self.queue@;
                let x = self.queue.pop_front().unwrap();
                proof {
                    assert(self.emitted@.push(x) + self.queue@ =~= self.emitted@ + q);
                    self.emitted = Ghost(self.emitted@.push(x));
                }
                proof {
                    self.lexer.lemma_wf();
                }
                return Some(x);
            }
            if self.finished {
                proof {
                    assert(self.emitted@ + self.queue@ =~= self.emitted@);
                    self.lexer.lemma_wf();
                    lemma_layout_balanced(self.lexer.history(), self.lexer.position());
                    let h = self.lexer.history();
                    if forall|i: int| 0 <= i <= h.len() ==> delim_balance(#[trigger] h.take(i)) >= 0 {
                        assert(prefixes_balanced(h)) by {
                            assert forall|i: int| 0 <= i <= h.len() implies delim_balance(
                                #[trigger] h.take(i),
                            ) >= 0 && levels(h.take(i)) >= 0 by {
                                assert(levels_never_negative(h));
                            }
                        }
                        lemma_layout_never_negative(h, self.lexer.position());
                    }
                }
                return None;
            }
            let mut line: VecDeque<LexItem> = VecDeque::new();
            if !self.started {
                line.push_back(open_paren(Loc { line: 0, col: 0 }));
                self.started = true;
                assert(line@ =~= seq![sentinel()]);
            }
            assert(self.emitted@ + self.queue@ =~= self.emitted@);
            let m = self.fill_line_buffer(&mut line);
            match m {
                Some(t) => {
                    let ghost items = line@;
                    let end = t.loc;
                    match t.token_type {
                        TokenType::Indent(_) => {
                            push_wrapped(&mut self.queue, line, false, end);
                            self.queue.push_back(open_paren(end));
                        },
                        TokenType::Dedent(n) => {
                            push_wrapped(&mut self.queue, line, true, end);
                            push_closers(&mut self.queue, n, end);
                        },
                        _ => {
                            push_wrapped(&mut self.queue, line, false, end);
                        },
                    }
                    assert(self.queue@ == frame_line(items, t));
                },
                None => {
                    let end = self.lexer.loc();
                    let open = self.lexer.open_levels();
                    push_wrapped(&mut self.queue, line, false, end);
                    proof {
                        self.lexer.lemma_wf();
                    }
                    let ghost w = self.queue@;
                    push_closers(&mut self.queue, open + 1, end);
                    self.finished = true;
                    assert(self.emitted@ + self.queue@ =~= self.emitted@ + w + closers(
                        (open + 1) as nat,
                        end,
                    ));
                },
            }
            proof {
                self.lexer.lemma_wf();
            }
        }
    }
}

} // verus!

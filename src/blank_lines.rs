//! Blank lines over the whole token stream: a text with a blank line
//! inserted after some line is tokenized into the same items, positions
//! aside.
use vstd::prelude::*;
use crate::indent::{
    is_blank, leading_spaces, lemma_blank_line_inserted, lemma_line_start_after,
    lemma_shifted_scans, line_start, offside,
};
use crate::lexer::{
    lemma_scans_advance, lemma_step_facts, lex_step, quote_end, run, skip_blanks, step_at,
    word_end,
};

verus! {

/// `t1` and `t2` agree up to index `p`, where both hold a newline.
spec fn agree_to(t1: Seq<char>, t2: Seq<char>, p: int) -> bool {
    &&& 0 <= p < t1.len()
    &&& p < t2.len()
    &&& t2[p] == '\n'
    &&& forall|x: int| 0 <= x <= p ==> #[trigger] t1[x] == t2[x]
}

/// After index `p`, `t1` holds what `t2` holds, `d` places further on.
spec fn shifted_after(t1: Seq<char>, t2: Seq<char>, p: int, d: int) -> bool {
    &&& 0 <= d
    &&& t1.len() == t2.len() + d
    &&& forall|x: int| p < x < t2.len() ==> #[trigger] t2[x] == t1[x + d]
}

proof fn lemma_scans_agree(t1: Seq<char>, t2: Seq<char>, p: int, j: int)
    requires
        agree_to(t1, t2, p),
        0 <= j <= p,
    ensures
        skip_blanks(t1, j) == skip_blanks(t2, j) <= p,
        word_end(t1, j) == word_end(t2, j) <= p,
        leading_spaces(t1, j) == leading_spaces(t2, j),
        quote_end(t2, j) < p ==> quote_end(t1, j) == quote_end(t2, j),
    decreases p - j,
{
    assert(t1[j] == t2[j]);
    lemma_scans_advance(t2, j, 0);
    lemma_scans_advance(t2, j + 1, 0);
    if j < p {
        lemma_scans_agree(t1, t2, p, j + 1);
    }
}

proof fn lemma_scans_shift(t1: Seq<char>, t2: Seq<char>, p: int, d: int, j: int)
    requires
        shifted_after(t1, t2, p, d),
        0 <= p < j,
    ensures
        skip_blanks(t1, j + d) == skip_blanks(t2, j) + d,
        word_end(t1, j + d) == word_end(t2, j) + d,
        quote_end(t1, j + d) == quote_end(t2, j) + d,
    decreases t2.len() - j,
{
    if j < t2.len() {
        assert(t2[j] == t1[j + d]);
        lemma_scans_shift(t1, t2, p, d, j + 1);
    }
}

/// Leading blanks and blank lines from `j` either stop before `p` alike in
/// both texts, or run through the newline at `p`.
proof fn lemma_line_agree(t1: Seq<char>, t2: Seq<char>, p: int, j: int, k: int)
    requires
        agree_to(t1, t2, p),
        0 <= k <= j <= p,
    ensures
        line_start(t2, j, k).0 < p ==> line_start(t1, j, k) == line_start(t2, j, k),
        line_start(t2, j, k).0 >= p ==> line_start(t2, j, k) == line_start(t2, p + 1, p + 1)
            && line_start(t1, j, k) == line_start(t1, p + 1, p + 1),
    decreases p - j,
{
    assert(t1[j] == t2[j]);
    lemma_line_start_after(t2, p + 1, p + 1);
    lemma_line_start_after(t2, j, k);
    if j < p {
        if is_blank(t2[j]) {
            lemma_line_agree(t1, t2, p, j + 1, k);
        } else if t2[j] == '\n' {
            lemma_line_agree(t1, t2, p, j + 1, j + 1);
        }
    }
}

/// The text with a blank line of blanks `w` inserted after the line `s1`.
pub open spec fn with_blank_line(s1: Seq<char>, w: Seq<char>, s2: Seq<char>) -> Seq<char> {
    s1 + seq!['\n'] + w + seq!['\n'] + s2
}

/// The text without it.
pub open spec fn without_blank_line(s1: Seq<char>, s2: Seq<char>) -> Seq<char> {
    s1 + seq!['\n'] + s2
}

/// Reading from `n`, the next token is a string literal opened before index
/// `p` and not closed before it.
pub open spec fn string_open_across(t: Seq<char>, n: int, p: int) -> bool {
    let s = skip_blanks(t, n);
    0 <= s < p && t[s] == '"' && quote_end(t, s + 1) >= p
}

/// No string literal of the tokenizer's stream of `t` runs across index `p`.
pub open spec fn no_string_across(t: Seq<char>, p: int) -> bool {
    forall|k: nat| #[trigger] run(t, k).0 <= p ==> !string_open_across(t, run(t, k).0, p)
}

pub open spec fn all_blank(w: Seq<char>) -> bool {
    forall|x: int| 0 <= x < w.len() ==> is_blank(#[trigger] w[x])
}

proof fn lemma_texts(s1: Seq<char>, w: Seq<char>, s2: Seq<char>)
    ensures
        agree_to(with_blank_line(s1, w, s2), without_blank_line(s1, s2), s1.len() as int),
        shifted_after(
            with_blank_line(s1, w, s2),
            without_blank_line(s1, s2),
            s1.len() as int,
            w.len() + 1int,
        ),
{
    let t1 = with_blank_line(s1, w, s2);
    let t2 = without_blank_line(s1, s2);
    let p = s1.len() as int;
    let d = w.len() + 1int;
    assert forall|x: int| 0 <= x <= p implies #[trigger] t1[x] == t2[x] by {
        if x < p {
            assert(t1[x] == s1[x] && t2[x] == s1[x]);
        }
    }
    assert forall|x: int| p < x < t2.len() implies #[trigger] t2[x] == t1[x + d] by {
        assert(t2[x] == s2[x - p - 1]);
        assert(t1[x + d] == s2[x - p - 1]);
    }
}

/// The offside step at the line after `s1` sees past the inserted blank line.
proof fn lemma_offside_at_break(s1: Seq<char>, w: Seq<char>, s2: Seq<char>, st: Seq<usize>)
    requires
        all_blank(w),
    ensures
        ({
            let p = s1.len() as int;
            let a = offside(with_blank_line(s1, w, s2), p + 1, st);
            let b = offside(without_blank_line(s1, s2), p + 1, st);
            &&& a.lexeme == b.lexeme
            &&& a.stack == b.stack
            &&& a.next == b.next + w.len() + 1
            &&& b.next > p
        }),
{
    let pre = s1 + seq!['\n'];
    let b = w + seq!['\n'];
    assert(with_blank_line(s1, w, s2) =~= pre + b + s2);
    assert(without_blank_line(s1, s2) =~= pre + s2);
    assert forall|x: int| 0 <= x < b.len() - 1 implies is_blank(#[trigger] b[x]) by {
        assert(b[x] == w[x]);
    }
    assert(b.last() == '\n');
    lemma_blank_line_inserted(pre, b, s2, st);
    lemma_line_start_after(without_blank_line(s1, s2), s1.len() + 1int, s1.len() + 1int);
}

proof fn lemma_step_before(s1: Seq<char>, w: Seq<char>, s2: Seq<char>, n: int, st: Seq<usize>)
    requires
        all_blank(w),
        0 <= n <= s1.len(),
        !string_open_across(without_blank_line(s1, s2), n, s1.len() as int),
    ensures
        ({
            let p = s1.len() as int;
            let a = lex_step(with_blank_line(s1, w, s2), n, st);
            let b = lex_step(without_blank_line(s1, s2), n, st);
            &&& a.lexeme == b.lexeme
            &&& a.stack == b.stack
            &&& (a.next == b.next && b.next <= p) || (b.next > p && a.next == b.next + w.len() + 1)
        }),
{
    let t1 = with_blank_line(s1, w, s2);
    let t2 = without_blank_line(s1, s2);
    let p = s1.len() as int;
    lemma_texts(s1, w, s2);
    lemma_scans_agree(t1, t2, p, n);
    lemma_scans_advance(t2, n, 0);
    let s = skip_blanks(t2, n);
    if s == p {
        lemma_offside_at_break(s1, w, s2, st);
    } else {
        assert(t1[s] == t2[s]);
        let c = t2[s];
        if c == '\n' {
            lemma_line_agree(t1, t2, p, s + 1, s + 1);
            let (q, k) = line_start(t2, s + 1, s + 1);
            if q < p {
                lemma_line_start_after(t2, s + 1, s + 1);
                lemma_scans_agree(t1, t2, p, k);
            } else {
                lemma_offside_at_break(s1, w, s2, st);
            }
        } else if c == '"' {
            lemma_scans_agree(t1, t2, p, s + 1);
            let e = quote_end(t2, s + 1);
            lemma_scans_advance(t2, s + 1, 0);
            assert(t1.subrange(s + 1, e) =~= t2.subrange(s + 1, e));
        } else if c != '(' && c != ')' {
            lemma_scans_agree(t1, t2, p, s + 1);
            let e = word_end(t2, s + 1);
            lemma_scans_advance(t2, s + 1, 0);
            assert(t1.subrange(s, e) =~= t2.subrange(s, e));
        }
    }
}

proof fn lemma_step_after(s1: Seq<char>, w: Seq<char>, s2: Seq<char>, n: int, st: Seq<usize>)
    requires
        s1.len() < n <= without_blank_line(s1, s2).len(),
    ensures
        ({
            let a = lex_step(with_blank_line(s1, w, s2), n + w.len() + 1, st);
            let b = lex_step(without_blank_line(s1, s2), n, st);
            &&& a.lexeme == b.lexeme
            &&& a.stack == b.stack
            &&& a.next == b.next + w.len() + 1
            &&& b.next > s1.len()
        }),
{
    let t1 = with_blank_line(s1, w, s2);
    let t2 = without_blank_line(s1, s2);
    let p = s1.len() as int;
    let d = w.len() + 1int;
    lemma_texts(s1, w, s2);
    lemma_step_facts(t2, n, st);
    lemma_scans_shift(t1, t2, p, d, n);
    lemma_scans_advance(t2, n, 0);
    let s = skip_blanks(t2, n);
    if s < t2.len() {
        assert(t2[s] == t1[s + d]);
        let c = t2[s];
        if c == '\n' {
            lemma_shifted_scans(t1, t2, p + 1, d, s + 1, s + 1);
            let (q, k) = line_start(t2, s + 1, s + 1);
            lemma_line_start_after(t2, s + 1, s + 1);
            lemma_shifted_scans(t1, t2, p + 1, d, k, k);
        } else if c == '"' {
            lemma_scans_shift(t1, t2, p, d, s + 1);
            let e = quote_end(t2, s + 1);
            lemma_scans_advance(t2, s + 1, 0);
            if e < t2.len() {
                assert(t1.subrange(s + 1 + d, e + d) =~= t2.subrange(s + 1, e));
            } else {
                assert(t1.subrange(s + 1 + d, t1.len() as int) =~= t2.subrange(s + 1, t2.len() as int));
            }
        } else if c != '(' && c != ')' {
            lemma_scans_shift(t1, t2, p, d, s + 1);
            let e = word_end(t2, s + 1);
            lemma_scans_advance(t2, s + 1, 0);
            assert(t1.subrange(s + d, e + d) =~= t2.subrange(s, e));
        }
    }
}

proof fn lemma_runs(s1: Seq<char>, w: Seq<char>, s2: Seq<char>, k: nat)
    requires
        all_blank(w),
        no_string_across(without_blank_line(s1, s2), s1.len() as int),
    ensures
        ({
            let p = s1.len() as int;
            let a = run(with_blank_line(s1, w, s2), k);
            let b = run(without_blank_line(s1, s2), k);
            &&& a.1 == b.1
            &&& 0 <= b.0 <= without_blank_line(s1, s2).len()
            &&& (a.0 == b.0 && b.0 <= p) || (b.0 > p && a.0 == b.0 + w.len() + 1)
        }),
    decreases k,
{
    if k > 0 {
        let t2 = without_blank_line(s1, s2);
        lemma_runs(s1, w, s2, (k - 1) as nat);
        let b = run(t2, (k - 1) as nat);
        lemma_step_facts(t2, b.0, b.1);
        if b.0 <= s1.len() {
            lemma_step_before(s1, w, s2, b.0, b.1);
        } else {
            lemma_step_after(s1, w, s2, b.0, b.1);
        }
    }
}

/// Inserting a blank line (blanks, then a newline) after a line changes no
/// item of the token stream, nor where it ends, as long as no string
/// literal is open across that line's end: a blank line emits nothing and
/// leaves the indentation stack as it was.
pub proof fn lemma_blank_line_in_stream(s1: Seq<char>, w: Seq<char>, s2: Seq<char>)
    requires
        all_blank(w),
        no_string_across(without_blank_line(s1, s2), s1.len() as int),
    ensures
        forall|k: nat|
            #[trigger] step_at(with_blank_line(s1, w, s2), k).lexeme == step_at(
                without_blank_line(s1, s2),
                k,
            ).lexeme,
{
    assert forall|k: nat|
        #[trigger] step_at(with_blank_line(s1, w, s2), k).lexeme == step_at(
            without_blank_line(s1, s2),
            k,
        ).lexeme by {
        lemma_runs(s1, w, s2, k);
        let b = run(without_blank_line(s1, s2), k);
        if b.0 <= s1.len() {
            lemma_step_before(s1, w, s2, b.0, b.1);
        } else {
            lemma_step_after(s1, w, s2, b.0, b.1);
        }
    }
}

} // verus!

//! The indentation stack and the offside rule: how the indentation of a new
//! line compares with the levels opened so far.
use vstd::prelude::*;
use crate::token::Lexeme;

verus! {

/// The total indentation depth: the sum of the widths of the open levels.
pub open spec fn seq_sum(s: Seq<usize>) -> int
    decreases s.len(),
{
    if s.len() == 0 {
        0
    } else {
        seq_sum(s.drop_last()) + s.last()
    }
}

/// Every open level has a positive width.
pub open spec fn levels_positive(s: Seq<usize>) -> bool {
    forall|i: int| 0 <= i < s.len() ==> #[trigger] s[i] > 0
}

/// The stack left after closing levels, most recent first, while the depth
/// exceeds `level`.
pub open spec fn dedent_target(s: Seq<usize>, level: int) -> Seq<usize>
    decreases s.len(),
{
    if s.len() > 0 && seq_sum(s) > level {
        dedent_target(s.drop_last(), level)
    } else {
        s
    }
}

/// Whitespace that separates tokens: space, tab and carriage return.
pub open spec fn is_blank(c: char) -> bool {
    c == ' ' || c == '\t' || c == '\r'
}

/// The number of spaces at index `i` and after: the indentation of a line
/// that starts at `i`. Any other character, a tab included, ends the count.
pub open spec fn leading_spaces(t: Seq<char>, i: int) -> int
    decreases t.len() - i,
{
    if 0 <= i < t.len() && t[i] == ' ' {
        1 + leading_spaces(t, i + 1)
    } else {
        0
    }
}

/// Skipping leading blanks and blank lines from index `i` on a line that
/// starts at `k`: the index of the first other character (or the end) and
/// the start of its line.
pub open spec fn line_start(t: Seq<char>, i: int, k: int) -> (int, int)
    decreases t.len() - i,
{
    if 0 <= i < t.len() && is_blank(t[i]) {
        line_start(t, i + 1, k)
    } else if 0 <= i < t.len() && t[i] == '\n' {
        line_start(t, i + 1, i + 1)
    } else {
        (i, k)
    }
}

/// The outcome of the offside rule on the line that starts at some index.
pub struct Offside {
    pub lexeme: Lexeme,
    pub next: int,
    pub stack: Seq<usize>,
}

/// The offside rule for the line that starts at index `i`, blank lines
/// skipped: a deeper line opens one level (its width is pushed), a shallower
/// one closes levels while the depth exceeds its indentation, and a line at
/// the same depth, or the end of the input, changes nothing. A shallower
/// line whose indentation is not the depth of an open level is a layout
/// error, and the stack stays as it was. The indentation counts leading
/// spaces only. `next` is the index of the line's first non-blank
/// character.
pub open spec fn offside(t: Seq<char>, i: int, st: Seq<usize>) -> Offside {
    let (q, k) = line_start(t, i, i);
    let level = leading_spaces(t, k);
    let depth = seq_sum(st);
    if q >= t.len() || level == depth {
        Offside { lexeme: Lexeme::LineEnd, next: q, stack: st }
    } else if level > depth {
        Offside { lexeme: Lexeme::Indent(1), next: q, stack: st.push((level - depth) as usize) }
    } else {
        let rest = dedent_target(st, level);
        if seq_sum(rest) == level {
            Offside { lexeme: Lexeme::Dedent((st.len() - rest.len()) as nat), next: q, stack: rest }
        } else {
            Offside { lexeme: Lexeme::BadDedent(level as nat), next: q, stack: st }
        }
    }
}

pub proof fn lemma_sum_prefix(s: Seq<usize>, k: int)
    requires
        0 <= k <= s.len(),
    ensures
        0 <= seq_sum(s.take(k)) <= seq_sum(s),
    decreases s.len(),
{
    if s.len() > 0 {
        if k == s.len() {
            assert(s.take(k) =~= s);
            assert(s.drop_last().take(k - 1) =~= s.drop_last());
            lemma_sum_prefix(s.drop_last(), k - 1);
        } else {
            assert(s.take(k) =~= s.drop_last().take(k));
            lemma_sum_prefix(s.drop_last(), k);
            assert(s.drop_last().take(s.len() - 1) =~= s.drop_last());
            lemma_sum_prefix(s.drop_last(), s.len() - 1);
        }
    } else {
        assert(s.take(k) =~= s);
    }
}

pub proof fn lemma_dedent_target_shape(s: Seq<usize>, level: int)
    ensures
        dedent_target(s, level).len() <= s.len(),
        dedent_target(s, level) == s.take(dedent_target(s, level).len() as int),
    decreases s.len(),
{
    if s.len() > 0 && seq_sum(s) > level {
        lemma_dedent_target_shape(s.drop_last(), level);
        let r = dedent_target(s.drop_last(), level);
        assert(s.drop_last().take(r.len() as int) =~= s.take(r.len() as int));
    } else {
        assert(s.take(s.len() as int) =~= s);
    }
}

/// The depth of the stack.
pub fn get_indent_level(indent_stack: &Vec<usize>) -> (r: usize)
    requires
        seq_sum(indent_stack@) <= usize::MAX,
    ensures
        r == seq_sum(indent_stack@),
{
    let mut total: usize = 0;
    let mut i: usize = 0;
    while i < indent_stack.len()
        invariant
            i <= indent_stack@.len(),
            seq_sum(indent_stack@) <= usize::MAX,
            total == seq_sum(indent_stack@.take(i as int)),
        decreases indent_stack@.len() - i,
    {
        proof {
            assert(indent_stack@.take(i + 1).drop_last() =~= indent_stack@.take(i as int));
            lemma_sum_prefix(indent_stack@, i + 1);
        }
        total = total + indent_stack[i];
        i = i + 1;
    }
    assert(indent_stack@.take(i as int) =~= indent_stack@);
    total
}

/// Closes levels, most recent first, while the depth exceeds `level`, and
/// returns how many were closed.
pub fn dedent_level(indent_stack: &mut Vec<usize>, level: usize) -> (dedents: usize)
    requires
        seq_sum(old(indent_stack)@) <= usize::MAX,
    ensures
        final(indent_stack)@ == dedent_target(old(indent_stack)@, level as int),
        dedents == old(indent_stack)@.len() - final(indent_stack)@.len(),
{
    let mut sum = get_indent_level(indent_stack);
    let n0 = indent_stack.len();
    proof {
        lemma_dedent_target_shape(indent_stack@, level as int);
    }
    while sum > level
        invariant
            sum == seq_sum(indent_stack@),
            dedent_target(indent_stack@, level as int) == dedent_target(
                old(indent_stack)@,
                level as int,
            ),
            indent_stack@.len() <= n0,
            n0 == old(indent_stack)@.len(),
        decreases indent_stack@.len(),
    {
        assert(indent_stack@.len() > 0);
        let ghost before = indent_stack@;
        let top = indent_stack.pop().unwrap();
        assert(indent_stack@ == before.drop_last());
        proof {
            assert(before.drop_last().take(before.len() - 1) =~= before.drop_last());
            lemma_sum_prefix(before.drop_last(), before.len() - 1);
        }
        sum = sum - top;
    }
    n0 - indent_stack.len()
}

/// Whether closing levels down to `level` lands exactly on that depth.
pub fn dedent_lands(indent_stack: &Vec<usize>, level: usize) -> (r: bool)
    requires
        seq_sum(indent_stack@) <= usize::MAX,
    ensures
        r == (seq_sum(dedent_target(indent_stack@, level as int)) == level),
{
    let ghost s = indent_stack@;
    let mut sum = get_indent_level(indent_stack);
    let mut i = indent_stack.len();
    assert(s.take(i as int) =~= s);
    while i > 0 && sum > level
        invariant
            i <= s.len(),
            s == indent_stack@,
            sum == seq_sum(s.take(i as int)),
            dedent_target(s.take(i as int), level as int) == dedent_target(s, level as int),
        decreases i,
    {
        assert(s.take(i as int).drop_last() =~= s.take(i - 1));
        proof {
            lemma_sum_prefix(s.take(i - 1), i - 1);
            assert(s.take(i - 1).take(i - 1) =~= s.take(i - 1));
        }
        sum = sum - indent_stack[i - 1];
        i = i - 1;
    }
    proof {
        if i == 0 {
            assert(s.take(0) =~= Seq::<usize>::empty());
        }
    }
    sum == level
}

/// Popping down to depth zero closes every level at once: one dedent that
/// counts them all.
pub proof fn lemma_full_dedent(s: Seq<usize>)
    requires
        levels_positive(s),
    ensures
        dedent_target(s, 0).len() == 0,
    decreases s.len(),
{
    if s.len() > 0 {
        assert(s.last() > 0);
        assert(levels_positive(s.drop_last())) by {
            assert forall|i: int| 0 <= i < s.drop_last().len() implies #[trigger] s.drop_last()[i]
                > 0 by {
                assert(s.drop_last()[i] == s[i]);
            }
        }
        assert(s.drop_last().take(s.len() - 1) =~= s.drop_last());
        lemma_sum_prefix(s.drop_last(), s.len() - 1);
        lemma_full_dedent(s.drop_last());
    }
}

proof fn lemma_blank_run(t: Seq<char>, j: int, k: int, m: int)
    requires
        0 <= j <= m < t.len(),
        t[m] == '\n',
        forall|x: int| j <= x < m ==> is_blank(#[trigger] t[x]),
    ensures
        line_start(t, j, k) == line_start(t, m + 1, m + 1),
    decreases m - j,
{
    if j < m {
        lemma_blank_run(t, j + 1, k, m);
    }
}

/// A blank line (blanks, then a newline) is transparent to the offside rule:
/// starting at it gives the same token, stack and resumption point as
/// starting at the line after it. So it changes no level and emits nothing.
pub proof fn lemma_blank_line_ignored(t: Seq<char>, i: int, m: int, st: Seq<usize>)
    requires
        0 <= i <= m < t.len(),
        t[m] == '\n',
        forall|x: int| i <= x < m ==> is_blank(#[trigger] t[x]),
    ensures
        offside(t, i, st) == offside(t, m + 1, st),
{
    lemma_blank_run(t, i, i, m);
}

pub proof fn lemma_shifted_scans(t1: Seq<char>, t2: Seq<char>, base: int, d: int, j: int, k: int)
    requires
        0 <= base <= j,
        base <= k,
        0 <= d,
        t1.len() == t2.len() + d,
        forall|x: int| base <= x < t2.len() ==> #[trigger] t2[x] == t1[x + d],
    ensures
        line_start(t1, j + d, k + d) == (line_start(t2, j, k).0 + d, line_start(t2, j, k).1 + d),
        leading_spaces(t1, j + d) == leading_spaces(t2, j),
    decreases t2.len() - j,
{
    if j < t2.len() {
        assert(t2[j] == t1[j + d]);
        lemma_shifted_scans(t1, t2, base, d, j + 1, k);
        lemma_shifted_scans(t1, t2, base, d, j + 1, j + 1);
    }
}

/// Inserting a blank line (blanks, then a newline) at the start of a line
/// changes neither the offside token nor the stack: only where reading
/// resumes moves by the inserted length.
pub proof fn lemma_blank_line_inserted(p: Seq<char>, b: Seq<char>, rest: Seq<char>, st: Seq<usize>)
    requires
        b.len() > 0,
        b.last() == '\n',
        forall|x: int| 0 <= x < b.len() - 1 ==> is_blank(#[trigger] b[x]),
    ensures
        ({
            let with = offside(p + b + rest, p.len() as int, st);
            let without = offside(p + rest, p.len() as int, st);
            &&& with.lexeme == without.lexeme
            &&& with.stack == without.stack
            &&& with.next == without.next + b.len()
        }),
{
    let t1 = p + b + rest;
    let t2 = p + rest;
    let i = p.len() as int;
    let d = b.len() as int;
    let m = i + d - 1;
    assert(t1[m] == b.last());
    assert forall|x: int| i <= x < m implies is_blank(#[trigger] t1[x]) by {
        assert(t1[x] == b[x - i]);
    }
    lemma_blank_line_ignored(t1, i, m, st);
    assert forall|x: int| i <= x < t2.len() implies #[trigger] t2[x] == t1[x + d] by {
        assert(t2[x] == rest[x - i]);
        assert(t1[x + d] == rest[x - i]);
    }
    lemma_shifted_scans(t1, t2, i, d, i, i);
    let (q, k) = line_start(t2, i, i);
    lemma_line_start_after(t2, i, i);
    lemma_shifted_scans(t1, t2, i, d, k, k);
}

pub proof fn lemma_line_start_after(t: Seq<char>, j: int, k: int)
    requires
        0 <= k <= j,
    ensures
        k <= line_start(t, j, k).1 <= line_start(t, j, k).0,
        j <= line_start(t, j, k).0,
    decreases t.len() - j,
{
    if 0 <= j < t.len() && is_blank(t[j]) {
        lemma_line_start_after(t, j + 1, k);
    } else if 0 <= j < t.len() && t[j] == '\n' {
        lemma_line_start_after(t, j + 1, j + 1);
    }
}

} // verus!

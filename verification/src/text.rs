//! Splitting text into lines and lines into whitespace-separated tokens.
//!
//! `lines_of` follows the usual line-ending conventions: lines are separated
//! by `\n`, a `\r` immediately before a separator is stripped, and a trailing
//! separator does not produce a final empty line.  `tokens_of` yields the
//! maximal runs of non-whitespace characters of a line; empty tokens are
//! never produced.

use vstd::prelude::*;
use vstd::string::StrSliceExecFns;

verus! {

/// Whether `c` has the Unicode `White_Space` property.
pub open spec fn is_space(c: char) -> bool {
    let u = c as u32;
    (0x09 <= u && u <= 0x0d) || u == 0x20 || u == 0x85 || u == 0xa0 || u == 0x1680 || (0x2000 <= u
        && u <= 0x200a) || u == 0x2028 || u == 0x2029 || u == 0x202f || u == 0x205f || u == 0x3000
}

/// Whether `c` has the Unicode `White_Space` property.
pub fn is_space_char(c: char) -> (r: bool)
    ensures
        r == is_space(c),
{
    let u = c as u32;
    (0x09 <= u && u <= 0x0d) || u == 0x20 || u == 0x85 || u == 0xa0 || u == 0x1680 || (0x2000 <= u
        && u <= 0x200a) || u == 0x2028 || u == 0x2029 || u == 0x202f || u == 0x205f || u == 0x3000
}

/// Index of the first whitespace character of `s`, or `s.len()` if there is
/// none.
pub open spec fn find_space(s: Seq<char>) -> int
    decreases s.len(),
{
    if s.len() == 0 {
        0
    } else if is_space(s[0]) {
        0
    } else {
        1 + find_space(s.drop_first())
    }
}

/// Index of the first `\n` of `s`, or `s.len()` if there is none.
pub open spec fn find_newline(s: Seq<char>) -> int
    decreases s.len(),
{
    if s.len() == 0 {
        0
    } else if s[0] == '\n' {
        0
    } else {
        1 + find_newline(s.drop_first())
    }
}

/// `find_space` points at the first whitespace character: everything before
/// it is non-whitespace, and it is within bounds.
pub proof fn lemma_find_space(s: Seq<char>)
    ensures
        0 <= find_space(s) <= s.len(),
        find_space(s) < s.len() ==> is_space(s[find_space(s)]),
        forall|q: int| 0 <= q < find_space(s) ==> !is_space(s[q]),
    decreases s.len(),
{
    if s.len() > 0 && !is_space(s[0]) {
        lemma_find_space(s.drop_first());
        assert forall|q: int| 0 <= q < find_space(s) implies !is_space(s[q]) by {
            if q > 0 {
                assert(!is_space(s.drop_first()[q - 1]));
            }
        }
    }
}

/// A scan that stops at position `e`, with nothing matching before it, finds
/// exactly `e`.
pub proof fn lemma_find_space_at(s: Seq<char>, e: int)
    requires
        0 <= e <= s.len(),
        forall|q: int| 0 <= q < e ==> !is_space(s[q]),
        e < s.len() ==> is_space(s[e]),
    ensures
        find_space(s) == e,
    decreases e,
{
    if e > 0 {
        lemma_find_space_at(s.drop_first(), e - 1);
    }
}

/// A scan that stops at position `e`, with no `\n` before it, finds exactly
/// `e`.
pub proof fn lemma_find_newline_at(s: Seq<char>, e: int)
    requires
        0 <= e <= s.len(),
        forall|q: int| 0 <= q < e ==> s[q] != '\n',
        e < s.len() ==> s[e] == '\n',
    ensures
        find_newline(s) == e,
    decreases e,
{
    if e > 0 {
        lemma_find_newline_at(s.drop_first(), e - 1);
    }
}

/// A line as cut at a separator: a single trailing `\r` is removed, so that
/// `\r\n` endings read like plain `\n` endings.
pub open spec fn strip_cr(l: Seq<char>) -> Seq<char> {
    if l.len() > 0 && l.last() == '\r' {
        l.drop_last()
    } else {
        l
    }
}

/// The lines of `s`: segments between `\n` separators, each with a trailing
/// `\r` stripped; a final segment without a separator is kept verbatim, and
/// a trailing separator yields no extra empty line.
pub open spec fn lines_of(s: Seq<char>) -> Seq<Seq<char>>
    decreases s.len(),
{
    if s.len() == 0 {
        Seq::<Seq<char>>::empty()
    } else {
        let k = find_newline(s);
        if 0 <= k < s.len() {
            seq![strip_cr(s.take(k))] + lines_of(s.skip(k + 1))
        } else {
            seq![s]
        }
    }
}

/// The whitespace-separated tokens of `l`: maximal non-empty runs of
/// non-whitespace characters, in order.
pub open spec fn tokens_of(l: Seq<char>) -> Seq<Seq<char>>
    decreases l.len(),
{
    if l.len() == 0 {
        Seq::<Seq<char>>::empty()
    } else if is_space(l[0]) {
        tokens_of(l.drop_first())
    } else {
        let k = find_space(l);
        if 0 < k <= l.len() {
            seq![l.take(k)] + tokens_of(l.skip(k))
        } else {
            seq![l]
        }
    }
}

/// Empty tokens are never produced: every token is a non-empty run of
/// characters.
pub proof fn lemma_tokens_nonempty(l: Seq<char>)
    ensures
        forall|q: int| 0 <= q < tokens_of(l).len() ==> tokens_of(l)[q].len() > 0,
    decreases l.len(),
{
    if l.len() == 0 {
    } else if is_space(l[0]) {
        lemma_tokens_nonempty(l.drop_first());
        assert(tokens_of(l) == tokens_of(l.drop_first()));
    } else {
        lemma_find_space(l);
        lemma_find_space(l.drop_first());
        let k = find_space(l);
        lemma_tokens_nonempty(l.skip(k));
        assert forall|q: int| 0 <= q < tokens_of(l).len() implies tokens_of(l)[q].len() > 0 by {
            if q == 0 {
                assert(tokens_of(l)[0] == l.take(k));
            } else {
                assert(tokens_of(l)[q] == tokens_of(l.skip(k))[q - 1]);
            }
        }
    }
}

/// Splits text into lines.  Every line is a piece of the text, so no line is
/// longer than the text.
pub fn split_lines(content: &str) -> (ls: Vec<String>)
    ensures
        ls.deep_view() == lines_of(content@),
        forall|q: int| 0 <= q < ls@.len() ==> ls@[q]@.len() <= content@.len(),
{
    let n: usize = content.unicode_len();
    let mut ls: Vec<String> = Vec::new();
    let mut i: usize = 0;
    proof {
        assert(content@.skip(0) =~= content@);
        assert(ls.deep_view() + lines_of(content@) =~= lines_of(content@));
    }
    while i < n
        invariant
            i <= n,
            n == content@.len(),
            ls.deep_view() + lines_of(content@.skip(i as int)) == lines_of(content@),
            forall|q: int| 0 <= q < ls@.len() ==> ls@[q]@.len() <= content@.len(),
        decreases n - i,
    {
        let start: usize = i;
        let mut j: usize = start;
        while j < n
            invariant
                start <= j <= n,
                n == content@.len(),
                forall|q: int| start <= q < j ==> content@[q] != '\n',
            ensures
                start <= j <= n,
                forall|q: int| start <= q < j ==> content@[q] != '\n',
                j < n ==> content@[j as int] == '\n',
            decreases n - j,
        {
            if content.get_char(j) == '\n' {
                break ;
            }
            j = j + 1;
        }
        proof {
            lemma_find_newline_at(content@.skip(start as int), j - start);
        }
        if j < n {
            let e: usize = if j > start && content.get_char(j - 1) == '\r' {
                j - 1
            } else {
                j
            };
            let line = content.substring_char(start, e).to_owned();
            let ghost done = ls.deep_view();
            proof {
                let rest = content@.skip(start as int);
                let k = j - start;
                assert(rest.take(k) =~= content@.subrange(start as int, j as int));
                assert(rest.skip(k + 1) =~= content@.skip(j + 1));
                assert(strip_cr(content@.subrange(start as int, j as int)) =~= content@.subrange(
                    start as int,
                    e as int,
                ));
                assert(lines_of(rest) == seq![line@] + lines_of(content@.skip(j + 1)));
            }
            ls.push(line);
            proof {
                assert(ls.deep_view() =~= done + seq![line@]);
                assert(ls.deep_view() + lines_of(content@.skip(j + 1)) =~= lines_of(content@));
            }
            i = j + 1;
        } else {
            let line = content.substring_char(start, n).to_owned();
            let ghost done = ls.deep_view();
            proof {
                let rest = content@.skip(start as int);
                assert(rest =~= content@.subrange(start as int, n as int));
                assert(lines_of(rest) == seq![line@]);
            }
            ls.push(line);
            proof {
                assert(ls.deep_view() =~= done + seq![line@]);
                assert(content@.skip(n as int) =~= Seq::<char>::empty());
                assert(ls.deep_view() + lines_of(content@.skip(n as int)) =~= lines_of(content@));
            }
            i = n;
        }
    }
    proof {
        assert(content@.skip(n as int) =~= Seq::<char>::empty());
        assert(ls.deep_view() + lines_of(content@.skip(n as int)) =~= ls.deep_view());
    }
    ls
}

/// Splits a line into its whitespace-separated tokens.  Every token is a
/// piece of the line, so no token is longer than the line.
pub fn split_tokens(line: &str) -> (toks: Vec<String>)
    ensures
        toks.deep_view() == tokens_of(line@),
        forall|q: int| 0 <= q < toks@.len() ==> toks@[q]@.len() <= line@.len(),
{
    let n: usize = line.unicode_len();
    let mut toks: Vec<String> = Vec::new();
    let mut i: usize = 0;
    proof {
        assert(line@.skip(0) =~= line@);
        assert(toks.deep_view() + tokens_of(line@) =~= tokens_of(line@));
    }
    while i < n
        invariant
            i <= n,
            n == line@.len(),
            toks.deep_view() + tokens_of(line@.skip(i as int)) == tokens_of(line@),
            forall|q: int| 0 <= q < toks@.len() ==> toks@[q]@.len() <= line@.len(),
        decreases n - i,
    {
        let c = line.get_char(i);
        if is_space_char(c) {
            proof {
                assert(line@.skip(i as int).drop_first() =~= line@.skip(i + 1));
            }
            i = i + 1;
        } else {
            let start: usize = i;
            let mut j: usize = start + 1;
            while j < n
                invariant
                    start < j <= n,
                    n == line@.len(),
                    forall|q: int| start <= q < j ==> !is_space(line@[q]),
                ensures
                    start < j <= n,
                    forall|q: int| start <= q < j ==> !is_space(line@[q]),
                    j < n ==> is_space(line@[j as int]),
                decreases n - j,
            {
                if is_space_char(line.get_char(j)) {
                    break ;
                }
                j = j + 1;
            }
            let tok = line.substring_char(start, j).to_owned();
            let ghost done = toks.deep_view();
            proof {
                let rest = line@.skip(start as int);
                lemma_find_space_at(rest, j - start);
                assert(rest.take(j - start) =~= line@.subrange(start as int, j as int));
                assert(rest.skip(j - start) =~= line@.skip(j as int));
                assert(tokens_of(rest) == seq![tok@] + tokens_of(line@.skip(j as int)));
            }
            toks.push(tok);
            proof {
                assert(toks.deep_view() =~= done + seq![tok@]);
                assert(toks.deep_view() + tokens_of(line@.skip(j as int)) =~= tokens_of(line@));
            }
            i = j;
        }
    }
    proof {
        assert(line@.skip(n as int) =~= Seq::<char>::empty());
        assert(toks.deep_view() + tokens_of(line@.skip(n as int)) =~= toks.deep_view());
    }
    toks
}

} // verus!

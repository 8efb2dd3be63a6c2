//! Searching a quotation for a term: the quotation is split into lines at
//! newline characters, and the first line containing the term is reported
//! as `"<line number>: <line>"`, with line numbers starting at one. When no
//! line contains the term the result is the empty string.

use crate::text::dec_rep;
use crate::text::u64_to_string;
use vstd::prelude::*;
use vstd::string::StrSliceExecFns;
use vstd::string::StringExecFns;

verus! {

/// `term` occurs in `line` starting at offset `off`.
pub open spec fn contains_at(line: Seq<char>, term: Seq<char>, off: int) -> bool {
    &&& 0 <= off
    &&& off + term.len() <= line.len()
    &&& line.subrange(off, off + term.len()) == term
}

/// `term` occurs somewhere in `line`.
pub open spec fn line_contains(line: Seq<char>, term: Seq<char>) -> bool {
    exists|off: int| contains_at(line, term, off)
}

/// Position of the first newline in `s`, or `s.len()` if there is none.
pub open spec fn first_nl(s: Seq<char>) -> nat
    decreases s.len(),
{
    if s.len() == 0 {
        0
    } else if s[0] == '\n' {
        0
    } else {
        (1 + first_nl(s.drop_first())) as nat
    }
}

/// The lines of `s`: the segments between newline characters, in order.
/// A trailing newline yields a final empty line, and the empty sequence
/// has one empty line, matching an eager splitter.
pub open spec fn split_lines(s: Seq<char>) -> Seq<Seq<char>>
    decreases s.len(),
{
    let p = first_nl(s) as int;
    if p >= s.len() {
        seq![s]
    } else {
        seq![s.subrange(0, p)] + split_lines(s.subrange(p + 1, s.len() as int))
    }
}

/// The report for the first of `lines` that contains `term`, numbering
/// the lines from `n` upward; empty when none does.
pub open spec fn first_hit(lines: Seq<Seq<char>>, term: Seq<char>, n: nat) -> Seq<char>
    decreases lines.len(),
{
    if lines.len() == 0 {
        Seq::empty()
    } else if line_contains(lines[0], term) {
        dec_rep(n) + ": "@ + lines[0]
    } else {
        first_hit(lines.drop_first(), term, (n + 1) as nat)
    }
}

/// What searching `quote` for `search_term` reports.
pub open spec fn find_term_spec(search_term: Seq<char>, quote: Seq<char>) -> Seq<char> {
    first_hit(split_lines(quote), search_term, 1)
}

/// `first_nl` is in range, lands on a newline when in range, and nothing
/// before it is a newline.
proof fn lemma_first_nl(s: Seq<char>)
    ensures
        first_nl(s) <= s.len(),
        first_nl(s) < s.len() ==> s[first_nl(s) as int] == '\n',
        forall|x: int| 0 <= x < first_nl(s) ==> #[trigger] s[x] != '\n',
    decreases s.len(),
{
    if s.len() > 0 && s[0] != '\n' {
        lemma_first_nl(s.drop_first());
        assert forall|x: int| 0 <= x < first_nl(s) implies #[trigger] s[x] != '\n' by {
            if x > 0 {
                assert(s.drop_first()[x - 1] == s[x]);
            }
        }
    }
}

/// Whether `term` occurs in `line`, scanning offsets left to right.
pub fn contains_term(line: &str, term: &str) -> (r: bool)
    ensures
        r == line_contains(line@, term@),
{
    let ll = line.unicode_len();
    let tl = term.unicode_len();
    if tl > ll {
        proof {
            assert forall|off: int| !contains_at(line@, term@, off) by {}
        }
        return false;
    }
    if tl == 0 {
        proof {
            assert(line@.subrange(0, 0) =~= term@);
            assert(contains_at(line@, term@, 0));
        }
        return true;
    }
    let mut off: usize = 0;
    while off <= ll - tl
        invariant
            ll == line@.len(),
            tl == term@.len(),
            0 < tl <= ll,
            off <= ll - tl + 1,
            forall|o: int| 0 <= o < off ==> !contains_at(line@, term@, o),
        decreases ll - tl + 1 - off,
    {
        let mut m: usize = 0;
        let mut mismatch = false;
        while m < tl
            invariant
                ll == line@.len(),
                tl == term@.len(),
                0 < tl <= ll,
                off <= ll - tl,
                m <= tl,
                !mismatch ==> forall|x: int| 0 <= x < m ==> line@[off + x] == term@[x],
                mismatch ==> !contains_at(line@, term@, off as int),
            decreases tl - m,
        {
            let cl = line.get_char(off + m);
            let ct = term.get_char(m);
            if cl != ct {
                proof {
                    if contains_at(line@, term@, off as int) {
                        assert(line@.subrange(off as int, off + tl)[m as int] == term@[m as int]);
                    }
                }
                mismatch = true;
                m = tl;
            } else {
                m = m + 1;
            }
        }
        if !mismatch {
            proof {
                assert(line@.subrange(off as int, off + tl) =~= term@);
                assert(contains_at(line@, term@, off as int));
            }
            return true;
        }
        off = off + 1;
    }
    proof {
        assert forall|o: int| !contains_at(line@, term@, o) by {
            if 0 <= o <= ll - tl {
                assert(!contains_at(line@, term@, o));
            }
        }
    }
    false
}

/// Reports the first line of `quote` that contains `search_term`, as
/// `"<number>: <line>"` with lines numbered from one, or the empty string
/// when no line contains it.
pub fn find_term(search_term: &str, quote: &str) -> (res: String)
    requires
        quote@.len() < usize::MAX,
    ensures
        res@ == find_term_spec(search_term@, quote@),
{
    let n = quote.unicode_len();
    let mut start: usize = 0;
    let mut line_no: u64 = 1;
    proof {
        assert(quote@.subrange(0, n as int) =~= quote@);
    }
    loop
        invariant
            n == quote@.len(),
            n < usize::MAX,
            start <= n,
            1 <= line_no <= start + 1,
            find_term_spec(search_term@, quote@) == first_hit(
                split_lines(quote@.subrange(start as int, n as int)),
                search_term@,
                line_no as nat,
            ),
        decreases n - start,
    {
        let ghost rest = quote@.subrange(start as int, n as int);
        let mut end: usize = start;
        while end < n && quote.get_char(end) != '\n'
            invariant
                n == quote@.len(),
                start <= end <= n,
                forall|x: int| start <= x < end ==> #[trigger] quote@[x] != '\n',
            decreases n - end,
        {
            end = end + 1;
        }
        proof {
            lemma_first_nl(rest);
            assert forall|x: int| 0 <= x < end - start implies #[trigger] rest[x] != '\n' by {
                assert(rest[x] == quote@[start + x]);
            }
            if end < n {
                assert(rest[end - start] == quote@[end as int]);
            }
            assert(first_nl(rest) == end - start);
        }
        let line = quote.substring_char(start, end);
        proof {
            assert(line@ =~= rest.subrange(0, (end - start) as int));
        }
        if contains_term(line, search_term) {
            let mut res = u64_to_string(line_no);
            res.append(": ");
            res.append(line);
            proof {
                if end - start < rest.len() {
                    assert(split_lines(rest)[0] == line@);
                } else {
                    assert(line@ =~= rest);
                    assert(split_lines(rest)[0] == line@);
                }
            }
            return res;
        }
        if end == n {
            proof {
                assert(line@ =~= rest);
                assert(split_lines(rest) =~= seq![rest]);
                assert(split_lines(rest).drop_first() =~= Seq::<Seq<char>>::empty());
                assert(first_hit(
                    Seq::<Seq<char>>::empty(),
                    search_term@,
                    (line_no + 1) as nat,
                ) == Seq::<char>::empty());
            }
            return String::new();
        }
        proof {
            let tail = rest.subrange((end - start + 1) as int, rest.len() as int);
            assert(split_lines(rest) == seq![rest.subrange(0, (end - start) as int)] + split_lines(
                tail,
            ));
            assert(split_lines(rest)[0] == line@);
            assert(split_lines(rest).drop_first() =~= split_lines(tail));
            assert(tail =~= quote@.subrange((end + 1) as int, n as int));
        }
        start = end + 1;
        line_no = line_no + 1;
    }
}

} // verus!

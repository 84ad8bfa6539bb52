//! Plain text facts and operations: substring containment, equality of
//! strings, and splitting text into lines.

use vstd::prelude::*;

verus! {

/// `needle` occurs in `hay` as the run of characters starting at position `i`.
pub open spec fn is_match_at(hay: Seq<char>, needle: Seq<char>, i: int) -> bool {
    &&& 0 <= i
    &&& i + needle.len() <= hay.len()
    &&& hay.subrange(i, i + needle.len() as int) == needle
}

/// `needle` occurs somewhere in `hay` as a contiguous run of characters.
/// The empty sequence occurs in every sequence, at position zero.
pub open spec fn contains_seq(hay: Seq<char>, needle: Seq<char>) -> bool {
    exists|i: int| is_match_at(hay, needle, i)
}

/// Whether the characters of `a` and `b` are equal.
pub fn str_eq(a: &str, b: &str) -> (r: bool)
    ensures
        r == (a@ == b@),
{
    let n: usize = a.unicode_len();
    let m: usize = b.unicode_len();
    if n != m {
        return false;
    }
    let mut i: usize = 0;
    while i < n
        invariant
            n == a@.len(),
            n == b@.len(),
            i <= n,
            forall|k: int| 0 <= k < i ==> a@[k] == b@[k],
        decreases n - i,
    {
        if a.get_char(i) != b.get_char(i) {
            return false;
        }
        i = i + 1;
    }
    proof {
        assert(a@ =~= b@);
    }
    true
}

/// Whether `needle` occurs in `hay` at position `i` exactly.
fn match_at(hay: &str, needle: &str, i: usize) -> (r: bool)
    requires
        i + needle@.len() <= hay@.len(),
    ensures
        r == is_match_at(hay@, needle@, i as int),
{
    let n: usize = hay.unicode_len();
    let m: usize = needle.unicode_len();
    let mut j: usize = 0;
    while j < m
        invariant
            n == hay@.len(),
            m == needle@.len(),
            i + m <= n,
            j <= m,
            forall|l: int| 0 <= l < j ==> hay@[i + l] == needle@[l],
        decreases m - j,
    {
        if hay.get_char(i + j) != needle.get_char(j) {
            proof {
                assert(hay@.subrange(i as int, i + m)[j as int] == hay@[i + j]);
            }
            return false;
        }
        j = j + 1;
    }
    proof {
        assert(hay@.subrange(i as int, i + m) =~= needle@);
    }
    true
}

/// Whether `hay` contains `needle` as a substring.
pub fn contains_substring(hay: &str, needle: &str) -> (r: bool)
    ensures
        r == contains_seq(hay@, needle@),
{
    let n: usize = hay.unicode_len();
    let m: usize = needle.unicode_len();
    if m > n {
        proof {
            assert(forall|k: int| !(#[trigger] is_match_at(hay@, needle@, k)));
        }
        return false;
    }
    if m == 0 {
        proof {
            assert(hay@.subrange(0, 0) =~= needle@);
            assert(is_match_at(hay@, needle@, 0));
        }
        return true;
    }
    let mut i: usize = 0;
    while i <= n - m
        invariant
            n == hay@.len(),
            m == needle@.len(),
            1 <= m <= n,
            i <= n - m + 1,
            forall|k: int| 0 <= k < i ==> !(#[trigger] is_match_at(hay@, needle@, k)),
        decreases n - m + 1 - i,
    {
        if match_at(hay, needle, i) {
            assert(is_match_at(hay@, needle@, i as int));
            return true;
        }
        i = i + 1;
    }
    proof {
        assert(forall|k: int| !(#[trigger] is_match_at(hay@, needle@, k)));
    }
    false
}

/// Position of the first line feed in `s` at or after `i`, or `s.len()` when
/// there is none.
pub open spec fn first_nl_from(s: Seq<char>, i: int) -> int
    decreases s.len() - i,
{
    if i < 0 || i >= s.len() {
        s.len() as int
    } else if s[i] == '\n' {
        i
    } else {
        first_nl_from(s, i + 1)
    }
}

/// What `first_nl_from` returns: a position within bounds, holding a line
/// feed unless it is the end, with no line feed anywhere before it.
pub proof fn lemma_first_nl_from(s: Seq<char>, i: int)
    requires
        0 <= i <= s.len(),
    ensures
        i <= first_nl_from(s, i) <= s.len(),
        first_nl_from(s, i) < s.len() ==> s[first_nl_from(s, i)] == '\n',
        forall|k: int| i <= k < first_nl_from(s, i) ==> s[k] != '\n',
    decreases s.len() - i,
{
    if i < s.len() && s[i] != '\n' {
        lemma_first_nl_from(s, i + 1);
    }
}

/// A line as split at a line feed, with a carriage return that preceded the
/// line feed removed.
pub open spec fn strip_cr(l: Seq<char>) -> Seq<char> {
    if l.len() > 0 && l[l.len() - 1] == '\r' {
        l.drop_last()
    } else {
        l
    }
}

/// The lines of `s` from position `from` on: segments split at line feeds,
/// a carriage return directly before a line feed removed, and a final
/// segment without a line feed kept as a line of its own. Text that ends
/// with a line break yields no extra empty line.
pub open spec fn spec_lines_from(s: Seq<char>, from: int) -> Seq<Seq<char>>
    decreases s.len() - from,
{
    if from < 0 || from >= s.len() {
        Seq::empty()
    } else {
        let k = first_nl_from(s, from);
        if from <= k < s.len() {
            seq![strip_cr(s.subrange(from, k))] + spec_lines_from(s, k + 1)
        } else {
            seq![s.subrange(from, s.len() as int)]
        }
    }
}

/// The lines of `s`.
pub open spec fn spec_lines(s: Seq<char>) -> Seq<Seq<char>> {
    spec_lines_from(s, 0)
}

/// The views of a list of string slices.
pub open spec fn lines_view(ls: Seq<&str>) -> Seq<Seq<char>> {
    Seq::new(ls.len(), |i: int| ls[i]@)
}

/// Splits `s` into its lines: split at line feeds, a carriage return
/// directly before a line feed removed, a final segment without a line
/// feed kept, and no extra empty line after a final line break.
pub fn split_lines<'a>(s: &'a str) -> (r: Vec<&'a str>)
    ensures
        lines_view(r@) == spec_lines(s@),
{
    let n: usize = s.unicode_len();
    let mut r: Vec<&'a str> = Vec::new();
    let mut start: usize = 0;
    while start < n
        invariant
            n == s@.len(),
            start <= n,
            spec_lines(s@) == lines_view(r@) + spec_lines_from(s@, start as int),
        decreases n - start,
    {
        let ghost prev = r@;
        let ghost from: int = start as int;
        // scan for the next line feed
        let mut i: usize = start;
        let mut found: bool = false;
        while !found && i < n
            invariant
                n == s@.len(),
                start <= i <= n,
                forall|k: int| start <= k < i ==> s@[k] != '\n',
                found ==> i < n && s@[i as int] == '\n',
            decreases n - i, (if found { 0int } else { 1int }),
        {
            if s.get_char(i) == '\n' {
                found = true;
            } else {
                i = i + 1;
            }
        }
        proof {
            lemma_first_nl_from(s@, from);
            if found {
                assert(first_nl_from(s@, from) == i) by {
                    if first_nl_from(s@, from) > i {
                        assert(s@[i as int] != '\n');
                    }
                };
            } else {
                assert(first_nl_from(s@, from) == n) by {
                    if first_nl_from(s@, from) < n {
                        assert(s@[first_nl_from(s@, from)] != '\n');
                    }
                };
            }
        }
        if found {
            let line_end: usize = if i > start && s.get_char(i - 1) == '\r' {
                i - 1
            } else {
                i
            };
            let line = s.substring_char(start, line_end);
            proof {
                let seg = s@.subrange(from, i as int);
                if i > start && s@[i - 1] == '\r' {
                    assert(seg.len() > 0 && seg[seg.len() - 1] == '\r');
                    assert(seg.drop_last() =~= s@.subrange(from, i - 1));
                    assert(line@ == strip_cr(seg));
                } else {
                    if seg.len() > 0 {
                        assert(seg[seg.len() - 1] == s@[i - 1]);
                    }
                    assert(line@ == strip_cr(seg));
                }
                assert(spec_lines_from(s@, from) == seq![strip_cr(seg)] + spec_lines_from(
                    s@,
                    i + 1,
                ));
                assert(lines_view(prev.push(line)) =~= lines_view(prev) + seq![line@]);
                assert(lines_view(prev) + seq![strip_cr(seg)] + spec_lines_from(s@, i + 1)
                    =~= lines_view(prev) + (seq![strip_cr(seg)] + spec_lines_from(s@, i + 1)));
            }
            r.push(line);
            start = i + 1;
        } else {
            let line = s.substring_char(start, n);
            proof {
                assert(spec_lines_from(s@, from) =~= seq![s@.subrange(from, n as int)]);
                assert(lines_view(prev.push(line)) =~= lines_view(prev) + seq![line@]);
                assert(spec_lines_from(s@, n as int) =~= Seq::<Seq<char>>::empty());
                assert(lines_view(prev) + seq![line@] + spec_lines_from(s@, n as int)
                    =~= lines_view(prev) + seq![line@]);
            }
            r.push(line);
            start = n;
        }
    }
    proof {
        assert(spec_lines_from(s@, n as int) =~= Seq::<Seq<char>>::empty());
        assert(lines_view(r@) + Seq::<Seq<char>>::empty() =~= lines_view(r@));
    }
    r
}

} // verus!

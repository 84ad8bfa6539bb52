//! The matcher: which lines of a text contain the query, exactly or after
//! case folding, each paired with its 0-based line index.

use vstd::prelude::*;

use crate::fold::{ascii_lower_char, ascii_lower_seq, lower_of, to_lower};
use crate::text::{contains_seq, contains_substring, is_match_at, lines_view, spec_lines,
    split_lines};

verus! {

/// Whether one line matches the query. An exact-case match asks for the
/// query as a substring; a folded match asks for the folded query as a
/// substring of the folded line.
pub open spec fn line_matches(line: Seq<char>, query: Seq<char>, case_sensitive: bool) -> bool {
    if case_sensitive {
        contains_seq(line, query)
    } else {
        contains_seq(lower_of(line), lower_of(query))
    }
}

/// The matching lines among `lines`, in order, each paired with its
/// 0-based index: no line is skipped and no index repeats.
pub open spec fn spec_matches(lines: Seq<Seq<char>>, query: Seq<char>, case_sensitive: bool) -> Seq<
    (Seq<char>, int),
>
    decreases lines.len(),
{
    if lines.len() == 0 {
        Seq::empty()
    } else {
        let prefix = spec_matches(lines.drop_last(), query, case_sensitive);
        if line_matches(lines.last(), query, case_sensitive) {
            prefix.push((lines.last(), lines.len() - 1))
        } else {
            prefix
        }
    }
}

/// Every line of `lines`, in order, paired with its index.
pub open spec fn all_lines_indexed(lines: Seq<Seq<char>>) -> Seq<(Seq<char>, int)> {
    Seq::new(lines.len(), |i: int| (lines[i], i))
}

/// The views of a list of matched lines with their indices.
pub open spec fn matches_view(ms: Seq<(&str, usize)>) -> Seq<(Seq<char>, int)> {
    Seq::new(ms.len(), |j: int| (ms[j].0@, ms[j].1 as int))
}

/// When every line matches, the match list is every line in order.
pub proof fn lemma_all_lines_match(lines: Seq<Seq<char>>, query: Seq<char>, case_sensitive: bool)
    requires
        forall|i: int| 0 <= i < lines.len() ==> line_matches(#[trigger] lines[i], query, case_sensitive),
    ensures
        spec_matches(lines, query, case_sensitive) == all_lines_indexed(lines),
    decreases lines.len(),
{
    if lines.len() == 0 {
        assert(spec_matches(lines, query, case_sensitive) =~= all_lines_indexed(lines));
    } else {
        let dl = lines.drop_last();
        assert forall|i: int| 0 <= i < dl.len() implies line_matches(
            #[trigger] dl[i],
            query,
            case_sensitive,
        ) by {
            assert(dl[i] == lines[i]);
        };
        lemma_all_lines_match(dl, query, case_sensitive);
        assert(lines.last() == lines[lines.len() - 1]);
        assert(all_lines_indexed(lines) =~= all_lines_indexed(dl).push(
            (lines.last(), lines.len() - 1),
        ));
    }
}

/// Every match reports a line of the text: its index lies within the line
/// list, and the line recorded is the line at that index.
pub proof fn lemma_match_index_bound(
    lines: Seq<Seq<char>>,
    query: Seq<char>,
    case_sensitive: bool,
    k: int,
)
    requires
        0 <= k < spec_matches(lines, query, case_sensitive).len(),
    ensures
        0 <= spec_matches(lines, query, case_sensitive)[k].1 < lines.len(),
        spec_matches(lines, query, case_sensitive)[k].0 == lines[spec_matches(
            lines,
            query,
            case_sensitive,
        )[k].1],
    decreases lines.len(),
{
    let ms = spec_matches(lines, query, case_sensitive);
    let pre = spec_matches(lines.drop_last(), query, case_sensitive);
    if k < pre.len() {
        lemma_match_index_bound(lines.drop_last(), query, case_sensitive, k);
        assert(lines.drop_last()[pre[k].1] == lines[pre[k].1]);
    } else {
        assert(ms[k] == (lines.last(), lines.len() - 1));
    }
}

/// Matches come in strictly increasing line order: no index repeats and no
/// later line is reported before an earlier one.
pub proof fn lemma_match_indices_increase(
    lines: Seq<Seq<char>>,
    query: Seq<char>,
    case_sensitive: bool,
    i: int,
    j: int,
)
    requires
        0 <= i < j < spec_matches(lines, query, case_sensitive).len(),
    ensures
        spec_matches(lines, query, case_sensitive)[i].1 < spec_matches(
            lines,
            query,
            case_sensitive,
        )[j].1,
    decreases lines.len(),
{
    let ms = spec_matches(lines, query, case_sensitive);
    let pre = spec_matches(lines.drop_last(), query, case_sensitive);
    if j < pre.len() {
        lemma_match_indices_increase(lines.drop_last(), query, case_sensitive, i, j);
    } else {
        assert(ms[j] == (lines.last(), lines.len() - 1));
        lemma_match_index_bound(lines.drop_last(), query, case_sensitive, i);
    }
}

/// A substring match survives any character-by-character rewriting of both
/// the text and the query.
pub proof fn lemma_contains_map(hay: Seq<char>, needle: Seq<char>, f: spec_fn(char) -> char)
    requires
        contains_seq(hay, needle),
    ensures
        contains_seq(hay.map_values(f), needle.map_values(f)),
{
    let i = choose|i: int| is_match_at(hay, needle, i);
    let mhay = hay.map_values(f);
    let mneedle = needle.map_values(f);
    assert(mhay.subrange(i, i + mneedle.len() as int) =~= mneedle) by {
        assert forall|j: int| 0 <= j < needle.len() implies mhay[i + j] == mneedle[j] by {
            assert(hay.subrange(i, i + needle.len() as int)[j] == hay[i + j]);
        };
    };
    assert(is_match_at(mhay, mneedle, i));
}

/// Case-fold symmetry: every line matched with the exact case is also
/// matched after folding, on text and query whose folding rewrites each
/// character in place, as it does on ASCII text.
pub proof fn lemma_case_fold_symmetric(lines: Seq<Seq<char>>, query: Seq<char>, j: int)
    requires
        lower_of(query) == ascii_lower_seq(query),
        forall|i: int| 0 <= i < lines.len() ==> lower_of(#[trigger] lines[i]) == ascii_lower_seq(
            lines[i],
        ),
        0 <= j < spec_matches(lines, query, true).len(),
    ensures
        spec_matches(lines, query, false).contains(spec_matches(lines, query, true)[j]),
    decreases lines.len(),
{
    let cs_ms = spec_matches(lines, query, true);
    let ci_ms = spec_matches(lines, query, false);
    let dl = lines.drop_last();
    let pre_cs = spec_matches(dl, query, true);
    let pre_ci = spec_matches(dl, query, false);
    assert(lines.len() > 0);
    assert forall|i: int| 0 <= i < dl.len() implies lower_of(#[trigger] dl[i]) == ascii_lower_seq(
        dl[i],
    ) by {
        assert(dl[i] == lines[i]);
    };
    assert(lines.last() == lines[lines.len() - 1]);
    if j < pre_cs.len() {
        lemma_case_fold_symmetric(dl, query, j);
        let x = pre_cs[j];
        assert(cs_ms[j] == x);
        let w = choose|k: int| 0 <= k < pre_ci.len() && pre_ci[k] == x;
        if line_matches(lines.last(), query, false) {
            assert(ci_ms[w] == x);
        }
        assert(ci_ms.contains(x));
    } else {
        assert(line_matches(lines.last(), query, true));
        let f = |c: char| ascii_lower_char(c);
        lemma_contains_map(lines.last(), query, f);
        assert(lines.last().map_values(f) =~= ascii_lower_seq(lines.last()));
        assert(query.map_values(f) =~= ascii_lower_seq(query));
        assert(line_matches(lines.last(), query, false));
        assert(cs_ms[j] == (lines.last(), lines.len() - 1));
        assert(ci_ms == pre_ci.push((lines.last(), lines.len() - 1)));
        assert(ci_ms[ci_ms.len() - 1] == cs_ms[j]);
        assert(ci_ms.contains(cs_ms[j]));
    }
}

/// The lines of `contents` that contain `query`, in order of their 0-based
/// line indices. With `case_sensitive` the query must occur exactly; without
/// it both sides are folded to lowercase first. An empty query matches every
/// line.
pub fn find_matches<'a>(contents: &'a str, query: &str, case_sensitive: bool) -> (r: Vec<
    (&'a str, usize),
>)
    ensures
        matches_view(r@) == spec_matches(spec_lines(contents@), query@, case_sensitive),
        query@.len() == 0 ==> matches_view(r@) == all_lines_indexed(spec_lines(contents@)),
{
    let lines = split_lines(contents);
    let ghost gl = spec_lines(contents@);
    let q_low: String = if case_sensitive {
        String::new()
    } else {
        to_lower(query)
    };
    let mut r: Vec<(&'a str, usize)> = Vec::new();
    let mut idx: usize = 0;
    while idx < lines.len()
        invariant
            lines_view(lines@) == gl,
            gl == spec_lines(contents@),
            idx <= lines@.len(),
            !case_sensitive ==> q_low@ == lower_of(query@),
            !case_sensitive && query@.len() == 0 ==> q_low@.len() == 0,
            matches_view(r@) == spec_matches(gl.subrange(0, idx as int), query@, case_sensitive),
        decreases lines@.len() - idx,
    {
        let line = lines[idx];
        proof {
            assert(line@ == lines_view(lines@)[idx as int]);
        }
        let hit: bool = if case_sensitive {
            contains_substring(line, query)
        } else {
            let l_low = to_lower(line);
            contains_substring(l_low.as_str(), q_low.as_str())
        };
        proof {
            assert(hit == line_matches(gl[idx as int], query@, case_sensitive));
            let pre1 = gl.subrange(0, idx + 1);
            assert(pre1.drop_last() =~= gl.subrange(0, idx as int));
            assert(pre1.last() == gl[idx as int]);
        }
        let ghost prev = r@;
        if hit {
            r.push((line, idx));
            proof {
                assert(matches_view(prev.push((line, idx))) =~= matches_view(prev).push(
                    (line@, idx as int),
                ));
            }
        }
        idx = idx + 1;
    }
    proof {
        assert(gl.subrange(0, gl.len() as int) =~= gl);
        if query@.len() == 0 {
            assert forall|i: int| 0 <= i < gl.len() implies line_matches(
                #[trigger] gl[i],
                query@,
                case_sensitive,
            ) by {
                if case_sensitive {
                    assert(gl[i].subrange(0, 0) =~= query@);
                    assert(is_match_at(gl[i], query@, 0));
                } else {
                    assert(lower_of(gl[i]).subrange(0, 0) =~= lower_of(query@));
                    assert(is_match_at(lower_of(gl[i]), lower_of(query@), 0));
                }
            };
            lemma_all_lines_match(gl, query@, case_sensitive);
        }
    }
    r
}

} // verus!

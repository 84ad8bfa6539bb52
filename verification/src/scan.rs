//! The scan driver: runs the matcher over each file of the list, keeps one
//! outcome per file, and tallies the total match count. One unreadable file
//! never stops a run; it contributes no matches.

use vstd::prelude::*;

use crate::matcher::{find_matches, matches_view, spec_matches};
use crate::text::spec_lines;

verus! {

/// One matching line: the file it came from, the line itself, and its
/// 0-based position in that file.
pub struct MatchRecord {
    pub path: String,
    pub line: String,
    pub line_index: usize,
}

/// What scanning one file yielded: its match records, or nothing because
/// the file could not be read.
pub enum ScanOutcome {
    Scanned(Vec<MatchRecord>),
    Unreadable,
}

/// The mathematical content of one match record.
pub open spec fn record_view(r: MatchRecord) -> (Seq<char>, Seq<char>, int) {
    (r.path@, r.line@, r.line_index as int)
}

/// The mathematical content of a list of match records.
pub open spec fn records_view(rs: Seq<MatchRecord>) -> Seq<(Seq<char>, Seq<char>, int)> {
    Seq::new(rs.len(), |i: int| record_view(rs[i]))
}

/// The mathematical content of one file's outcome.
pub open spec fn outcome_view(o: ScanOutcome) -> Option<Seq<(Seq<char>, Seq<char>, int)>> {
    match o {
        ScanOutcome::Scanned(rs) => Some(records_view(rs@)),
        ScanOutcome::Unreadable => None,
    }
}

/// The matcher's line-index pairs, each tagged with the file's path.
pub open spec fn with_path(path: Seq<char>, ms: Seq<(Seq<char>, int)>) -> Seq<
    (Seq<char>, Seq<char>, int),
> {
    Seq::new(ms.len(), |i: int| (path, ms[i].0, ms[i].1))
}

/// The text a file handed in, if it was readable.
pub open spec fn opt_view(o: Option<String>) -> Option<Seq<char>> {
    match o {
        Some(s) => Some(s@),
        None => None,
    }
}

/// What scanning one file must yield: nothing for an unreadable file, and
/// otherwise exactly the matching lines of its text, in index order, tagged
/// with its path.
pub open spec fn expected_outcome(
    path: Seq<char>,
    contents: Option<Seq<char>>,
    query: Seq<char>,
    case_sensitive: bool,
) -> Option<Seq<(Seq<char>, Seq<char>, int)>> {
    match contents {
        Some(c) => Some(with_path(path, spec_matches(spec_lines(c), query, case_sensitive))),
        None => None,
    }
}

/// Scans one file, given its text or `None` when it could not be read.
pub fn scan_file(path: &String, contents: &Option<String>, query: &String, case_sensitive: bool) -> (r:
    ScanOutcome)
    ensures
        outcome_view(r) == expected_outcome(path@, opt_view(*contents), query@, case_sensitive),
{
    match contents {
        Option::None => ScanOutcome::Unreadable,
        Option::Some(c) => {
            let ms = find_matches(c.as_str(), query.as_str(), case_sensitive);
            let ghost expected = with_path(
                path@,
                spec_matches(spec_lines(c@), query@, case_sensitive),
            );
            let mut rs: Vec<MatchRecord> = Vec::new();
            let mut i: usize = 0;
            while i < ms.len()
                invariant
                    expected == with_path(path@, matches_view(ms@)),
                    i <= ms@.len(),
                    records_view(rs@) == expected.subrange(0, i as int),
                decreases ms@.len() - i,
            {
                let m = ms[i];
                let rec = MatchRecord { path: path.clone(), line: m.0.to_owned(), line_index: m.1 };
                proof {
                    let prev = rs@;
                    assert(record_view(rec) == expected[i as int]);
                    assert(records_view(prev.push(rec)) =~= records_view(prev).push(
                        record_view(rec),
                    ));
                    assert(expected.subrange(0, i + 1) =~= expected.subrange(0, i as int).push(
                        expected[i as int],
                    ));
                }
                rs.push(rec);
                i = i + 1;
            }
            proof {
                assert(expected.subrange(0, expected.len() as int) =~= expected);
            }
            ScanOutcome::Scanned(rs)
        },
    }
}

/// Scans every file of the list, in list order: one outcome per file.
pub fn scan_files(
    paths: &Vec<String>,
    contents: &Vec<Option<String>>,
    query: &String,
    case_sensitive: bool,
) -> (r: Vec<ScanOutcome>)
    requires
        paths@.len() == contents@.len(),
    ensures
        r@.len() == paths@.len(),
        forall|i: int|
            0 <= i < r@.len() ==> outcome_view(#[trigger] r@[i]) == expected_outcome(
                paths@[i]@,
                opt_view(contents@[i]),
                query@,
                case_sensitive,
            ),
{
    let mut r: Vec<ScanOutcome> = Vec::new();
    let mut i: usize = 0;
    while i < paths.len()
        invariant
            paths@.len() == contents@.len(),
            i <= paths@.len(),
            r@.len() == i,
            forall|k: int|
                0 <= k < i ==> outcome_view(#[trigger] r@[k]) == expected_outcome(
                    paths@[k]@,
                    opt_view(contents@[k]),
                    query@,
                    case_sensitive,
                ),
        decreases paths@.len() - i,
    {
        let o = scan_file(&paths[i], &contents[i], query, case_sensitive);
        r.push(o);
        i = i + 1;
    }
    r
}

/// The total match count a list of outcomes reports.
pub open spec fn spec_total(os: Seq<ScanOutcome>) -> nat
    decreases os.len(),
{
    if os.len() == 0 {
        0
    } else {
        spec_total(os.drop_last()) + (match os.last() {
            ScanOutcome::Scanned(rs) => rs@.len(),
            ScanOutcome::Unreadable => 0,
        })
    }
}

/// Counts the matches over all outcomes.
pub fn count_matches(outcomes: Vec<ScanOutcome>) -> (n: usize)
    ensures
        n as nat == spec_total(outcomes@),
{
    let ghost total: nat = spec_total(outcomes@);
    let mut flat: Vec<MatchRecord> = Vec::new();
    let mut rest = outcomes;
    while rest.len() > 0
        invariant
            flat@.len() + spec_total(rest@) == total,
        decreases rest@.len(),
    {
        let ghost pre = rest@;
        let o_opt = rest.pop();
        let o = o_opt.unwrap();
        proof {
            assert(pre.drop_last() =~= rest@);
            assert(spec_total(pre) == spec_total(rest@) + (match o {
                ScanOutcome::Scanned(rs) => rs@.len(),
                ScanOutcome::Unreadable => 0nat,
            }));
        }
        match o {
            ScanOutcome::Scanned(mut rs) => {
                flat.append(&mut rs);
            },
            ScanOutcome::Unreadable => {},
        }
    }
    flat.len()
}

/// Idempotence: two scans that saw the same per-file text under the same
/// request report the same per-file results and the same total match count.
pub proof fn lemma_scan_idempotent(
    a: Seq<ScanOutcome>,
    b: Seq<ScanOutcome>,
    paths: Seq<Seq<char>>,
    contents: Seq<Option<Seq<char>>>,
    query: Seq<char>,
    case_sensitive: bool,
)
    requires
        a.len() == paths.len(),
        b.len() == paths.len(),
        contents.len() == paths.len(),
        forall|i: int|
            0 <= i < a.len() ==> outcome_view(#[trigger] a[i]) == expected_outcome(
                paths[i],
                contents[i],
                query,
                case_sensitive,
            ),
        forall|i: int|
            0 <= i < b.len() ==> outcome_view(#[trigger] b[i]) == expected_outcome(
                paths[i],
                contents[i],
                query,
                case_sensitive,
            ),
    ensures
        forall|i: int| 0 <= i < a.len() ==> outcome_view(#[trigger] a[i]) == outcome_view(b[i]),
        spec_total(a) == spec_total(b),
{
    lemma_total_pointwise(a, b);
}

proof fn lemma_total_pointwise(a: Seq<ScanOutcome>, b: Seq<ScanOutcome>)
    requires
        a.len() == b.len(),
        forall|i: int| 0 <= i < a.len() ==> outcome_view(#[trigger] a[i]) == outcome_view(b[i]),
    ensures
        spec_total(a) == spec_total(b),
    decreases a.len(),
{
    if a.len() > 0 {
        let da = a.drop_last();
        let db = b.drop_last();
        assert forall|i: int| 0 <= i < da.len() implies outcome_view(#[trigger] da[i])
            == outcome_view(db[i]) by {
            assert(da[i] == a[i] && db[i] == b[i]);
        };
        lemma_total_pointwise(da, db);
        assert(a.last() == a[a.len() - 1] && b.last() == b[b.len() - 1]);
        assert(outcome_view(a.last()) == outcome_view(b.last()));
        match a.last() {
            ScanOutcome::Scanned(ra) => {
                match b.last() {
                    ScanOutcome::Scanned(rb) => {
                        assert(records_view(ra@).len() == records_view(rb@).len());
                    },
                    ScanOutcome::Unreadable => {},
                }
            },
            ScanOutcome::Unreadable => {},
        }
    }
}

} // verus!

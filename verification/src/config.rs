//! The search request: query, root path and case flag, parsed from the
//! command-line arguments, plus the per-file matcher entry point.

use vstd::prelude::*;

use crate::matcher::{all_lines_indexed, find_matches, matches_view, spec_matches};
use crate::text::{spec_lines, str_eq};

verus! {

/// Whether an argument asks for case-insensitive search.
pub open spec fn is_ignore_case_flag(s: Seq<char>) -> bool {
    s == "-i"@ || s == "-I"@ || s == "--ignore-case"@
}

/// Whether an argument list is a well-formed invocation: the program name,
/// a query, a root path, and at most one recognized case flag.
pub open spec fn valid_args(args: Seq<String>) -> bool {
    args.len() == 3 || (args.len() == 4 && is_ignore_case_flag(args[3]@))
}

/// A search request: the query to look for, the root path to search under,
/// whether the match is exact-case, and the file paths found so far.
pub struct Config {
    pub query: String,
    pub path: String,
    pub case_sensitive: bool,
    pub paths: Vec<String>,
}

impl Config {
    /// Parses the command-line arguments: `<program> <query> <path>` with an
    /// optional `-i`, `-I` or `--ignore-case` that turns exact-case matching
    /// off. Anything else is rejected with a message naming the fault.
    pub fn new<'a>(args: Vec<String>) -> (r: Result<Config, &'a str>)
        ensures
            args@.len() < 3 ==> (r matches Err(e) && e@ == "not enough arguments"@),
            args@.len() > 4 ==> (r matches Err(e) && e@ == "too many arguments"@),
            args@.len() == 4 && !is_ignore_case_flag(args@[3]@) ==> (r matches Err(e) && e@
                == "invalid third argument"@),
            valid_args(args@) ==> (r matches Ok(c) && c.query@ == args@[1]@ && c.path@ == args@[2]@
                && c.case_sensitive == (args@.len() == 3) && c.paths@ == Seq::<String>::empty()),
    {
        if args.len() < 3 {
            return Err("not enough arguments");
        }
        if args.len() > 4 {
            return Err("too many arguments");
        }
        let case_sensitive: bool = if args.len() == 4 {
            let flag = &args[3];
            if str_eq(flag.as_str(), "-I") || str_eq(flag.as_str(), "--ignore-case") || str_eq(
                flag.as_str(),
                "-i",
            ) {
                false
            } else {
                return Err("invalid third argument");
            }
        } else {
            true
        };
        Ok(Config {
            query: args[1].clone(),
            path: args[2].clone(),
            case_sensitive,
            paths: Vec::new(),
        })
    }

    /// The lines of `contents` that contain this request's query, each with
    /// its 0-based line index, in index order. An empty query matches every
    /// line.
    pub fn get_matches<'a>(&self, contents: &'a str) -> (r: Vec<(&'a str, usize)>)
        ensures
            matches_view(r@) == spec_matches(spec_lines(contents@), self.query@,
                self.case_sensitive),
            self.query@.len() == 0 ==> matches_view(r@) == all_lines_indexed(
                spec_lines(contents@),
            ),
    {
        find_matches(contents, self.query.as_str(), self.case_sensitive)
    }
}

} // verus!

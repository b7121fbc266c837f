//! The analyzer entry points: parse a `yarn.lock` file's lines and report
//! the resulting graph. Files of any other name are ignored.

use vstd::prelude::*;

use crate::errors::ErrView;
use crate::errors::YarnError;
use crate::graph::canonical_entries;
use crate::graph::lemma_canonical_entries;
use crate::graph::DepGraph;
use crate::parser::parse_lockfile;
use crate::parser::spec_parse;
use crate::report::full_summary;
use crate::report::lemma_report_deterministic;
use crate::report::report;
use crate::report::report_ok;
use crate::report::report_out;
use crate::report::summary_lines;
use crate::strutil::str_eq;
use crate::strutil::strs_view;

verus! {

/// Analyzes one lockfile's lines: builds the dependency graph and appends
/// the report for the given keywords to `out`. A parse failure appends
/// nothing; a depth failure during the search leaves the lines already
/// produced, ending in the depth marker.
pub fn analyze_yarn_lock(lines: &Vec<String>, keywords: &Vec<String>, out: &mut Vec<String>) -> (r:
    Result<(), YarnError>)
    ensures
        spec_parse(strs_view(lines@)) is Err ==> r is Err && r->Err_0@ == spec_parse(
            strs_view(lines@),
        )->Err_0 && final(out)@ == old(out)@,
        spec_parse(strs_view(lines@)) is Ok ==> strs_view(final(out)@) == strs_view(old(out)@)
            + report_out(
            canonical_entries(spec_parse(strs_view(lines@))->Ok_0),
            strs_view(keywords@),
        ),
        spec_parse(strs_view(lines@)) is Ok ==> (r is Ok <==> report_ok(
            canonical_entries(spec_parse(strs_view(lines@))->Ok_0),
            strs_view(keywords@),
        )),
        spec_parse(strs_view(lines@)) is Ok && r is Err ==> r->Err_0@ == ErrView::TooDeep,
{
    match parse_lockfile(lines) {
        Err(e) => Err(e),
        Ok(g) => {
            proof {
                lemma_canonical_entries(&g);
            }
            report(&g, keywords, out)
        },
    }
}

/// Parsing is deterministic and idempotent: two graphs built from the same
/// file content are identical, entry for entry, and print the same full
/// summary in the same order.
pub proof fn lemma_parse_idempotent(g1: &DepGraph, g2: &DepGraph, lines: Seq<Seq<char>>)
    requires
        g1.wf(),
        g2.wf(),
        spec_parse(lines) is Ok,
        g1.map_view() == spec_parse(lines)->Ok_0,
        g2.map_view() == spec_parse(lines)->Ok_0,
    ensures
        g1@ == g2@,
        summary_lines(g1@) == summary_lines(g2@),
{
    lemma_report_deterministic(g1, g2);
}

/// Analyzes package files by name: a file named exactly `yarn.lock` is
/// parsed and reported with the configured keywords, any other file is
/// ignored.
pub struct PackageFileAnalyzer {
    /// The search keywords; an empty list selects the full summary.
    pub keywords: Vec<String>,
}

impl PackageFileAnalyzer {
    /// Analyzes the file with base name `file_name` and content `lines`,
    /// appending the report to `out`.
    pub fn analyze(&mut self, file_name: &str, lines: &Vec<String>, out: &mut Vec<String>) -> (r:
        Result<(), YarnError>)
        ensures
            final(self).keywords@ == old(self).keywords@,
            file_name@ != "yarn.lock"@ ==> r is Ok && final(out)@ == old(out)@,
            file_name@ == "yarn.lock"@ && spec_parse(strs_view(lines@)) is Err ==> r is Err
                && r->Err_0@ == spec_parse(strs_view(lines@))->Err_0 && final(out)@ == old(out)@,
            file_name@ == "yarn.lock"@ && spec_parse(strs_view(lines@)) is Ok ==> strs_view(
                final(out)@,
            ) == strs_view(old(out)@) + report_out(
                canonical_entries(spec_parse(strs_view(lines@))->Ok_0),
                strs_view(old(self).keywords@),
            ),
            file_name@ == "yarn.lock"@ && spec_parse(strs_view(lines@)) is Ok ==> (r is Ok
                <==> report_ok(
                canonical_entries(spec_parse(strs_view(lines@))->Ok_0),
                strs_view(old(self).keywords@),
            )),
            file_name@ == "yarn.lock"@ && spec_parse(strs_view(lines@)) is Ok && r is Err ==> r
                ->Err_0@ == ErrView::TooDeep,
    {
        if str_eq(file_name, "yarn.lock") {
            analyze_yarn_lock(lines, &self.keywords, out)
        } else {
            Ok(())
        }
    }
}

/// Analyzes `yarn.lock` files into their full adjacency summary, with no
/// keyword search.
pub struct YarnFileAnalyzer;

impl YarnFileAnalyzer {
    /// Analyzes the file with base name `file_name` and content `lines`,
    /// appending the full summary to `out`.
    pub fn analyze(&mut self, file_name: &str, lines: &Vec<String>, out: &mut Vec<String>) -> (r:
        Result<(), YarnError>)
        ensures
            file_name@ != "yarn.lock"@ ==> r is Ok && final(out)@ == old(out)@,
            file_name@ == "yarn.lock"@ && spec_parse(strs_view(lines@)) is Err ==> r is Err
                && r->Err_0@ == spec_parse(strs_view(lines@))->Err_0 && final(out)@ == old(out)@,
            file_name@ == "yarn.lock"@ && spec_parse(strs_view(lines@)) is Ok ==> r is Ok
                && strs_view(final(out)@) == strs_view(old(out)@) + summary_lines(
                canonical_entries(spec_parse(strs_view(lines@))->Ok_0),
            ),
    {
        if str_eq(file_name, "yarn.lock") {
            match parse_lockfile(lines) {
                Err(e) => Err(e),
                Ok(g) => {
                    proof {
                        lemma_canonical_entries(&g);
                    }
                    full_summary(&g, out);
                    Ok(())
                },
            }
        } else {
            Ok(())
        }
    }
}

} // verus!

//! The text of the `detect` command: every detector's matches, grouped by
//! pattern name.

use vstd::prelude::*;
use crate::text::{str_eq, string_views, decimal, decimal_string, joined, join};
use crate::order::{sorted_set, sorted_unique};
use crate::resolve::types::TypeGraph;
use crate::analysis::callgraph::CallGraph;
use crate::detect::types::{DetectionContext, PatternMatch, MatchView, match_views, pattern_name};
use crate::detect::common::signatures_ordered;
use crate::detect::creational::{detect_creational, creational_matches};
use crate::detect::structural::{detect_structural, structural_matches};
use crate::detect::behavioral::{detect_behavioral, behavioral_matches, ctx_cg};
use crate::detect::dotnet::{detect_dotnet, dotnet_matches, di_ordered, method_counts_fit};

verus! {

/// The matches of all detectors: creational, structural, behavioral, then
/// .NET.
pub open spec fn all_matches(ctx: DetectionContext) -> Seq<MatchView> {
    creational_matches(*ctx.type_graph) + structural_matches(*ctx.type_graph) + behavioral_matches(
        ctx_cg(ctx),
        *ctx.type_graph,
    ) + dotnet_matches(*ctx.type_graph, ctx.source@)
}

/// Runs every detector on the context.
pub fn detect_all(ctx: &DetectionContext) -> (r: Vec<PatternMatch>)
    requires
        ctx.type_graph.wf(),
        signatures_ordered(*ctx.type_graph),
        di_ordered(*ctx.type_graph),
        method_counts_fit(*ctx.type_graph),
    ensures
        match_views(r@) == all_matches(*ctx),
{
    let mut r = detect_creational(ctx);
    let mut s = detect_structural(ctx);
    let mut b = detect_behavioral(ctx);
    let mut d = detect_dotnet(ctx);
    let ghost (v1, v2, v3, v4) = (r@, s@, b@, d@);
    r.append(&mut s);
    r.append(&mut b);
    r.append(&mut d);
    assert(r@ == v1 + v2 + v3 + v4);
    assert(match_views(r@) =~= match_views(v1) + match_views(v2) + match_views(v3) + match_views(v4));
    r
}

/// A confidence in hundredths written with two decimals (`85` as `0.85`).
pub open spec fn confidence_text(c: u32) -> Seq<char> {
    decimal((c / 100) as nat) + "."@ + decimal(((c / 10) % 10) as nat) + decimal((c % 10) as nat)
}

/// The lines of one match: its class and confidence, then its evidence
/// when it has any.
pub open spec fn hit_block(d: MatchView) -> Seq<Seq<char>> {
    seq!["  "@ + d.class + " (c="@ + confidence_text(d.confidence) + ")"@] + if d.evidence.len() > 0 {
        seq!["    evidence: "@ + joined(d.evidence, ", "@)]
    } else {
        Seq::empty()
    }
}

/// The lines of a list of matches.
pub open spec fn hit_lines(hs: Seq<MatchView>) -> Seq<Seq<char>>
    decreases hs.len(),
{
    if hs.len() == 0 {
        Seq::empty()
    } else {
        hit_lines(hs.drop_last()) + hit_block(hs.last())
    }
}

/// The matches of `ds` of the pattern named `l`.
pub open spec fn hits_of(ds: Seq<MatchView>, l: Seq<char>) -> Seq<MatchView> {
    ds.filter(|d: MatchView| pattern_name(d.pattern) == l)
}

/// The block of the pattern named `l`: a header with its number of
/// matches, then the matches.
pub open spec fn group_block(ds: Seq<MatchView>, l: Seq<char>) -> Seq<Seq<char>> {
    seq![l + " ("@ + decimal(hits_of(ds, l).len()) + " hits):"@] + hit_lines(hits_of(ds, l))
}

/// The blocks of the pattern names `ls`, in order.
pub open spec fn group_lines(ds: Seq<MatchView>, ls: Seq<Seq<char>>) -> Seq<Seq<char>>
    decreases ls.len(),
{
    if ls.len() == 0 {
        Seq::empty()
    } else {
        group_lines(ds, ls.drop_last()) + group_block(ds, ls.last())
    }
}

/// The pattern names of the matches.
pub open spec fn pattern_labels(ds: Seq<MatchView>) -> Seq<Seq<char>> {
    ds.map_values(|d: MatchView| pattern_name(d.pattern))
}

/// The matches grouped by pattern name, names in increasing order.
pub open spec fn detection_lines(ds: Seq<MatchView>) -> Seq<Seq<char>> {
    if ds.len() == 0 {
        seq!["No patterns detected."@]
    } else {
        group_lines(ds, sorted_set(pattern_labels(ds)))
    }
}

/// The whole report for `files` files.
pub open spec fn detect_lines(files: nat, tg: TypeGraph, cg: CallGraph, ds: Seq<MatchView>) -> Seq<Seq<char>> {
    seq![
        "Analysis of "@ + decimal(files) + " file(s):"@,
        "  Classes: "@ + decimal(tg.classes@.len()) + ", Interfaces: "@ + decimal(tg.interfaces@.len())
            + ", Call sites: "@ + decimal(cg.calls@.len()),
        ""@,
    ] + detection_lines(ds)
}

proof fn lemma_hits_push(ds: Seq<MatchView>, d: MatchView, l: Seq<char>)
    ensures
        hits_of(ds.push(d), l) == if pattern_name(d.pattern) == l {
            hits_of(ds, l).push(d)
        } else {
            hits_of(ds, l)
        },
{
    reveal(Seq::filter);
    assert(ds.push(d).drop_last() =~= ds);
}

/// A confidence in hundredths with two decimals.
pub fn confidence_string(c: u32) -> (r: String)
    ensures
        r@ == confidence_text(c),
{
    let mut s = decimal_string((c / 100) as usize);
    s.append(".");
    let d1 = decimal_string(((c / 10) % 10) as usize);
    s.append(d1.as_str());
    let d2 = decimal_string((c % 10) as usize);
    s.append(d2.as_str());
    s
}

fn push_hit_block(lines: &mut Vec<String>, d: &PatternMatch)
    ensures
        string_views(final(lines)@) == string_views(old(lines)@) + hit_block(d@),
{
    let ghost l0 = string_views(lines@);
    let mut first = String::from_str("  ");
    first.append(d.class.as_str());
    first.append(" (c=");
    let c = confidence_string(d.confidence);
    first.append(c.as_str());
    first.append(")");
    lines.push(first);
    if d.evidence.len() > 0 {
        let mut second = String::from_str("    evidence: ");
        let e = join(&d.evidence, ", ");
        second.append(e.as_str());
        lines.push(second);
    }
    assert(string_views(lines@) =~= l0 + hit_block(d@));
}

fn push_group_block(lines: &mut Vec<String>, ds: &Vec<PatternMatch>, label: &str)
    ensures
        string_views(final(lines)@) == string_views(old(lines)@) + group_block(match_views(ds@), label@),
{
    let ghost dv = match_views(ds@);
    let mut n: usize = 0;
    let mut j: usize = 0;
    while j < ds.len()
        invariant
            dv == match_views(ds@),
            j <= ds@.len(),
            n <= j,
            n == hits_of(dv.subrange(0, j as int), label@).len(),
        decreases ds.len() - j,
    {
        proof {
            assert(dv.subrange(0, j + 1) =~= dv.subrange(0, j as int).push(dv[j as int]));
            lemma_hits_push(dv.subrange(0, j as int), dv[j as int], label@);
        }
        let name = ds[j].pattern.to_string();
        if str_eq(name.as_str(), label) {
            n = n + 1;
        }
        j = j + 1;
    }
    assert(dv.subrange(0, dv.len() as int) =~= dv);
    let ghost l0 = string_views(lines@);
    let mut header = String::from_str(label);
    header.append(" (");
    let k = decimal_string(n);
    header.append(k.as_str());
    header.append(" hits):");
    lines.push(header);
    let ghost l1 = string_views(lines@);
    assert(l1 =~= l0 + seq![label@ + " ("@ + decimal(hits_of(dv, label@).len()) + " hits):"@]);
    let mut j: usize = 0;
    while j < ds.len()
        invariant
            dv == match_views(ds@),
            j <= ds@.len(),
            string_views(lines@) == l1 + hit_lines(hits_of(dv.subrange(0, j as int), label@)),
        decreases ds.len() - j,
    {
        proof {
            assert(dv.subrange(0, j + 1) =~= dv.subrange(0, j as int).push(dv[j as int]));
            lemma_hits_push(dv.subrange(0, j as int), dv[j as int], label@);
        }
        let name = ds[j].pattern.to_string();
        if str_eq(name.as_str(), label) {
            let ghost h0 = hits_of(dv.subrange(0, j as int), label@);
            push_hit_block(lines, &ds[j]);
            assert(hit_lines(h0.push(dv[j as int])) == hit_lines(h0) + hit_block(dv[j as int])) by {
                assert(h0.push(dv[j as int]).drop_last() =~= h0);
            }
        }
        j = j + 1;
    }
    assert(dv.subrange(0, dv.len() as int) =~= dv);
    assert(string_views(lines@) =~= l0 + group_block(dv, label@));
}

/// The pattern names of the matches.
fn labels_of(ds: &Vec<PatternMatch>) -> (r: Vec<String>)
    ensures
        string_views(r@) == pattern_labels(match_views(ds@)),
{
    let mut r: Vec<String> = Vec::new();
    let mut i: usize = 0;
    while i < ds.len()
        invariant
            i <= ds@.len(),
            r@.len() == i,
            forall|k: int| 0 <= k < i ==> (#[trigger] r@[k])@ == pattern_name(ds@[k].pattern),
        decreases ds.len() - i,
    {
        r.push(ds[i].pattern.to_string());
        i = i + 1;
    }
    assert(string_views(r@) =~= pattern_labels(match_views(ds@)));
    r
}

/// The matches grouped by pattern name, names in increasing order, each
/// group with its number of matches and each match with its confidence
/// and evidence.
pub fn detection_report_lines(ds: &Vec<PatternMatch>) -> (r: Vec<String>)
    ensures
        string_views(r@) == detection_lines(match_views(ds@)),
{
    let mut lines: Vec<String> = Vec::new();
    if ds.len() == 0 {
        lines.push(String::from_str("No patterns detected."));
        assert(string_views(lines@) =~= seq!["No patterns detected."@]);
        return lines;
    }
    let labels = labels_of(ds);
    let sorted = sorted_unique(&labels);
    let ghost dv = match_views(ds@);
    let ghost sv = string_views(sorted@);
    assert(string_views(lines@) =~= group_lines(dv, sv.subrange(0, 0)));
    let mut i: usize = 0;
    while i < sorted.len()
        invariant
            dv == match_views(ds@),
            sv == string_views(sorted@),
            i <= sorted@.len(),
            string_views(lines@) == group_lines(dv, sv.subrange(0, i as int)),
        decreases sorted.len() - i,
    {
        assert(sv.subrange(0, i + 1).drop_last() =~= sv.subrange(0, i as int));
        push_group_block(&mut lines, ds, sorted[i].as_str());
        i = i + 1;
    }
    assert(sv.subrange(0, sv.len() as int) =~= sv);
    lines
}

/// The report of the `detect` command for `files` files.
pub fn detect_report(files: usize, tg: &TypeGraph, cg: &CallGraph, ds: &Vec<PatternMatch>) -> (r: Vec<String>)
    ensures
        string_views(r@) == detect_lines(files as nat, *tg, *cg, match_views(ds@)),
{
    let mut lines: Vec<String> = Vec::new();
    let mut l1 = String::from_str("Analysis of ");
    let f = decimal_string(files);
    l1.append(f.as_str());
    l1.append(" file(s):");
    lines.push(l1);
    let mut l2 = String::from_str("  Classes: ");
    let nc = decimal_string(tg.classes.len());
    l2.append(nc.as_str());
    l2.append(", Interfaces: ");
    let ni = decimal_string(tg.interfaces.len());
    l2.append(ni.as_str());
    l2.append(", Call sites: ");
    let k = decimal_string(cg.calls.len());
    l2.append(k.as_str());
    lines.push(l2);
    lines.push(String::from_str(""));
    let ghost l0 = lines@;
    let mut rest = detection_report_lines(ds);
    let ghost t0 = rest@;
    lines.append(&mut rest);
    assert(string_views(lines@) =~= string_views(l0) + string_views(t0));
    assert(string_views(lines@) =~= detect_lines(files as nat, *tg, *cg, match_views(ds@)));
    lines
}

} // verus!

//! The reconciliation cycle's pure part.
//!
//! Each tick, the poller hands over every project's resource list; the
//! entries are built in the stable order "project list order times
//! per-project fetch order", the serialized set is fingerprinted and
//! compared against the previous cycle's fingerprint, and on a
//! difference the full list of file writes is planned: the canonical
//! `all.json` first, then every filter chain's fan-out outputs. The
//! caller performs the writes and carries the fingerprint to the next
//! tick.

use vstd::prelude::*;
use vstd::string::StringExecFns;
use crate::config::Config;
use crate::entry::{FileSdEntry, EntryView, entries_view, Project, Resource, RenderError, build_entry, spec_build_labels};
use crate::labels::{spec_overlay, spec_dropped_keys};
use crate::fanout::{FilterSpec, FilterView, filters_view, fan_out_entries, spec_fan_out, out_view, OutSeq};
use crate::fingerprint::{fingerprint, fingerprint_of, changed};
use crate::jsonout::{serialize_entries, json_entries};

verus! {

/// The views of the configured filter chains.
pub open spec fn chains_view(fs: Seq<Vec<FilterSpec>>) -> Seq<Seq<FilterView>> {
    Seq::new(fs.len(), |i: int| filters_view(fs[i]@))
}

/// The canonical path of the full unfiltered entry set.
pub open spec fn all_path(root: Seq<char>) -> Seq<char> {
    root + "/all.json"@
}

/// The planned writes of one fan-out result: each output path with its
/// serialized entry subset.
pub open spec fn spec_chain_writes(outs: OutSeq) -> Seq<(Seq<char>, Seq<char>)> {
    Seq::new(outs.len(), |i: int| (outs[i].0, json_entries(outs[i].1)))
}

/// The planned writes of the filter chains, in chain order.
pub open spec fn chains_writes(entries: Seq<EntryView>, chains: Seq<Seq<FilterView>>, root: Seq<char>) -> Seq<(Seq<char>, Seq<char>)>
    decreases chains.len(),
{
    if chains.len() == 0 {
        Seq::empty()
    } else {
        chains_writes(entries, chains.drop_last(), root) + spec_chain_writes(
            spec_fan_out(entries, chains.last(), root),
        )
    }
}

/// Every write of a changed cycle: the canonical file first, then every
/// chain's outputs.
pub open spec fn spec_writes(entries: Seq<EntryView>, chains: Seq<Seq<FilterView>>, root: Seq<char>) -> Seq<(Seq<char>, Seq<char>)> {
    seq![(all_path(root), json_entries(entries))] + chains_writes(entries, chains, root)
}

/// A copy of the entry list with the same views.
pub fn duplicate_entries(entries: &Vec<FileSdEntry>) -> (r: Vec<FileSdEntry>)
    ensures
        entries_view(r@) == entries_view(entries@),
{
    let n = entries.len();
    let mut out: Vec<FileSdEntry> = Vec::new();
    let mut i: usize = 0;
    while i < n
        invariant
            0 <= i <= n,
            n == entries@.len(),
            out@.len() == i,
            forall|j: int| 0 <= j < i ==> (#[trigger] out@[j])@ == entries@[j]@,
        decreases n - i,
    {
        out.push(entries[i].duplicate());
        i += 1;
    }
    proof {
        assert(entries_view(out@) =~~= entries_view(entries@));
    }
    out
}

/// Plans one cycle: computes the fingerprint of the serialized entry
/// set, and when it differs from the previous cycle's, the full ordered
/// list of file writes. With an unchanged fingerprint nothing is
/// written.
pub fn plan_cycle(entries: &Vec<FileSdEntry>, previous: Option<u64>, config: &Config) -> (r: (
    u64,
    Option<Vec<(String, String)>>,
))
    ensures
        r.0 == fingerprint_of(json_entries(entries_view(entries@))),
        (r.1 is None) <==> (previous == Some(r.0)),
        r.1 matches Some(ws) ==> ws.deep_view() == spec_writes(
            entries_view(entries@),
            chains_view(config.filters@),
            config.output_folder@,
        ),
{
    let ghost ev = entries_view(entries@);
    let ghost cv = chains_view(config.filters@);
    let ghost root = config.output_folder@;
    let content = serialize_entries(entries);
    let fp = fingerprint(content.as_str());
    if !changed(previous, fp) {
        return (fp, None);
    }
    let mut ws: Vec<(String, String)> = Vec::new();
    let mut ap = String::from_str(config.output_folder.as_str());
    ap.append("/all.json");
    ws.push((ap, content));
    let ghost base = seq![(all_path(root), json_entries(ev))];
    proof {
        assert(ws.deep_view() =~~= base + chains_writes(ev, cv.take(0), root));
    }
    let nc = config.filters.len();
    let mut ci: usize = 0;
    while ci < nc
        invariant
            0 <= ci <= nc,
            nc == cv.len(),
            ev == entries_view(entries@),
            cv == chains_view(config.filters@),
            root == config.output_folder@,
            base == seq![(all_path(root), json_entries(ev))],
            ws.deep_view() == base + chains_writes(ev, cv.take(ci as int), root),
        decreases nc - ci,
    {
        proof {
            assert(ws.deep_view().len() == ws@.len());
            assert(cv.take(ci as int + 1).drop_last() =~~= cv.take(ci as int));
            assert(cv.take(ci as int + 1).last() == cv[ci as int]);
            assert(cv[ci as int] == filters_view(config.filters@[ci as int]@));
        }
        let dup = duplicate_entries(entries);
        let outs = fan_out_entries(dup, &config.filters[ci], config.output_folder.as_str());
        let ghost fo = out_view(outs@);
        proof {
            assert(fo == spec_fan_out(ev, cv[ci as int], root));
        }
        let no = outs.len();
        let mut oi: usize = 0;
        while oi < no
            invariant
                0 <= oi <= no,
                no == fo.len(),
                fo == out_view(outs@),
                ev == entries_view(entries@),
                ws.deep_view() == base + chains_writes(ev, cv.take(ci as int), root)
                    + spec_chain_writes(fo).take(oi as int),
            decreases no - oi,
        {
            proof {
                assert(ws.deep_view().len() == ws@.len());
                assert(fo[oi as int] == (outs@[oi as int].0@, entries_view(outs@[oi as int].1@)));
            }
            let text = serialize_entries(&outs[oi].1);
            let ghost wpre = ws.deep_view();
            ws.push((outs[oi].0.clone(), text));
            proof {
                assert(ws.deep_view() =~~= wpre.push(
                    (fo[oi as int].0, json_entries(fo[oi as int].1)),
                ));
                assert(ws.deep_view() =~~= base + chains_writes(ev, cv.take(ci as int), root)
                    + spec_chain_writes(fo).take(oi as int + 1));
            }
            oi += 1;
        }
        proof {
            assert(spec_chain_writes(fo).take(no as int) =~~= spec_chain_writes(fo));
            assert(chains_writes(ev, cv.take(ci as int + 1), root) == chains_writes(
                ev,
                cv.take(ci as int),
                root,
            ) + spec_chain_writes(fo));
            assert(ws.deep_view() =~~= base + chains_writes(ev, cv.take(ci as int + 1), root));
        }
        ci += 1;
    }
    proof {
        assert(cv.take(nc as int) =~~= cv);
        assert(ws.deep_view() =~~= spec_writes(ev, cv, root));
    }
    (fp, Some(ws))
}

/// The page numbers still to fetch after the first page, in increasing
/// order: pages two through the last page, or none when the response
/// names no last page or only one page exists.
pub fn remaining_pages(last_page: Option<u32>) -> (r: Vec<u32>)
    ensures
        match last_page {
            Some(lp) => r@.len() == (if lp >= 2 { lp - 1 } else { 0 }) && forall|i: int|
                0 <= i < r@.len() ==> #[trigger] r@[i] == i + 2,
            None => r@.len() == 0,
        },
{
    let mut r: Vec<u32> = Vec::new();
    match last_page {
        None => {},
        Some(lp) => {
            let count: u32 = if lp >= 2 {
                lp - 1
            } else {
                0
            };
            let mut i: u32 = 0;
            while i < count
                invariant
                    count == (if lp >= 2 { (lp - 1) as u32 } else { 0u32 }),
                    0 <= i <= count,
                    r@.len() == i,
                    forall|k: int| 0 <= k < r@.len() ==> #[trigger] r@[k] == k + 2,
                decreases count - i,
            {
                r.push(i + 2);
                i += 1;
            }
        },
    }
    r
}

/// One project paired with each of its resources, in fetch order.
pub open spec fn project_pairs(p: Project, rs: Seq<Resource>) -> Seq<(Project, Resource)> {
    Seq::new(rs.len(), |i: int| (p, rs[i]))
}

/// Every (project, resource) pair of a cycle, in the stable order
/// "project list order times per-project fetch order".
pub open spec fn flat_pairs(projects: Seq<Project>, resources: Seq<Seq<Resource>>) -> Seq<(Project, Resource)>
    decreases projects.len(),
{
    if projects.len() == 0 || projects.len() != resources.len() {
        Seq::empty()
    } else {
        flat_pairs(projects.drop_last(), resources.drop_last()) + project_pairs(
            projects.last(),
            resources.last(),
        )
    }
}

/// The views of the per-project resource lists.
pub open spec fn vecvec_view(rs: Seq<Vec<Resource>>) -> Seq<Seq<Resource>> {
    Seq::new(rs.len(), |i: int| rs[i]@)
}

/// What is pinned of one built entry: its labels are the project's
/// static labels overlaid with the resource's labels, filtered to valid
/// keys, and it carries exactly one target string.
pub open spec fn entry_ok(e: EntryView, pr: (Project, Resource)) -> bool {
    e.labels == spec_build_labels(pr.0.labels@, pr.1.labels@) && e.targets.len() == 1
}

/// The label keys dropped for one resource, each tagged with its host
/// name for the caller to report.
pub open spec fn dropped_for(p: Project, r: Resource) -> Seq<(Seq<char>, Seq<char>)> {
    Seq::new(
        spec_dropped_keys(spec_overlay(p.labels@, r.labels@)).len(),
        |i: int| (r.name@, spec_dropped_keys(spec_overlay(p.labels@, r.labels@))[i]),
    )
}

/// The dropped keys of a cycle, in entry order.
pub open spec fn flat_dropped(fp: Seq<(Project, Resource)>) -> Seq<(Seq<char>, Seq<char>)>
    decreases fp.len(),
{
    if fp.len() == 0 {
        Seq::empty()
    } else {
        flat_dropped(fp.drop_last()) + dropped_for(fp.last().0, fp.last().1)
    }
}

/// What one cycle built: the entries in stable order, and every dropped
/// label key tagged with its host name.
#[derive(Debug)]
pub struct BuildOutcome {
    pub entries: Vec<FileSdEntry>,
    pub dropped: Vec<(String, String)>,
}

/// A project with at least one resource gives the cycle at least one
/// (project, resource) pair.
proof fn lemma_flat_pairs_nonempty(projects: Seq<Project>, resources: Seq<Seq<Resource>>, i: int)
    requires
        projects.len() == resources.len(),
        0 <= i < resources.len(),
        resources[i].len() > 0,
    ensures
        flat_pairs(projects, resources).len() > 0,
    decreases projects.len(),
{
    if i < projects.len() - 1 {
        lemma_flat_pairs_nonempty(projects.drop_last(), resources.drop_last(), i);
        assert(resources.drop_last()[i] == resources[i]);
    }
}

/// Builds the entries of one cycle from every project's resource list,
/// in the stable order "project list order times per-project fetch
/// order". The first failed render aborts the cycle; nothing partial is
/// returned.
pub fn build_all(
    engine: &tera::Tera,
    template_name: &str,
    projects: &Vec<Project>,
    resources: &Vec<Vec<Resource>>,
) -> (r: Result<BuildOutcome, RenderError>)
    requires
        projects@.len() == resources@.len(),
    ensures
        r matches Ok(o) ==> {
            let fp = flat_pairs(projects@, vecvec_view(resources@));
            &&& o.entries@.len() == fp.len()
            &&& forall|k: int| 0 <= k < fp.len() ==> entry_ok((#[trigger] o.entries@[k])@, fp[k])
            &&& o.dropped.deep_view() == flat_dropped(fp)
        },
        flat_pairs(projects@, vecvec_view(resources@)).len() == 0 ==> r is Ok,
        r matches Err(e) ==> exists|i: int, j: int|
            0 <= i < resources@.len() && 0 <= j < resources@[i]@.len() && e.host@ == (
            #[trigger] resources@[i]@[j]).name@,
{
    let ghost rv = vecvec_view(resources@);
    let mut entries: Vec<FileSdEntry> = Vec::new();
    let mut dropped: Vec<(String, String)> = Vec::new();
    let ghost mut done: Seq<(Project, Resource)> = Seq::empty();
    let np = projects.len();
    let mut pi: usize = 0;
    proof {
        assert(done =~~= flat_pairs(projects@.take(0), rv.take(0)));
        assert(dropped.deep_view() =~~= flat_dropped(done));
    }
    while pi < np
        invariant
            0 <= pi <= np,
            np == projects@.len(),
            projects@.len() == resources@.len(),
            rv == vecvec_view(resources@),
            done == flat_pairs(projects@.take(pi as int), rv.take(pi as int)),
            entries@.len() == done.len(),
            forall|k: int| 0 <= k < done.len() ==> entry_ok((#[trigger] entries@[k])@, done[k]),
            dropped.deep_view() == flat_dropped(done),
        decreases np - pi,
    {
        let nr = resources[pi].len();
        proof {
            assert(rv[pi as int] == resources@[pi as int]@);
            assert(done + project_pairs(projects@[pi as int], rv[pi as int].take(0)) =~~= done);
        }
        let mut ri: usize = 0;
        while ri < nr
            invariant
                0 <= ri <= nr,
                0 <= pi < np,
                np == projects@.len(),
                projects@.len() == resources@.len(),
                rv == vecvec_view(resources@),
                nr == rv[pi as int].len(),
                done == flat_pairs(projects@.take(pi as int), rv.take(pi as int)) + project_pairs(
                    projects@[pi as int],
                    rv[pi as int].take(ri as int),
                ),
                entries@.len() == done.len(),
                forall|k: int| 0 <= k < done.len() ==> entry_ok((#[trigger] entries@[k])@, done[k]),
                dropped.deep_view() == flat_dropped(done),
            decreases nr - ri,
        {
            proof {
                assert(rv[pi as int] == resources@[pi as int]@);
            }
            let resource = &resources[pi][ri];
            let ghost pr = (projects@[pi as int], resources@[pi as int]@[ri as int]);
            match build_entry(engine, template_name, &projects[pi], resource) {
                Ok(pair) => {
                    let (e, dk) = pair;
                    proof {
                        assert(entry_ok(e@, pr));
                    }
                    entries.push(e);
                    let ghost d0 = dropped.deep_view();
                    let ghost dks = dk.deep_view();
                    let nd = dk.len();
                    let mut di: usize = 0;
                    proof {
                        assert(d0 + Seq::new(0nat, |i: int| (pr.1.name@, dks[i])) =~~= d0);
                    }
                    while di < nd
                        invariant
                            0 <= di <= nd,
                            nd == dk@.len(),
                            dks == dk.deep_view(),
                            resource == &resources@[pi as int]@[ri as int],
                            pr.1 == resources@[pi as int]@[ri as int],
                            dropped.deep_view() == d0 + Seq::new(
                                di as nat,
                                |i: int| (pr.1.name@, dks[i]),
                            ),
                        decreases nd - di,
                    {
                        proof {
                            assert(dropped.deep_view().len() == dropped@.len());
                            assert(dks[di as int] == dk@[di as int]@);
                        }
                        let ghost dpre = dropped.deep_view();
                        dropped.push((resource.name.clone(), dk[di].clone()));
                        proof {
                            assert(dropped.deep_view() =~~= dpre.push((pr.1.name@, dks[di as int])));
                            assert(dropped.deep_view() =~~= d0 + Seq::new(
                                (di + 1) as nat,
                                |i: int| (pr.1.name@, dks[i]),
                            ));
                        }
                        di += 1;
                    }
                    proof {
                        assert(Seq::new(nd as nat, |i: int| (pr.1.name@, dks[i])) =~~= dropped_for(
                            pr.0,
                            pr.1,
                        ));
                        done = done.push(pr);
                        assert(done.drop_last() =~~= flat_pairs(
                            projects@.take(pi as int),
                            rv.take(pi as int),
                        ) + project_pairs(projects@[pi as int], rv[pi as int].take(ri as int)));
                        assert(flat_dropped(done) == flat_dropped(done.drop_last()) + dropped_for(
                            pr.0,
                            pr.1,
                        ));
                        assert(rv[pi as int].take(ri as int + 1).drop_last() =~~= rv[pi as int].take(
                            ri as int,
                        ));
                        assert(rv[pi as int].take(ri as int + 1).last() == rv[pi as int][ri as int]);
                        assert(project_pairs(projects@[pi as int], rv[pi as int].take(ri as int + 1))
                            =~~= project_pairs(
                            projects@[pi as int],
                            rv[pi as int].take(ri as int),
                        ).push(pr));
                        assert(done =~~= flat_pairs(projects@.take(pi as int), rv.take(pi as int))
                            + project_pairs(
                            projects@[pi as int],
                            rv[pi as int].take(ri as int + 1),
                        ));
                    }
                },
                Err(err) => {
                    proof {
                        assert(err.host@ == resources@[pi as int]@[ri as int].name@);
                        lemma_flat_pairs_nonempty(projects@, rv, pi as int);
                    }
                    return Err(err);
                },
            }
            ri += 1;
        }
        proof {
            assert(rv[pi as int].take(nr as int) =~~= rv[pi as int]);
            assert(projects@.take(pi as int + 1).drop_last() =~~= projects@.take(pi as int));
            assert(rv.take(pi as int + 1).drop_last() =~~= rv.take(pi as int));
            assert(projects@.take(pi as int + 1).last() == projects@[pi as int]);
            assert(rv.take(pi as int + 1).last() == rv[pi as int]);
            assert(done =~~= flat_pairs(projects@.take(pi as int + 1), rv.take(pi as int + 1)));
        }
        pi += 1;
    }
    proof {
        assert(projects@.take(np as int) =~~= projects@);
        assert(rv.take(np as int) =~~= rv);
    }
    Ok(BuildOutcome { entries, dropped })
}

} // verus!

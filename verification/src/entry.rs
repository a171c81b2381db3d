//! Discovery entries and the entry builder.
//!
//! An entry combines one rendered target string with the merge of a
//! project's static labels and a resource's own labels, filtered to
//! valid keys. The target string comes from a template engine; nothing
//! is assumed of the rendered text, so every other part of the entry is
//! pinned exactly.

use vstd::prelude::*;
use crate::labels::{
    LabelMap, LabelSeq, spec_overlay, spec_filter_valid, spec_dropped_keys, filter_labels,
};

verus! {

/// One cloud account contributing resources and static labels.
pub struct Project {
    pub name: String,
    pub api_token: String,
    pub labels: LabelMap,
}

/// A discovered compute instance, reduced to the plain values the engine
/// reads: its name, its public IPv4 address, its announced IPv6 network
/// in CIDR form, and its labels.
pub struct Resource {
    pub name: String,
    pub ipv4: Option<String>,
    pub ipv6_net: Option<String>,
    pub labels: LabelMap,
}

/// One monitoring target with its labels, as written to a discovery file.
#[derive(Debug)]
pub struct FileSdEntry {
    pub targets: Vec<String>,
    pub labels: LabelMap,
}

/// The mathematical shape of a discovery entry.
#[verifier::ext_equal]
pub struct EntryView {
    pub targets: Seq<Seq<char>>,
    pub labels: LabelSeq,
}

impl View for FileSdEntry {
    type V = EntryView;

    open spec fn view(&self) -> EntryView {
        EntryView {
            targets: Seq::new(self.targets@.len(), |i: int| self.targets@[i]@),
            labels: self.labels@,
        }
    }
}

/// The views of a sequence of entries.
pub open spec fn entries_view(es: Seq<FileSdEntry>) -> Seq<EntryView> {
    Seq::new(es.len(), |i: int| es[i]@)
}

impl FileSdEntry {
    /// A copy of this entry with the same view.
    pub fn duplicate(&self) -> (r: FileSdEntry)
        ensures
            r@ == self@,
    {
        let n = self.targets.len();
        let mut ts: Vec<String> = Vec::new();
        let mut i: usize = 0;
        while i < n
            invariant
                0 <= i <= n,
                n == self.targets@.len(),
                ts@.len() == i,
                forall|j: int| 0 <= j < i ==> (#[trigger] ts@[j])@ == self.targets@[j]@,
            decreases n - i,
        {
            ts.push(self.targets[i].clone());
            i += 1;
        }
        let r = FileSdEntry { targets: ts, labels: self.labels.duplicate() };
        proof {
            assert(r@ =~~= self@);
        }
        r
    }
}

/// The labels an entry carries for a given project and resource: the
/// project's static labels overlaid with the resource's labels, filtered
/// to valid keys.
pub open spec fn spec_build_labels(project: LabelSeq, resource: LabelSeq) -> LabelSeq {
    spec_filter_valid(spec_overlay(project, resource))
}

/// Builds one discovery entry from a project, a resource and an already
/// rendered target string. Also returns the label keys that validation
/// dropped, in order, for the caller to report.
pub fn build(project: &Project, resource: &Resource, rendered_target: String) -> (r: (
    FileSdEntry,
    Vec<String>,
))
    ensures
        r.0@.targets == seq![rendered_target@],
        r.0@.labels == spec_build_labels(project.labels@, resource.labels@),
        r.1.deep_view() == spec_dropped_keys(spec_overlay(project.labels@, resource.labels@)),
{
    let merged = project.labels.overlay(&resource.labels);
    let (labels, dropped) = filter_labels(&merged);
    let mut targets: Vec<String> = Vec::new();
    targets.push(rendered_target);
    let e = FileSdEntry { targets, labels };
    proof {
        assert(e@.targets =~~= seq![rendered_target@]);
    }
    (e, dropped)
}

#[verifier::external_type_specification]
#[verifier::external_body]
pub struct ExTera(tera::Tera);

/// Relies on tera::Tera::render: renders the named template against a
/// context holding the resource's IPv4 address, its derived IPv6 host
/// address, its host name and its labels, each under the key of that
/// name. Nothing is assumed of the rendered text; a failure comes back
/// as the engine's error message.
#[verifier::external_body]
fn render_target(
    engine: &tera::Tera,
    template_name: &str,
    ipv4: Option<&String>,
    ipv6: Option<&String>,
    hostname: &String,
    labels: &Vec<(String, String)>,
) -> Result<String, String> {
    let mut context = tera::Context::new();
    if let Some(v) = ipv4 {
        context.insert("ipv4", v);
    }
    if let Some(v) = ipv6 {
        context.insert("ipv6", v);
    }
    context.insert("hostname", hostname);
    let map: std::collections::HashMap<&String, &String> =
        labels.iter().map(|p| (&p.0, &p.1)).collect();
    context.insert("labels", &map);
    engine.render(template_name, &context).map_err(|e| e.to_string())
}

/// The first usable host address of an announced IPv6 network, named
/// after the characters of the network string alone.
pub uninterp spec fn ipv6_usable_of(s: Seq<char>) -> Option<Seq<char>>;

/// Relies on ipnet: parses an IPv6 network in CIDR form and takes the
/// address right after the network address — the first usable host.
/// The result is a function of the characters of `s` alone.
#[verifier::external_body]
fn ipv6_first_usable(s: &str) -> (r: Option<String>)
    ensures
        r.deep_view() == ipv6_usable_of(s@),
{
    match s.parse::<ipnet::Ipv6Net>() {
        Ok(net) => net.hosts().nth(1).map(|a| a.to_string()),
        Err(_) => None,
    }
}

/// The derived usable IPv6 host address of a resource, when it announces
/// a network that yields one.
pub open spec fn spec_ipv6_host(net: Option<Seq<char>>) -> Option<Seq<char>> {
    match net {
        Some(s) => ipv6_usable_of(s),
        None => None,
    }
}

/// Computes the usable IPv6 host address for a resource.
pub fn resource_ipv6_host(resource: &Resource) -> (r: Option<String>)
    ensures
        r.deep_view() == spec_ipv6_host(resource.ipv6_net.deep_view()),
{
    match &resource.ipv6_net {
        Some(s) => ipv6_first_usable(s.as_str()),
        None => None,
    }
}

/// A failed render of the target template for one host.
#[derive(Debug)]
pub struct RenderError {
    pub host: String,
    pub message: String,
}

/// Builds the entry for one resource: renders the target template and
/// assembles the labels. The rendered text itself is decided by the
/// engine and left open; the labels and the shape of the entry are pinned.
pub fn build_entry(
    engine: &tera::Tera,
    template_name: &str,
    project: &Project,
    resource: &Resource,
) -> (r: Result<(FileSdEntry, Vec<String>), RenderError>)
    ensures
        r matches Ok(p) ==> p.0@.targets.len() == 1 && p.0@.labels == spec_build_labels(
            project.labels@,
            resource.labels@,
        ) && p.1.deep_view() == spec_dropped_keys(
            spec_overlay(project.labels@, resource.labels@),
        ),
        r matches Err(e) ==> e.host@ == resource.name@,
{
    let ipv6 = resource_ipv6_host(resource);
    let rendered = render_target(
        engine,
        template_name,
        resource.ipv4.as_ref(),
        ipv6.as_ref(),
        &resource.name,
        resource.labels.as_pairs(),
    );
    match rendered {
        Ok(t) => Ok(build(project, resource, t)),
        Err(msg) => Err(RenderError { host: resource.name.clone(), message: msg }),
    }
}

} // verus!

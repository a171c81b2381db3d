//! The fan-out partitioner.
//!
//! Given the full entry set and an ordered chain of filter
//! specifications, the partitioner recursively computes a mapping from
//! output path to entry subset. A `ByLabelValue` step narrows the set
//! and recurses once; a `ByLabel` step groups entries by the distinct
//! present values of a label, where one entry can belong to several
//! groups at the same level (value, complement-of-other-value, set,
//! empty, not-set), and recurses into every group.

use vstd::prelude::*;
use vstd::string::StringExecFns;
use crate::entry::{FileSdEntry, EntryView, entries_view};
use crate::labels::spec_get;
use crate::text::str_eq;

verus! {

/// One step of a filter chain: group by a label's distinct values, or
/// narrow to entries carrying one fixed value of a label.
pub enum FilterSpec {
    ByLabel(String),
    ByLabelValue(String, String),
}

/// The mathematical shape of a filter step.
#[verifier::ext_equal]
pub enum FilterView {
    ByLabel(Seq<char>),
    ByLabelValue(Seq<char>, Seq<char>),
}

impl View for FilterSpec {
    type V = FilterView;

    open spec fn view(&self) -> FilterView {
        match self {
            FilterSpec::ByLabel(n) => FilterView::ByLabel(n@),
            FilterSpec::ByLabelValue(n, v) => FilterView::ByLabelValue(n@, v@),
        }
    }
}

/// The views of a sequence of filter steps.
pub open spec fn filters_view(fs: Seq<FilterSpec>) -> Seq<FilterView> {
    Seq::new(fs.len(), |i: int| fs[i]@)
}

/// One group an entry can belong to at a `ByLabel` level.
#[derive(Debug, PartialEq, Eq)]
pub enum LabelGroup {
    Value(String),
    NotValue(String),
    IsSet,
    Empty,
    Unset,
}

/// The mathematical shape of a group.
#[verifier::ext_equal]
pub enum GroupView {
    Value(Seq<char>),
    NotValue(Seq<char>),
    IsSet,
    Empty,
    Unset,
}

impl View for LabelGroup {
    type V = GroupView;

    open spec fn view(&self) -> GroupView {
        match self {
            LabelGroup::Value(v) => GroupView::Value(v@),
            LabelGroup::NotValue(v) => GroupView::NotValue(v@),
            LabelGroup::IsSet => GroupView::IsSet,
            LabelGroup::Empty => GroupView::Empty,
            LabelGroup::Unset => GroupView::Unset,
        }
    }
}

/// The views of a sequence of groups.
pub open spec fn groups_view(gs: Seq<LabelGroup>) -> Seq<GroupView> {
    Seq::new(gs.len(), |i: int| gs[i]@)
}

/// No element of the sequence repeats.
pub open spec fn nodup<A>(s: Seq<A>) -> bool {
    forall|i: int, j: int| 0 <= i < j < s.len() ==> s[i] != s[j]
}

/// The distinct present values of `name` across the entries, in order of
/// first appearance. An entry without the label contributes no value.
pub open spec fn distinct_values(entries: Seq<EntryView>, name: Seq<char>) -> Seq<Seq<char>>
    decreases entries.len(),
{
    if entries.len() == 0 {
        Seq::empty()
    } else {
        let rest = distinct_values(entries.drop_last(), name);
        match spec_get(entries.last().labels, name) {
            None => rest,
            Some(v) => if rest.contains(v) {
                rest
            } else {
                rest.push(v)
            },
        }
    }
}

/// The complement groups of a non-empty value `v`: one `NotValue(w)` for
/// every other value `w` observed at this level, in order.
pub open spec fn not_values(values: Seq<Seq<char>>, v: Seq<char>) -> Seq<GroupView>
    decreases values.len(),
{
    if values.len() == 0 {
        Seq::empty()
    } else {
        let rest = not_values(values.drop_last(), v);
        if values.last() == v {
            rest
        } else {
            rest.push(GroupView::NotValue(values.last()))
        }
    }
}

/// The groups one entry belongs to at a `ByLabel` level, from its value
/// of the label and the distinct values observed at the level: absent
/// means `Unset` alone; the empty string means `Set` and `Empty`; any
/// other value `v` means `Set`, `Value(v)` and `NotValue(w)` for every
/// other observed value `w`.
pub open spec fn spec_groups(value: Option<Seq<char>>, values: Seq<Seq<char>>) -> Seq<GroupView> {
    match value {
        None => seq![GroupView::Unset],
        Some(v) => if v.len() == 0 {
            seq![GroupView::IsSet, GroupView::Empty]
        } else {
            seq![GroupView::IsSet, GroupView::Value(v)] + not_values(values, v)
        },
    }
}

/// Whether an entry belongs to group `g` at a `ByLabel` level on `name`.
pub open spec fn in_group(e: EntryView, name: Seq<char>, values: Seq<Seq<char>>, g: GroupView) -> bool {
    spec_groups(spec_get(e.labels, name), values).contains(g)
}

/// The entries belonging to group `g`, in their original order.
pub open spec fn members(
    entries: Seq<EntryView>,
    name: Seq<char>,
    values: Seq<Seq<char>>,
    g: GroupView,
) -> Seq<EntryView>
    decreases entries.len(),
{
    if entries.len() == 0 {
        Seq::empty()
    } else {
        let rest = members(entries.drop_last(), name, values, g);
        if in_group(entries.last(), name, values, g) {
            rest.push(entries.last())
        } else {
            rest
        }
    }
}

/// The elements of `gs` not yet in `seen`, first occurrences only, in order.
pub open spec fn new_groups(gs: Seq<GroupView>, seen: Seq<GroupView>) -> Seq<GroupView>
    decreases gs.len(),
{
    if gs.len() == 0 {
        Seq::empty()
    } else {
        let rest = new_groups(gs.drop_last(), seen);
        if seen.contains(gs.last()) || gs.drop_last().contains(gs.last()) {
            rest
        } else {
            rest.push(gs.last())
        }
    }
}

/// All groups inhabited at a `ByLabel` level, in order of first appearance.
pub open spec fn group_list(entries: Seq<EntryView>, name: Seq<char>, values: Seq<Seq<char>>) -> Seq<
    GroupView,
>
    decreases entries.len(),
{
    if entries.len() == 0 {
        Seq::empty()
    } else {
        let seen = group_list(entries.drop_last(), name, values);
        seen + new_groups(spec_groups(spec_get(entries.last().labels, name), values), seen)
    }
}

/// The group memberships of one entry at a `ByLabel` level.
impl LabelGroup {
    pub fn groups(value: Option<String>, values: &Vec<String>) -> (r: Vec<LabelGroup>)
        ensures
            groups_view(r@) == spec_groups(value.deep_view(), values.deep_view()),
    {
        let mut gs: Vec<LabelGroup> = Vec::new();
        match value {
            None => {
                gs.push(LabelGroup::Unset);
                proof {
                    assert(groups_view(gs@) =~~= spec_groups(None, values.deep_view()));
                }
            },
            Some(v) => {
                gs.push(LabelGroup::IsSet);
                if v.unicode_len() == 0 {
                    gs.push(LabelGroup::Empty);
                    proof {
                        assert(groups_view(gs@) =~~= spec_groups(Some(v@), values.deep_view()));
                    }
                } else {
                    gs.push(LabelGroup::Value(v.clone()));
                    let ghost dv = values.deep_view();
                    proof {
                        assert(groups_view(gs@) =~~= seq![GroupView::IsSet, GroupView::Value(v@)]
                            + not_values(dv.take(0), v@));
                    }
                    let n = values.len();
                    let mut i: usize = 0;
                    while i < n
                        invariant
                            0 <= i <= n,
                            n == dv.len(),
                            dv == values.deep_view(),
                            v@.len() > 0,
                            groups_view(gs@) == seq![GroupView::IsSet, GroupView::Value(v@)]
                                + not_values(dv.take(i as int), v@),
                        decreases n - i,
                    {
                        proof {
                            assert(groups_view(gs@).len() == gs@.len());
                            assert(dv.take(i as int + 1).drop_last() =~~= dv.take(i as int));
                            assert(dv.take(i as int + 1).last() == dv[i as int]);
                            assert(dv[i as int] == values@[i as int]@);
                        }
                        if !str_eq(values[i].as_str(), v.as_str()) {
                            let ghost gs_pre = gs@;
                            let c = values[i].clone();
                            gs.push(LabelGroup::NotValue(c));
                            proof {
                                assert(not_values(dv.take(i as int + 1), v@) == not_values(
                                    dv.take(i as int),
                                    v@,
                                ).push(GroupView::NotValue(dv[i as int])));
                                let lhs = groups_view(gs@);
                                let rhs = seq![GroupView::IsSet, GroupView::Value(v@)] + not_values(
                                    dv.take(i as int + 1),
                                    v@,
                                );
                                assert(lhs.len() == gs@.len());
                                assert(lhs.len() == rhs.len());
                                assert forall|k: int| 0 <= k < lhs.len() implies lhs[k] == rhs[k] by {
                                    if k < lhs.len() - 1 {
                                        assert(gs@[k] == gs_pre[k]);
                                        assert(lhs[k] == groups_view(gs_pre)[k]);
                                    } else {
                                        assert(lhs[k] == GroupView::NotValue(c@));
                                    }
                                }
                                assert(lhs =~~= rhs);
                            }
                        } else {
                            proof {
                                assert(not_values(dv.take(i as int + 1), v@) == not_values(
                                    dv.take(i as int),
                                    v@,
                                ));
                                assert(groups_view(gs@) =~~= seq![
                                    GroupView::IsSet,
                                    GroupView::Value(v@),
                                ] + not_values(dv.take(i as int + 1), v@));
                            }
                        }
                        i += 1;
                    }
                    proof {
                        assert(dv.take(n as int) =~~= dv);
                    }
                }
            },
        }
        gs
    }
}

/// Membership under `push`.
proof fn lemma_contains_push<A>(s: Seq<A>, x: A, y: A)
    ensures
        s.push(x).contains(y) <==> (s.contains(y) || x == y),
{
    if s.contains(y) {
        let i = choose|i: int| 0 <= i < s.len() && s[i] == y;
        assert(s.push(x)[i] == y);
    }
    if x == y {
        assert(s.push(x)[s.len() as int] == y);
    }
    if s.push(x).contains(y) {
        let i = choose|i: int| 0 <= i < s.push(x).len() && s.push(x)[i] == y;
        if i < s.len() {
            assert(s[i] == y);
        }
    }
}

/// Membership split at the last element.
proof fn lemma_contains_split<A>(s: Seq<A>, y: A)
    requires
        s.len() > 0,
    ensures
        s.contains(y) <==> (s.drop_last().contains(y) || s.last() == y),
{
    assert(s =~= s.drop_last().push(s.last()));
    lemma_contains_push(s.drop_last(), s.last(), y);
}

/// Membership under concatenation.
proof fn lemma_contains_add<A>(a: Seq<A>, b: Seq<A>, y: A)
    ensures
        (a + b).contains(y) <==> (a.contains(y) || b.contains(y)),
{
    if a.contains(y) {
        let i = choose|i: int| 0 <= i < a.len() && a[i] == y;
        assert((a + b)[i] == y);
    }
    if b.contains(y) {
        let i = choose|i: int| 0 <= i < b.len() && b[i] == y;
        assert((a + b)[a.len() + i] == y);
    }
    if (a + b).contains(y) {
        let i = choose|i: int| 0 <= i < (a + b).len() && (a + b)[i] == y;
        if i < a.len() {
            assert(a[i] == y);
        } else {
            assert(b[i - a.len()] == y);
        }
    }
}

/// `new_groups` holds exactly the elements of `gs` that `seen` lacks.
proof fn lemma_new_groups_contains(gs: Seq<GroupView>, seen: Seq<GroupView>, g: GroupView)
    ensures
        new_groups(gs, seen).contains(g) <==> (gs.contains(g) && !seen.contains(g)),
    decreases gs.len(),
{
    if gs.len() > 0 {
        lemma_new_groups_contains(gs.drop_last(), seen, g);
        lemma_contains_split(gs, g);
        let rest = new_groups(gs.drop_last(), seen);
        if seen.contains(gs.last()) || gs.drop_last().contains(gs.last()) {
        } else {
            lemma_contains_push(rest, gs.last(), g);
        }
    }
}

/// A group outside the inhabited list has no members.
proof fn lemma_members_absent(
    entries: Seq<EntryView>,
    name: Seq<char>,
    values: Seq<Seq<char>>,
    g: GroupView,
)
    requires
        !group_list(entries, name, values).contains(g),
    ensures
        members(entries, name, values, g) == Seq::<EntryView>::empty(),
    decreases entries.len(),
{
    if entries.len() > 0 {
        let seen = group_list(entries.drop_last(), name, values);
        let egs = spec_groups(spec_get(entries.last().labels, name), values);
        lemma_contains_add(seen, new_groups(egs, seen), g);
        lemma_new_groups_contains(egs, seen, g);
        lemma_members_absent(entries.drop_last(), name, values, g);
        assert(!in_group(entries.last(), name, values, g));
    }
}

/// The distinct-value list never repeats a value.
proof fn lemma_distinct_values_nodup(entries: Seq<EntryView>, name: Seq<char>)
    ensures
        nodup(distinct_values(entries, name)),
    decreases entries.len(),
{
    if entries.len() > 0 {
        lemma_distinct_values_nodup(entries.drop_last(), name);
        let rest = distinct_values(entries.drop_last(), name);
        match spec_get(entries.last().labels, name) {
            None => {},
            Some(v) => {
                if !rest.contains(v) {
                    assert forall|i: int, j: int|
                        0 <= i < j < rest.push(v).len() implies rest.push(v)[i] != rest.push(
                        v,
                    )[j] by {
                        if j == rest.len() {
                            assert(rest[i] == rest.push(v)[i]);
                            assert(!rest.contains(v));
                        }
                    }
                }
            },
        }
    }
}

/// Each complement group comes from one of the observed values.
proof fn lemma_not_values_prov(values: Seq<Seq<char>>, v: Seq<char>)
    ensures
        forall|k: int|
            0 <= k < not_values(values, v).len() ==> exists|l: int|
                0 <= l < values.len() && (#[trigger] not_values(values, v)[k])
                    == GroupView::NotValue(values[l]) && values[l] != v,
    decreases values.len(),
{
    if values.len() > 0 {
        lemma_not_values_prov(values.drop_last(), v);
        let nv = not_values(values, v);
        let rest = not_values(values.drop_last(), v);
        assert forall|k: int| 0 <= k < nv.len() implies exists|l: int|
            0 <= l < values.len() && (#[trigger] nv[k]) == GroupView::NotValue(values[l])
                && values[l] != v by {
            if values.last() != v && k == nv.len() - 1 {
                assert(0 <= values.len() - 1 < values.len() && nv[k] == GroupView::NotValue(
                    values[values.len() - 1],
                ) && values[values.len() - 1] != v);
            } else {
                assert(nv[k] == rest[k]);
                let l = choose|l: int|
                    0 <= l < values.drop_last().len() && rest[k] == GroupView::NotValue(
                        values.drop_last()[l],
                    ) && values.drop_last()[l] != v;
                assert(values.drop_last()[l] == values[l]);
            }
        }
    }
}

/// Two positions of the complement list never hold the same group when
/// the observed values are distinct.
proof fn lemma_not_values_distinct(values: Seq<Seq<char>>, v: Seq<char>, i: int, j: int)
    requires
        nodup(values),
        0 <= i < j < not_values(values, v).len(),
    ensures
        not_values(values, v)[i] != not_values(values, v)[j],
    decreases values.len(),
{
    if values.len() > 0 {
        let nv = not_values(values, v);
        let rest = not_values(values.drop_last(), v);
        if values.last() != v && j == nv.len() - 1 {
            lemma_not_values_prov(values.drop_last(), v);
            let l = choose|l: int|
                0 <= l < values.drop_last().len() && rest[i] == GroupView::NotValue(
                    values.drop_last()[l],
                ) && values.drop_last()[l] != v;
            assert(values.drop_last()[l] == values[l]);
        } else {
            lemma_not_values_distinct(values.drop_last(), v, i, j);
        }
    }
}

/// An entry's group list never repeats a group when the observed values
/// are distinct.
proof fn lemma_groups_nodup(value: Option<Seq<char>>, values: Seq<Seq<char>>)
    requires
        nodup(values),
    ensures
        nodup(spec_groups(value, values)),
{
    match value {
        None => {},
        Some(v) => {
            if v.len() > 0 {
                let gs = spec_groups(value, values);
                let nv = not_values(values, v);
                lemma_not_values_prov(values, v);
                assert forall|i: int, j: int| 0 <= i < j < gs.len() implies gs[i] != gs[j] by {
                    if 2 <= i {
                        lemma_not_values_distinct(values, v, i - 2, j - 2);
                        assert(gs[i] == nv[i - 2]);
                        assert(gs[j] == nv[j - 2]);
                    } else if 2 <= j {
                        assert(gs[j] == nv[j - 2]);
                        let l = choose|l: int|
                            0 <= l < values.len() && nv[j - 2] == GroupView::NotValue(values[l])
                                && values[l] != v;
                    }
                }
            }
        },
    }
}

/// The mathematical shape of a fan-out result: output paths with their
/// entry subsets, in order of first appearance.
pub type OutSeq = Seq<(Seq<char>, Seq<EntryView>)>;

/// The view of an output list.
pub open spec fn out_view(s: Seq<(String, Vec<FileSdEntry>)>) -> OutSeq {
    Seq::new(s.len(), |i: int| (s[i].0@, entries_view(s[i].1@)))
}

/// No output path repeats.
pub open spec fn out_keys_distinct(s: OutSeq) -> bool {
    forall|i: int, j: int| 0 <= i < j < s.len() ==> (#[trigger] s[i]).0 != (#[trigger] s[j]).0
}

/// Binding a path: the first pair with this path is replaced in place;
/// with no such pair, the new pair is appended.
pub open spec fn out_insert(s: OutSeq, k: Seq<char>, v: Seq<EntryView>) -> OutSeq
    decreases s.len(),
{
    if s.len() == 0 {
        seq![(k, v)]
    } else if s[0].0 == k {
        seq![(k, v)] + s.drop_first()
    } else {
        seq![s[0]] + out_insert(s.drop_first(), k, v)
    }
}

/// Merging `t` onto `s`, pair by pair, later pairs winning on a path.
pub open spec fn out_extend(s: OutSeq, t: OutSeq) -> OutSeq
    decreases t.len(),
{
    if t.len() == 0 {
        s
    } else {
        out_extend(out_insert(s, t[0].0, t[0].1), t.drop_first())
    }
}

proof fn lemma_out_insert_at(s: OutSeq, k: Seq<char>, v: Seq<EntryView>, i: int)
    requires
        0 <= i < s.len(),
        s[i].0 == k,
        forall|j: int| 0 <= j < i ==> (#[trigger] s[j]).0 != k,
    ensures
        out_insert(s, k, v) == s.update(i, (k, v)),
    decreases i,
{
    if i == 0 {
        assert(out_insert(s, k, v) =~= s.update(0, (k, v)));
    } else {
        assert(forall|j: int|
            0 <= j < s.drop_first().len() ==> #[trigger] s.drop_first()[j] == s[j + 1]);
        lemma_out_insert_at(s.drop_first(), k, v, i - 1);
        assert(seq![s[0]] + s.drop_first().update(i - 1, (k, v)) =~= s.update(i, (k, v)));
    }
}

proof fn lemma_out_insert_absent(s: OutSeq, k: Seq<char>, v: Seq<EntryView>)
    requires
        forall|j: int| 0 <= j < s.len() ==> (#[trigger] s[j]).0 != k,
    ensures
        out_insert(s, k, v) == s.push((k, v)),
    decreases s.len(),
{
    if s.len() == 0 {
        assert(out_insert(s, k, v) =~= s.push((k, v)));
    } else {
        assert(forall|j: int|
            0 <= j < s.drop_first().len() ==> #[trigger] s.drop_first()[j] == s[j + 1]);
        lemma_out_insert_absent(s.drop_first(), k, v);
        assert(seq![s[0]] + s.drop_first().push((k, v)) =~= s.push((k, v)));
    }
}

/// `out_insert` keeps paths distinct.
proof fn lemma_out_insert_distinct(s: OutSeq, k: Seq<char>, v: Seq<EntryView>)
    requires
        out_keys_distinct(s),
    ensures
        out_keys_distinct(out_insert(s, k, v)),
        forall|j: int|
            0 <= j < out_insert(s, k, v).len() ==> ((#[trigger] out_insert(s, k, v)[j]).0 == k
                || exists|l: int| 0 <= l < s.len() && out_insert(s, k, v)[j].0 == (#[trigger] s[l]).0),
    decreases s.len(),
{
    if s.len() == 0 {
    } else if s[0].0 == k {
        assert(out_insert(s, k, v) =~= s.update(0, (k, v)));
        assert forall|j: int| 0 <= j < out_insert(s, k, v).len() implies ((#[trigger] out_insert(
            s,
            k,
            v,
        )[j]).0 == k || exists|l: int|
            0 <= l < s.len() && out_insert(s, k, v)[j].0 == (#[trigger] s[l]).0) by {
            if j > 0 {
                assert(out_insert(s, k, v)[j].0 == s[j].0);
            }
        }
    } else {
        assert(forall|j: int|
            0 <= j < s.drop_first().len() ==> #[trigger] s.drop_first()[j] == s[j + 1]);
        lemma_out_insert_distinct(s.drop_first(), k, v);
        let r = out_insert(s, k, v);
        let rr = out_insert(s.drop_first(), k, v);
        assert(forall|j: int| 1 <= j < r.len() ==> #[trigger] r[j] == rr[j - 1]);
        assert forall|j: int| 0 <= j < r.len() implies ((#[trigger] r[j]).0 == k || exists|l: int|
            0 <= l < s.len() && r[j].0 == (#[trigger] s[l]).0) by {
            if j == 0 {
                assert(r[0].0 == s[0].0);
            } else {
                if rr[j - 1].0 != k {
                    let l = choose|l: int|
                        0 <= l < s.drop_first().len() && rr[j - 1].0 == s.drop_first()[l].0;
                    assert(r[j].0 == s[l + 1].0);
                }
            }
        }
        assert forall|i: int, j: int| 0 <= i < j < r.len() implies (#[trigger] r[i]).0 != (
        #[trigger] r[j]).0 by {
            if i == 0 {
                if rr[j - 1].0 == k {
                } else {
                    let l = choose|l: int|
                        0 <= l < s.drop_first().len() && rr[j - 1].0 == s.drop_first()[l].0;
                    assert(s[0].0 != s[l + 1].0);
                }
            }
        }
    }
}

/// `out_extend` keeps paths distinct.
proof fn lemma_out_extend_distinct(s: OutSeq, t: OutSeq)
    requires
        out_keys_distinct(s),
    ensures
        out_keys_distinct(out_extend(s, t)),
    decreases t.len(),
{
    if t.len() > 0 {
        lemma_out_insert_distinct(s, t[0].0, t[0].1);
        lemma_out_extend_distinct(out_insert(s, t[0].0, t[0].1), t.drop_first());
    }
}

/// The entries whose value of `name` equals `value`, in order.
pub open spec fn value_filter(entries: Seq<EntryView>, name: Seq<char>, value: Seq<char>) -> Seq<
    EntryView,
>
    decreases entries.len(),
{
    if entries.len() == 0 {
        Seq::empty()
    } else {
        let rest = value_filter(entries.drop_last(), name, value);
        if spec_get(entries.last().labels, name) == Some(value) {
            rest.push(entries.last())
        } else {
            rest
        }
    }
}

/// The path suffix of one group of label `name`.
pub open spec fn group_suffix(name: Seq<char>, g: GroupView) -> Seq<char> {
    match g {
        GroupView::Value(v) => name + "-is-"@ + v,
        GroupView::NotValue(v) => name + "-is-not-"@ + v,
        GroupView::IsSet => name + "-is-set"@,
        GroupView::Empty => name + "-is-empty"@,
        GroupView::Unset => name + "-is-not-set"@,
    }
}

/// The output subtree path of one group.
pub open spec fn group_path(path: Seq<char>, name: Seq<char>, g: GroupView) -> Seq<char> {
    path + "/"@ + group_suffix(name, g)
}

/// The fan-out of `entries` along `filters` below `path`: an empty chain
/// yields the single file `path + ".json"` holding all entries; a
/// `ByLabelValue` step narrows and recurses once; a `ByLabel` step
/// recurses into every inhabited group and merges the results in group
/// order.
pub open spec fn spec_fan_out(entries: Seq<EntryView>, filters: Seq<FilterView>, path: Seq<char>) -> OutSeq
    decreases filters.len(), 0nat,
{
    if filters.len() == 0 {
        seq![(path + ".json"@, entries)]
    } else {
        match filters[0] {
            FilterView::ByLabelValue(name, value) => spec_fan_out(
                value_filter(entries, name, value),
                filters.drop_first(),
                path + "/"@ + name + "-"@ + value,
            ),
            FilterView::ByLabel(name) => {
                let values = distinct_values(entries, name);
                merge_groups(
                    Seq::empty(),
                    group_list(entries, name, values),
                    entries,
                    name,
                    values,
                    filters.drop_first(),
                    path,
                )
            },
        }
    }
}

/// Folds the recursive fan-outs of the groups onto `acc`, in group order.
pub open spec fn merge_groups(
    acc: OutSeq,
    groups: Seq<GroupView>,
    entries: Seq<EntryView>,
    name: Seq<char>,
    values: Seq<Seq<char>>,
    rest: Seq<FilterView>,
    path: Seq<char>,
) -> OutSeq
    decreases rest.len(), groups.len() + 1,
{
    if groups.len() == 0 {
        acc
    } else {
        merge_groups(
            out_extend(
                acc,
                spec_fan_out(
                    members(entries, name, values, groups[0]),
                    rest,
                    group_path(path, name, groups[0]),
                ),
            ),
            groups.drop_first(),
            entries,
            name,
            values,
            rest,
            path,
        )
    }
}

/// Decides equality of two groups by their contents.
fn group_eq(a: &LabelGroup, b: &LabelGroup) -> (r: bool)
    ensures
        r == (a@ == b@),
{
    match (a, b) {
        (LabelGroup::Value(x), LabelGroup::Value(y)) => str_eq(x.as_str(), y.as_str()),
        (LabelGroup::NotValue(x), LabelGroup::NotValue(y)) => str_eq(x.as_str(), y.as_str()),
        (LabelGroup::IsSet, LabelGroup::IsSet) => true,
        (LabelGroup::Empty, LabelGroup::Empty) => true,
        (LabelGroup::Unset, LabelGroup::Unset) => true,
        _ => false,
    }
}

/// A copy of a group with the same view.
fn group_dup(g: &LabelGroup) -> (r: LabelGroup)
    ensures
        r@ == g@,
{
    match g {
        LabelGroup::Value(v) => LabelGroup::Value(v.clone()),
        LabelGroup::NotValue(v) => LabelGroup::NotValue(v.clone()),
        LabelGroup::IsSet => LabelGroup::IsSet,
        LabelGroup::Empty => LabelGroup::Empty,
        LabelGroup::Unset => LabelGroup::Unset,
    }
}

/// The position of a group in the key list, when it is there.
fn find_group(gkeys: &Vec<LabelGroup>, g: &LabelGroup) -> (r: Option<usize>)
    ensures
        match r {
            Some(ix) => ix < gkeys@.len() && groups_view(gkeys@)[ix as int] == g@,
            None => forall|j: int| 0 <= j < gkeys@.len() ==> groups_view(gkeys@)[j] != g@,
        },
{
    let n = gkeys.len();
    let mut i: usize = 0;
    while i < n
        invariant
            0 <= i <= n,
            n == gkeys@.len(),
            forall|j: int| 0 <= j < i ==> groups_view(gkeys@)[j] != g@,
        decreases n - i,
    {
        if group_eq(&gkeys[i], g) {
            proof {
                assert(groups_view(gkeys@)[i as int] == g@);
            }
            return Some(i);
        }
        proof {
            assert(groups_view(gkeys@)[i as int] != g@);
        }
        i += 1;
    }
    None
}

/// Whether a value already sits in the distinct-value list.
fn contains_string(vs: &Vec<String>, x: &String) -> (r: bool)
    ensures
        r == vs.deep_view().contains(x@),
{
    let n = vs.len();
    let mut i: usize = 0;
    while i < n
        invariant
            0 <= i <= n,
            n == vs@.len(),
            forall|j: int| 0 <= j < i ==> vs.deep_view()[j] != x@,
        decreases n - i,
    {
        if str_eq(vs[i].as_str(), x.as_str()) {
            proof {
                assert(vs.deep_view()[i as int] == x@);
            }
            return true;
        }
        proof {
            assert(vs.deep_view()[i as int] != x@);
        }
        i += 1;
    }
    false
}

/// Builds the output path of one group below `path`.
fn group_path_exec(path: &str, name: &str, g: &LabelGroup) -> (r: String)
    ensures
        r@ == group_path(path@, name@, g@),
{
    let mut s = String::from_str(path);
    s.append("/");
    s.append(name);
    match g {
        LabelGroup::Value(v) => {
            s.append("-is-");
            s.append(v.as_str());
        },
        LabelGroup::NotValue(v) => {
            s.append("-is-not-");
            s.append(v.as_str());
        },
        LabelGroup::IsSet => s.append("-is-set"),
        LabelGroup::Empty => s.append("-is-empty"),
        LabelGroup::Unset => s.append("-is-not-set"),
    }
    proof {
        assert(s@ =~= group_path(path@, name@, g@));
    }
    s
}

/// Binds one path in the output list: replaces the entry subset of an
/// existing path in place, appends a new pair otherwise.
fn out_insert_exec(out: &mut Vec<(String, Vec<FileSdEntry>)>, path: String, es: Vec<FileSdEntry>)
    ensures
        out_view(final(out)@) == out_insert(out_view(old(out)@), path@, entries_view(es@)),
{
    let ghost s0 = out_view(old(out)@);
    let n = out.len();
    let mut idx: usize = n;
    let mut i: usize = 0;
    while i < n
        invariant
            0 <= i <= n,
            n == out@.len(),
            out@ == old(out)@,
            s0 == out_view(out@),
            idx <= n,
            idx == n ==> forall|j: int| 0 <= j < i ==> (#[trigger] s0[j]).0 != path@,
            idx < n ==> idx < i && s0[idx as int].0 == path@ && forall|j: int|
                0 <= j < idx ==> (#[trigger] s0[j]).0 != path@,
        decreases n - i,
    {
        proof {
            assert(s0[i as int].0 == out@[i as int].0@);
        }
        if idx == n && str_eq(out[i].0.as_str(), path.as_str()) {
            idx = i;
        }
        i += 1;
    }
    if idx < n {
        proof {
            lemma_out_insert_at(s0, path@, entries_view(es@), idx as int);
        }
        out.remove(idx);
        out.insert(idx, (path, es));
        proof {
            assert(out_view(out@) =~~= s0.update(idx as int, (path@, entries_view(es@))));
        }
    } else {
        proof {
            lemma_out_insert_absent(s0, path@, entries_view(es@));
        }
        out.push((path, es));
        proof {
            assert(out_view(out@) =~~= s0.push((path@, entries_view(es@))));
        }
    }
}

/// Merges `add` onto `out`, pair by pair.
fn out_extend_exec(out: &mut Vec<(String, Vec<FileSdEntry>)>, add: Vec<(String, Vec<FileSdEntry>)>)
    ensures
        out_view(final(out)@) == out_extend(out_view(old(out)@), out_view(add@)),
{
    let ghost target = out_extend(out_view(old(out)@), out_view(add@));
    let mut rest = add;
    while rest.len() > 0
        invariant
            target == out_extend(out_view(out@), out_view(rest@)),
        decreases rest@.len(),
    {
        let ghost pre = out_view(rest@);
        proof {
            assert(pre.len() == rest@.len());
        }
        let (p, es) = rest.remove(0);
        proof {
            assert(out_view(rest@) =~~= pre.drop_first());
            assert(pre[0] == (p@, entries_view(es@)));
        }
        out_insert_exec(out, p, es);
    }
    proof {
        assert(out_view(rest@).len() == rest@.len());
    }
}

proof fn lemma_entries_view_push(pv: Seq<FileSdEntry>, e: FileSdEntry)
    ensures
        entries_view(pv.push(e)) == entries_view(pv).push(e@),
{
    assert(entries_view(pv.push(e)) =~~= entries_view(pv).push(e@));
}

proof fn lemma_groups_view_push(pv: Seq<LabelGroup>, g: LabelGroup)
    ensures
        groups_view(pv.push(g)) == groups_view(pv).push(g@),
{
    assert(groups_view(pv.push(g)) =~~= groups_view(pv).push(g@));
}

/// Recursively partitions `entries` along the filter chain from position
/// `at` on, below `path`.
fn fan_out_from(
    entries: Vec<FileSdEntry>,
    filters: &Vec<FilterSpec>,
    at: usize,
    path: &str,
) -> (r: Vec<(String, Vec<FileSdEntry>)>)
    requires
        at <= filters@.len(),
    ensures
        out_view(r@) == spec_fan_out(
            entries_view(entries@),
            filters_view(filters@).skip(at as int),
            path@,
        ),
        out_keys_distinct(out_view(r@)),
    decreases filters@.len() - at,
{
    let ghost ev = entries_view(entries@);
    let ghost fv = filters_view(filters@).skip(at as int);
    if at == filters.len() {
        let mut p = String::from_str(path);
        p.append(".json");
        let mut r: Vec<(String, Vec<FileSdEntry>)> = Vec::new();
        r.push((p, entries));
        proof {
            assert(fv.len() == 0);
            assert(out_view(r@) =~~= spec_fan_out(ev, fv, path@));
            assert(out_keys_distinct(out_view(r@)));
        }
        return r;
    }
    proof {
        assert(fv.len() == filters@.len() - at);
        assert(fv[0] == filters_view(filters@)[at as int]);
        assert(fv[0] == filters@[at as int]@);
        assert(fv.drop_first() =~~= filters_view(filters@).skip(at as int + 1));
    }
    let next_at = at + 1;
    match &filters[at] {
        FilterSpec::ByLabelValue(name, value) => {
            let mut narrowed: Vec<FileSdEntry> = Vec::new();
            let n = entries.len();
            let mut i: usize = 0;
            while i < n
                invariant
                    0 <= i <= n,
                    n == ev.len(),
                    ev == entries_view(entries@),
                    entries_view(narrowed@) == value_filter(ev.take(i as int), name@, value@),
                decreases n - i,
            {
                proof {
                    assert(entries_view(narrowed@).len() == narrowed@.len());
                    assert(ev.take(i as int + 1).drop_last() =~~= ev.take(i as int));
                    assert(ev.take(i as int + 1).last() == ev[i as int]);
                    assert(ev[i as int] == entries@[i as int]@);
                }
                let matched = match entries[i].labels.get(name.as_str()) {
                    Some(v) => str_eq(v.as_str(), value.as_str()),
                    None => false,
                };
                if matched {
                    let ghost pv = narrowed@;
                    narrowed.push(entries[i].duplicate());
                    proof {
                        lemma_entries_view_push(pv, narrowed@.last());
                        assert(entries_view(narrowed@) =~~= value_filter(
                            ev.take(i as int + 1),
                            name@,
                            value@,
                        ));
                    }
                } else {
                    proof {
                        assert(entries_view(narrowed@) =~~= value_filter(
                            ev.take(i as int + 1),
                            name@,
                            value@,
                        ));
                    }
                }
                i += 1;
            }
            proof {
                assert(ev.take(n as int) =~~= ev);
            }
            let mut p = String::from_str(path);
            p.append("/");
            p.append(name.as_str());
            p.append("-");
            p.append(value.as_str());
            let r = fan_out_from(narrowed, filters, next_at, p.as_str());
            proof {
                assert(p@ =~= path@ + "/"@ + name@ + "-"@ + value@);
                assert(out_view(r@) == spec_fan_out(ev, fv, path@));
            }
            r
        },
        FilterSpec::ByLabel(name) => {
            let ghost nm = name@;
            let n = entries.len();
            // the distinct present values of the label, in first-seen order
            let mut values: Vec<String> = Vec::new();
            let mut i: usize = 0;
            while i < n
                invariant
                    0 <= i <= n,
                    n == ev.len(),
                    ev == entries_view(entries@),
                    nm == name@,
                    values.deep_view() == distinct_values(ev.take(i as int), nm),
                decreases n - i,
            {
                proof {
                    assert(values.deep_view().len() == values@.len());
                    assert(ev.take(i as int + 1).drop_last() =~~= ev.take(i as int));
                    assert(ev.take(i as int + 1).last() == ev[i as int]);
                    assert(ev[i as int] == entries@[i as int]@);
                }
                match entries[i].labels.get(name.as_str()) {
                    Some(v) => {
                        if !contains_string(&values, v) {
                            values.push(v.clone());
                        }
                        proof {
                            assert(values.deep_view() =~~= distinct_values(
                                ev.take(i as int + 1),
                                nm,
                            ));
                        }
                    },
                    None => {
                        proof {
                            assert(values.deep_view() =~~= distinct_values(
                                ev.take(i as int + 1),
                                nm,
                            ));
                        }
                    },
                }
                i += 1;
            }
            let ghost vals = values.deep_view();
            proof {
                assert(ev.take(n as int) =~~= ev);
                assert(vals == distinct_values(ev, nm));
                lemma_distinct_values_nodup(ev, nm);
            }
            // group assignment: each entry joins every group it belongs to
            let mut gkeys: Vec<LabelGroup> = Vec::new();
            let mut gvals: Vec<Vec<FileSdEntry>> = Vec::new();
            let mut ei: usize = 0;
            while ei < n
                invariant
                    0 <= ei <= n,
                    n == ev.len(),
                    ev == entries_view(entries@),
                    nm == name@,
                    vals == values.deep_view(),
                    vals == distinct_values(ev, nm),
                    nodup(vals),
                    gkeys@.len() == gvals@.len(),
                    groups_view(gkeys@) == group_list(ev.take(ei as int), nm, vals),
                    nodup(groups_view(gkeys@)),
                    forall|jj: int|
                        0 <= jj < gvals@.len() ==> entries_view((#[trigger] gvals@[jj])@)
                            == members(
                            ev.take(ei as int),
                            nm,
                            vals,
                            groups_view(gkeys@)[jj],
                        ),
                decreases n - ei,
            {
                proof {
                    assert(groups_view(gkeys@).len() == gkeys@.len());
                    assert(ev.take(ei as int + 1).drop_last() =~~= ev.take(ei as int));
                    assert(ev.take(ei as int + 1).last() == ev[ei as int]);
                    assert(ev[ei as int] == entries@[ei as int]@);
                }
                let value_opt: Option<String> = match entries[ei].labels.get(name.as_str()) {
                    Some(v) => Some(v.clone()),
                    None => None,
                };
                proof {
                    assert(value_opt.deep_view() == spec_get(ev[ei as int].labels, nm));
                }
                let gs = LabelGroup::groups(value_opt, &values);
                let ghost gsv = spec_groups(spec_get(ev[ei as int].labels, nm), vals);
                let ghost seen0 = group_list(ev.take(ei as int), nm, vals);
                proof {
                    assert(groups_view(gs@) == gsv);
                    lemma_groups_nodup(spec_get(ev[ei as int].labels, nm), vals);
                }
                let m = gs.len();
                let mut gi: usize = 0;
                while gi < m
                    invariant
                        0 <= gi <= m,
                        m == gsv.len(),
                        0 <= ei < n,
                        n == ev.len(),
                        ev == entries_view(entries@),
                        nm == name@,
                        vals == values.deep_view(),
                        nodup(vals),
                        gsv == spec_groups(spec_get(ev[ei as int].labels, nm), vals),
                        groups_view(gs@) == gsv,
                        nodup(gsv),
                        seen0 == group_list(ev.take(ei as int), nm, vals),
                        gkeys@.len() == gvals@.len(),
                        groups_view(gkeys@) == seen0 + new_groups(gsv.take(gi as int), seen0),
                        nodup(groups_view(gkeys@)),
                        forall|jj: int|
                            0 <= jj < gvals@.len() ==> entries_view((#[trigger] gvals@[jj])@) == (
                            if gsv.take(gi as int).contains(groups_view(gkeys@)[jj]) {
                                members(
                                    ev.take(ei as int),
                                    nm,
                                    vals,
                                    groups_view(gkeys@)[jj],
                                ).push(ev[ei as int])
                            } else {
                                members(ev.take(ei as int), nm, vals, groups_view(gkeys@)[jj])
                            }),
                    decreases m - gi,
                {
                    let g = &gs[gi];
                    proof {
                        assert(groups_view(gkeys@).len() == gkeys@.len());
                        assert(g@ == gsv[gi as int]);
                        assert(gsv.take(gi as int + 1).drop_last() =~~= gsv.take(gi as int));
                        assert(gsv.take(gi as int + 1).last() == gsv[gi as int]);
                        assert(gsv.take(gi as int + 1) =~~= gsv.take(gi as int).push(
                            gsv[gi as int],
                        ));
                        if gsv.take(gi as int).contains(gsv[gi as int]) {
                            let l = choose|l: int|
                                0 <= l < gi && gsv.take(gi as int)[l] == gsv[gi as int];
                            assert(gsv[l] == gsv[gi as int]);
                            assert(false);
                        }
                    }
                    match find_group(&gkeys, g) {
                        Some(ix) => {
                            proof {
                                let gk = groups_view(gkeys@);
                                let added = new_groups(gsv.take(gi as int), seen0);
                                if ix >= seen0.len() {
                                    assert(added[ix - seen0.len()] == g@);
                                    assert(added.contains(g@));
                                    lemma_new_groups_contains(gsv.take(gi as int), seen0, g@);
                                    assert(false);
                                }
                                assert(seen0[ix as int] == g@);
                                assert(seen0.contains(g@));
                            }
                            let ghost gv_pre = gvals@;
                            let e = entries[ei].duplicate();
                            let ghost epv = gvals@[ix as int]@;
                            gvals[ix].push(e);
                            proof {
                                lemma_entries_view_push(epv, gvals@[ix as int]@.last());
                                assert(new_groups(gsv.take(gi as int + 1), seen0) == new_groups(
                                    gsv.take(gi as int),
                                    seen0,
                                ));
                                let gk = groups_view(gkeys@);
                                assert forall|jj: int|
                                    0 <= jj < gvals@.len() implies entries_view(
                                    (#[trigger] gvals@[jj])@,
                                ) == (if gsv.take(gi as int + 1).contains(gk[jj]) {
                                    members(ev.take(ei as int), nm, vals, gk[jj]).push(
                                        ev[ei as int],
                                    )
                                } else {
                                    members(ev.take(ei as int), nm, vals, gk[jj])
                                }) by {
                                    lemma_contains_push(gsv.take(gi as int), gsv[gi as int], gk[jj]);
                                    if jj != ix {
                                        assert(gvals@[jj] == gv_pre[jj]);
                                        if gk[jj] == g@ {
                                            if jj < ix {
                                                assert(gk[jj] != gk[ix as int]);
                                            } else {
                                                assert(gk[ix as int] != gk[jj]);
                                            }
                                        }
                                    } else {
                                        assert(entries_view(gvals@[ix as int]@)
                                            == entries_view(epv).push(ev[ei as int]));
                                        assert(!gsv.take(gi as int).contains(g@));
                                    }
                                }
                            }
                        },
                        None => {
                            let gd = group_dup(g);
                            let ghost gk_pre = groups_view(gkeys@);
                            let ghost gkv_pre = gkeys@;
                            let ghost gv_pre = gvals@;
                            gkeys.push(gd);
                            let e = entries[ei].duplicate();
                            let mut nv: Vec<FileSdEntry> = Vec::new();
                            nv.push(e);
                            gvals.push(nv);
                            proof {
                                let added = new_groups(gsv.take(gi as int), seen0);
                                if seen0.contains(g@) {
                                    let l = choose|l: int| 0 <= l < seen0.len() && seen0[l] == g@;
                                    assert(gk_pre[l] == g@);
                                    assert(false);
                                }
                                assert(new_groups(gsv.take(gi as int + 1), seen0) == added.push(
                                    g@,
                                ));
                                lemma_groups_view_push(gkv_pre, gd);
                                assert(groups_view(gkeys@) == gk_pre.push(g@));
                                assert(gk_pre.push(g@) =~~= seen0 + added.push(g@));
                                assert(groups_view(gkeys@) == seen0 + new_groups(
                                    gsv.take(gi as int + 1),
                                    seen0,
                                ));
                                assert forall|i1: int, j1: int|
                                    0 <= i1 < j1 < groups_view(gkeys@).len() implies groups_view(
                                    gkeys@,
                                )[i1] != groups_view(gkeys@)[j1] by {
                                    if j1 == groups_view(gkeys@).len() - 1 {
                                        assert(groups_view(gkeys@)[i1] == gk_pre[i1]);
                                        assert(gk_pre[i1] != g@);
                                    }
                                }
                                lemma_members_absent(ev.take(ei as int), nm, vals, g@);
                                lemma_entries_view_push(Seq::empty(), e);
                                assert(entries_view(nv@) =~~= seq![e@]);
                                let gk = groups_view(gkeys@);
                                assert forall|jj: int|
                                    0 <= jj < gvals@.len() implies entries_view(
                                    (#[trigger] gvals@[jj])@,
                                ) == (if gsv.take(gi as int + 1).contains(gk[jj]) {
                                    members(ev.take(ei as int), nm, vals, gk[jj]).push(
                                        ev[ei as int],
                                    )
                                } else {
                                    members(ev.take(ei as int), nm, vals, gk[jj])
                                }) by {
                                    lemma_contains_push(gsv.take(gi as int), gsv[gi as int], gk[jj]);
                                    if jj < gvals@.len() - 1 {
                                        assert(gvals@[jj] == gv_pre[jj]);
                                        assert(gk[jj] == gk_pre[jj]);
                                        assert(gk_pre[jj] != g@);
                                    } else {
                                        assert(gk[jj] == g@);
                                        assert(entries_view(gvals@[jj]@) == seq![ev[ei as int]]);
                                        assert(members(ev.take(ei as int), nm, vals, g@)
                                            == Seq::<EntryView>::empty());
                                        assert(members(ev.take(ei as int), nm, vals, g@).push(
                                            ev[ei as int],
                                        ) =~~= seq![ev[ei as int]]);
                                    }
                                }
                            }
                        },
                    }
                    gi += 1;
                }
                proof {
                    assert(gsv.take(m as int) =~~= gsv);
                    assert(group_list(ev.take(ei as int + 1), nm, vals) == seen0 + new_groups(
                        gsv,
                        seen0,
                    ));
                    let gk = groups_view(gkeys@);
                    assert forall|jj: int|
                        0 <= jj < gvals@.len() implies entries_view((#[trigger] gvals@[jj])@)
                        == members(ev.take(ei as int + 1), nm, vals, gk[jj]) by {
                        assert(in_group(ev[ei as int], nm, vals, gk[jj]) == gsv.contains(gk[jj]));
                    }
                }
                ei += 1;
            }
            proof {
                assert(ev.take(n as int) =~~= ev);
            }
            // recurse into every group and merge the results in group order
            let ghost rrest = filters_view(filters@).skip(at as int + 1);
            let ghost glist = groups_view(gkeys@);
            let ghost total = merge_groups(Seq::empty(), glist, ev, nm, vals, rrest, path@);
            let mut out: Vec<(String, Vec<FileSdEntry>)> = Vec::new();
            proof {
                assert(out_view(out@) =~~= Seq::empty());
            }
            while gkeys.len() > 0
                invariant
                    out_keys_distinct(out_view(out@)),
                    gkeys@.len() == gvals@.len(),
                    ev == entries_view(entries@),
                    nm == name@,
                    at < filters@.len(),
                    next_at == at + 1,
                    rrest == filters_view(filters@).skip(at as int + 1),
                    forall|jj: int|
                        0 <= jj < gvals@.len() ==> entries_view((#[trigger] gvals@[jj])@)
                            == members(ev, nm, vals, groups_view(gkeys@)[jj]),
                    merge_groups(out_view(out@), groups_view(gkeys@), ev, nm, vals, rrest, path@)
                        == total,
                decreases gkeys@.len(),
            {
                proof {
                    assert(groups_view(gkeys@).len() == gkeys@.len());
                }
                let ghost gk_pre = groups_view(gkeys@);
                let ghost gv_pre = gvals@;
                let g = gkeys.remove(0);
                let es = gvals.remove(0);
                proof {
                    assert(groups_view(gkeys@) =~~= gk_pre.drop_first());
                    assert(g@ == gk_pre[0]);
                    assert(entries_view(es@) == members(ev, nm, vals, gk_pre[0]));
                    assert forall|jj: int|
                        0 <= jj < gvals@.len() implies entries_view((#[trigger] gvals@[jj])@)
                        == members(ev, nm, vals, groups_view(gkeys@)[jj]) by {
                        assert(gvals@[jj] == gv_pre[jj + 1]);
                        assert(groups_view(gkeys@)[jj] == gk_pre[jj + 1]);
                    }
                }
                let gpath = group_path_exec(path, name.as_str(), &g);
                let sub = fan_out_from(es, filters, next_at, gpath.as_str());
                let ghost out_pre = out_view(out@);
                out_extend_exec(&mut out, sub);
                proof {
                    lemma_out_extend_distinct(out_pre, out_view(sub@));
                    assert(out_view(sub@) == spec_fan_out(
                        members(ev, nm, vals, gk_pre[0]),
                        rrest,
                        group_path(path@, nm, gk_pre[0]),
                    ));
                    assert(out_view(out@) == out_extend(out_pre, out_view(sub@)));
                    assert(merge_groups(out_pre, gk_pre, ev, nm, vals, rrest, path@)
                        == merge_groups(
                        out_view(out@),
                        gk_pre.drop_first(),
                        ev,
                        nm,
                        vals,
                        rrest,
                        path@,
                    ));
                }
            }
            proof {
                assert(out_view(out@) == total);
                assert(spec_fan_out(ev, fv, path@) == total);
            }
            out
        },
    }
}

/// Recursively partitions `entries` along `filters`, from `path` down:
/// the mapping from output path to entry subset that the filter chain
/// prescribes, with every output path distinct.
///
/// A caution on the path naming: two groups of one `ByLabel` level can
/// share a path when a label value collides with a group suffix — a
/// value that reads `set`, `empty`, `not-set`, or `not-<w>` for another
/// observed value `w`. The later group in first-appearance order then
/// replaces the earlier group's file, and an entry can drop out of
/// every output at that level (an absent-label entry loses
/// `<name>-is-not-set.json` to a value literally `not-set`). The
/// contract pins this replacement order exactly.
pub fn fan_out_entries(entries: Vec<FileSdEntry>, filters: &Vec<FilterSpec>, path: &str) -> (r: Vec<
    (String, Vec<FileSdEntry>),
>)
    ensures
        out_view(r@) == spec_fan_out(entries_view(entries@), filters_view(filters@), path@),
        out_keys_distinct(out_view(r@)),
{
    let r = fan_out_from(entries, filters, 0, path);
    proof {
        assert(filters_view(filters@).skip(0) =~~= filters_view(filters@));
    }
    r
}

/// Partitioning with an empty filter chain yields exactly one output
/// path — the base path with ".json" appended — mapped to the full
/// input set, unmodified.
pub proof fn lemma_fan_out_empty_chain(entries: Seq<EntryView>, path: Seq<char>)
    ensures
        spec_fan_out(entries, Seq::empty(), path) == seq![(path + ".json"@, entries)],
{
}

/// An entry whose grouping label is absent belongs to exactly one group
/// at its level: `Unset`.
pub proof fn lemma_membership_absent(values: Seq<Seq<char>>)
    ensures
        spec_groups(None, values) == seq![GroupView::Unset],
{
}

/// An entry carrying the empty string belongs to exactly two groups at
/// its level: `IsSet` and `Empty`.
pub proof fn lemma_membership_empty_value(values: Seq<Seq<char>>)
    ensures
        spec_groups(Some(Seq::<char>::empty()), values) == seq![
            GroupView::IsSet,
            GroupView::Empty,
        ],
{
}

proof fn lemma_not_values_len_absent(values: Seq<Seq<char>>, v: Seq<char>)
    requires
        !values.contains(v),
    ensures
        not_values(values, v).len() == values.len(),
    decreases values.len(),
{
    if values.len() > 0 {
        lemma_contains_split(values, v);
        lemma_not_values_len_absent(values.drop_last(), v);
    }
}

proof fn lemma_not_values_len(values: Seq<Seq<char>>, v: Seq<char>)
    requires
        nodup(values),
        values.contains(v),
    ensures
        not_values(values, v).len() == values.len() - 1,
    decreases values.len(),
{
    if values.len() > 0 {
        if values.last() == v {
            if values.drop_last().contains(v) {
                let l = choose|l: int|
                    0 <= l < values.drop_last().len() && values.drop_last()[l] == v;
                assert(values[l] == values[values.len() - 1]);
                assert(false);
            }
            lemma_not_values_len_absent(values.drop_last(), v);
        } else {
            lemma_contains_split(values, v);
            lemma_not_values_len(values.drop_last(), v);
        }
    }
}

/// An entry carrying a non-empty value `v`, with `k` distinct present
/// values observed at its level, belongs to exactly `2 + (k - 1)`
/// distinct groups: `IsSet`, `Value(v)`, and one `NotValue(w)` for each
/// of the `k - 1` other observed values `w`.
pub proof fn lemma_membership_value(v: Seq<char>, values: Seq<Seq<char>>)
    requires
        v.len() > 0,
        nodup(values),
        values.contains(v),
    ensures
        spec_groups(Some(v), values).len() == 2 + (values.len() - 1),
        nodup(spec_groups(Some(v), values)),
{
    lemma_not_values_len(values, v);
    lemma_groups_nodup(Some(v), values);
}

proof fn lemma_not_values_contains(values: Seq<Seq<char>>, v: Seq<char>, g: GroupView)
    ensures
        not_values(values, v).contains(g) <==> (exists|l: int|
            0 <= l < values.len() && values[l] != v && g == GroupView::NotValue(
                #[trigger] values[l],
            )),
    decreases values.len(),
{
    if values.len() > 0 {
        lemma_not_values_contains(values.drop_last(), v, g);
        let rest = not_values(values.drop_last(), v);
        if values.last() != v {
            lemma_contains_push(rest, GroupView::NotValue(values.last()), g);
        }
        if not_values(values, v).contains(g) {
            if values.last() != v && g == GroupView::NotValue(values.last()) {
                assert(0 <= values.len() - 1 < values.len() && values[values.len() - 1] != v
                    && g == GroupView::NotValue(values[values.len() - 1]));
            } else {
                let l = choose|l: int|
                    0 <= l < values.drop_last().len() && values.drop_last()[l] != v && g
                        == GroupView::NotValue(values.drop_last()[l]);
                assert(values.drop_last()[l] == values[l]);
            }
        }
        if exists|l: int|
            0 <= l < values.len() && values[l] != v && g == GroupView::NotValue(
                #[trigger] values[l],
            ) {
            let l = choose|l: int|
                0 <= l < values.len() && values[l] != v && g == GroupView::NotValue(values[l]);
            if l < values.len() - 1 {
                assert(values.drop_last()[l] == values[l]);
                assert(rest.contains(g));
            } else {
                assert(values.last() == values[l]);
            }
        }
    }
}

/// At a `ByLabel` level, an entry whose grouping label is absent belongs
/// to the `Unset` group and to no other.
pub proof fn lemma_absent_entry_single_group(
    e: EntryView,
    name: Seq<char>,
    values: Seq<Seq<char>>,
    g: GroupView,
)
    requires
        spec_get(e.labels, name) is None,
    ensures
        in_group(e, name, values, g) <==> g == GroupView::Unset,
{
    let gs = spec_groups(spec_get(e.labels, name), values);
    if gs.contains(g) {
        let i = choose|i: int| 0 <= i < gs.len() && gs[i] == g;
        assert(gs[0] == GroupView::Unset);
    }
    if g == GroupView::Unset {
        assert(gs[0] == g);
    }
}

/// At a `ByLabel` level, an entry carrying a non-empty value `v` belongs
/// exactly to `IsSet`, to `Value(v)`, and to `NotValue(w)` for every
/// other observed value `w`.
pub proof fn lemma_value_entry_groups(v: Seq<char>, values: Seq<Seq<char>>, g: GroupView)
    requires
        v.len() > 0,
    ensures
        spec_groups(Some(v), values).contains(g) <==> (g == GroupView::IsSet || g
            == GroupView::Value(v) || exists|l: int|
            0 <= l < values.len() && values[l] != v && g == GroupView::NotValue(
                #[trigger] values[l],
            )),
{
    let s2 = seq![GroupView::IsSet, GroupView::Value(v)];
    lemma_contains_add(s2, not_values(values, v), g);
    lemma_not_values_contains(values, v, g);
    if s2.contains(g) {
        let i = choose|i: int| 0 <= i < s2.len() && s2[i] == g;
    }
    if g == GroupView::IsSet {
        assert(s2[0] == g);
    }
    if g == GroupView::Value(v) {
        assert(s2[1] == g);
    }
}

} // verus!

//! What holds of plans that are carried out.
use crate::error::ErrorView;
use crate::number;
use crate::porkbun::types::{ParamsView, RecordView};
use crate::text;
use crate::webhook::plan;
use crate::webhook::plan::MutationView;
use crate::webhook::records;
use crate::webhook::rules;
use crate::webhook::types;
use crate::webhook::types::EndpointView;
use vstd::prelude::*;

verus! {

/// The name under which the service lists a record with this subdomain.
pub open spec fn name_in(subdomain: Seq<char>, zone: Seq<char>) -> Seq<char> {
    if subdomain.len() == 0 {
        zone
    } else {
        subdomain + (seq!['.'] + zone)
    }
}

/// The record holds what was asked for; a setting that was not asked for may be any.
pub open spec fn reflects(zone: Seq<char>, params: ParamsView, r: RecordView) -> bool {
    &&& r.name == name_in(params.subdomain, zone)
    &&& r.record_type == params.record_type
    &&& r.content == params.content
    &&& params.ttl is Some ==> r.ttl_u32() == params.ttl
    &&& params.prio is Some ==> r.prio_u32() == params.prio
}

/// Tells the records with this id from the others.
pub open spec fn other_than(id: Seq<char>) -> spec_fn(RecordView) -> bool {
    |r: RecordView| r.id != id
}

/// The edit of the records with this id leads from `before` to `after`.
pub open spec fn edits(
    zone: Seq<char>,
    id: Seq<char>,
    params: ParamsView,
    before: Seq<RecordView>,
    after: Seq<RecordView>,
) -> bool {
    &&& after.len() == before.len()
    &&& forall|i: int|
        0 <= i < before.len() ==> if before[i].id == id {
            (#[trigger] after[i]).id == id && reflects(zone, params, after[i])
        } else {
            after[i] == before[i]
        }
}

/// The addition of a record leads from `before` to `after`.
pub open spec fn adds(
    zone: Seq<char>,
    params: ParamsView,
    before: Seq<RecordView>,
    after: Seq<RecordView>,
) -> bool {
    &&& after.len() == before.len() + 1
    &&& after == before.push(after.last())
    &&& reflects(zone, params, after.last())
}

/// The mutation of the records of `zone` leads from `before` to `after`.
pub open spec fn serves(
    zone: Seq<char>,
    m: MutationView,
    before: Seq<RecordView>,
    after: Seq<RecordView>,
) -> bool {
    match m {
        MutationView::Add { zone: z, params } => adds(zone, params, before, after),
        MutationView::Edit { zone: z, id, params } => edits(zone, id, params, before, after),
        MutationView::Remove { zone: z, id } => after == before.filter(other_than(id)),
    }
}

/// The mutations of the records of `zone` lead through the states, one after the other.
pub open spec fn leads_through(
    zone: Seq<char>,
    mutations: Seq<MutationView>,
    states: Seq<Seq<RecordView>>,
) -> bool {
    &&& states.len() == mutations.len() + 1
    &&& forall|k: int|
        0 <= k < mutations.len() ==> serves(zone, #[trigger] mutations[k], states[k], states[k + 1])
}

/// `zone` is a domain name in canonical form.
pub open spec fn canonical(zone: Seq<char>) -> bool {
    zone.len() > 0 && text::normalized(zone) == zone
}

/// The name is that of the zone, or has something before the dot that parts it from the zone.
pub open spec fn well_named(dns_name: Seq<char>, zone: Seq<char>) -> bool {
    text::under(text::normalized(dns_name), zone) && text::normalized(dns_name) != seq!['.'] + zone
}

/// The name that the service keeps and the zone make up the full name again.
pub proof fn subdomain_rebuilds(dns_name: Seq<char>, zone: Seq<char>)
    requires
        well_named(dns_name, zone),
    ensures
        name_in(rules::subdomain_of(dns_name, zone), zone) == text::normalized(dns_name),
{
    let n = text::normalized(dns_name);
    let tail = seq!['.'] + zone;
    if n != zone {
        let sub = rules::subdomain_of(dns_name, zone);
        assert(n =~= sub + tail) by {
            assert(n =~= n.take(n.len() - tail.len()) + n.subrange(
                n.len() - tail.len(),
                n.len() as int,
            ));
        }
        if sub.len() == 0 {
            assert(n =~= tail);
        }
    }
}

/// A record that holds what an endpoint wants belongs to the endpoint and provides for the
/// target.
pub proof fn wanted_belongs(
    zone: Seq<char>,
    e: EndpointView,
    prio: Option<u32>,
    t: Seq<char>,
    r: RecordView,
)
    requires
        canonical(zone),
        well_named(e.dns_name, zone),
        reflects(zone, plan::wanted(zone, e, prio, t), r),
    ensures
        rules::belongs(zone, e, r),
        plan::provides(e, prio, r, t),
{
    subdomain_rebuilds(e.dns_name, zone);
    text::name_in_zone_is_canonical(e.dns_name, zone);
    text::canonical_ends_well(zone);
}

/// The first element that a filtering map keeps.
proof fn first_kept<A, B>(s: Seq<A>, f: spec_fn(A) -> Option<B>) -> (i: int)
    requires
        s.filter_map(f).len() > 0,
    ensures
        0 <= i < s.len(),
        f(s[i]) == Some(s.filter_map(f)[0]),
        forall|j: int| 0 <= j < i ==> f(#[trigger] s[j]) is None,
    decreases s.len(),
{
    let front = s.drop_last();
    if front.filter_map(f).len() > 0 {
        let i = first_kept(front, f);
        assert(s[i] == front[i]);
        assert forall|j: int| 0 <= j < i implies f(#[trigger] s[j]) is None by {
            assert(s[j] == front[j]);
        }
        i
    } else {
        assert forall|j: int| 0 <= j < s.len() - 1 implies f(#[trigger] s[j]) is None by {
            nothing_kept(front, f, j);
            assert(s[j] == front[j]);
        }
        s.len() - 1
    }
}

/// Where a filtering map keeps nothing, it drops every element.
pub(crate) proof fn nothing_kept<A, B>(s: Seq<A>, f: spec_fn(A) -> Option<B>, j: int)
    requires
        s.filter_map(f).len() == 0,
        0 <= j < s.len(),
    ensures
        f(s[j]) is None,
    decreases s.len(),
{
    if j < s.len() - 1 {
        nothing_kept(s.drop_last(), f, j);
    }
}

/// Where a filtering map drops every element, it keeps nothing.
pub(crate) proof fn all_dropped<A, B>(s: Seq<A>, f: spec_fn(A) -> Option<B>)
    requires
        forall|j: int| 0 <= j < s.len() ==> f(#[trigger] s[j]) is None,
    ensures
        s.filter_map(f) == Seq::<B>::empty(),
    decreases s.len(),
{
    if s.len() > 0 {
        assert(f(s[s.len() - 1]) is None);
        assert forall|j: int| 0 <= j < s.drop_last().len() implies f(
            #[trigger] s.drop_last()[j],
        ) is None by {
            assert(s[j] == s.drop_last()[j]);
        }
        all_dropped(s.drop_last(), f);
    }
}

/// What a filtering map makes of an element is among what it keeps.
pub(crate) proof fn kept_is_there<A, B>(s: Seq<A>, f: spec_fn(A) -> Option<B>, j: int)
    requires
        0 <= j < s.len(),
        f(s[j]) is Some,
    ensures
        s.filter_map(f).contains(f(s[j])->0),
    decreases s.len(),
{
    let front = s.drop_last();
    let all = s.filter_map(f);
    if j == s.len() - 1 {
        assert(all[all.len() - 1] == f(s[j])->0);
    } else {
        kept_is_there(front, f, j);
        assert(front[j] == s[j]);
        let k = choose|k: int|
            0 <= k < front.filter_map(f).len() && front.filter_map(f)[k] == f(s[j])->0;
        assert(all[k] == f(s[j])->0);
    }
}

/// Where one map drops just the first element that another keeps, it gives the rest.
proof fn rest_kept<A, B>(s: Seq<A>, f: spec_fn(A) -> Option<B>, g: spec_fn(A) -> Option<B>, i: int)
    requires
        0 <= i < s.len(),
        f(s[i]) is Some,
        g(s[i]) is None,
        forall|j: int| 0 <= j < i ==> f(#[trigger] s[j]) is None,
        forall|j: int| 0 <= j < s.len() && j != i ==> g(#[trigger] s[j]) == f(s[j]),
    ensures
        s.filter_map(f).len() > 0,
        s.filter_map(g) == s.filter_map(f).drop_first(),
    decreases s.len(),
{
    let front = s.drop_last();
    assert forall|j: int| 0 <= j < front.len() implies #[trigger] front[j] == s[j] by {}
    if i == s.len() - 1 {
        all_dropped(front, f);
        all_dropped(front, g);
        assert(s.filter_map(f) =~= seq![f(s[i])->0]);
        assert(s.filter_map(g) =~= s.filter_map(f).drop_first());
    } else {
        rest_kept(front, f, g, i);
        assert(g(s[s.len() - 1]) == f(s[s.len() - 1]));
        assert(s.filter_map(g) =~= s.filter_map(f).drop_first());
    }
}

/// To filter and then map is to map what the filter keeps.
pub(crate) proof fn filtered_then_mapped<A, B>(
    s: Seq<A>,
    q: spec_fn(A) -> bool,
    f: spec_fn(A) -> Option<B>,
    h: spec_fn(A) -> Option<B>,
)
    requires
        forall|a: A| #[trigger]
            h(a) == if q(a) {
                f(a)
            } else {
                None
            },
    ensures
        s.filter(q).filter_map(f) == s.filter_map(h),
    decreases s.len(),
{
    reveal(Seq::filter);
    if s.len() > 0 {
        let front = s.drop_last();
        filtered_then_mapped(front, q, f, h);
        assert(h(s.last()) == if q(s.last()) {
            f(s.last())
        } else {
            None
        });
        if q(s.last()) {
            assert(s.filter(q) =~= front.filter(q).push(s.last()));
            assert(s.filter(q).drop_last() =~= front.filter(q));
        } else {
            assert(s.filter(q) =~= front.filter(q));
        }
    } else {
        assert(s.filter(q) =~= s);
    }
}

/// No two targets that are kept are the same.
pub proof fn distinct_differ(targets: Seq<Seq<char>>, record_type: Seq<char>)
    ensures
        forall|i: int, j: int|
            0 <= i < j < plan::distinct(targets, record_type).len() ==> !rules::same_target(
                #[trigger] plan::distinct(targets, record_type)[i],
                #[trigger] plan::distinct(targets, record_type)[j],
                record_type,
            ),
    decreases targets.len(),
{
    if targets.len() > 0 {
        let before = targets.drop_last();
        let kept = plan::distinct(before, record_type);
        let all = plan::distinct(targets, record_type);
        distinct_differ(before, record_type);
        plan::distinct_lists_all(before, targets.last(), record_type);
        assert forall|i: int, j: int| 0 <= i < j < all.len() implies !rules::same_target(
            #[trigger] all[i],
            #[trigger] all[j],
            record_type,
        ) by {
            assert(all[i] == kept[i]);
            if j < kept.len() {
                assert(all[j] == kept[j]);
            } else {
                if rules::same_target(kept[i], targets.last(), record_type) {
                    assert(plan::listed(kept, targets.last(), record_type));
                }
            }
        }
    }
}

/// The first addition that targets call for is one for some target.
pub(crate) proof fn first_addition(
    records: Seq<RecordView>,
    zone: Seq<char>,
    e: EndpointView,
    prio: Option<u32>,
    targets: Seq<Seq<char>>,
) -> (t: Seq<char>)
    requires
        plan::additions(
            records,
            zone,
            e,
            prio,
            plan::distinct(targets, e.record_type),
        ).len() > 0,
    ensures
        targets.contains(t),
        plan::additions(records, zone, e, prio, plan::distinct(targets, e.record_type))[0] == (
        MutationView::Add { zone, params: plan::wanted(zone, e, prio, t) }),
{
    let ts = plan::distinct(targets, e.record_type);
    let i = first_kept(ts, plan::addition(plan::matching(records, zone, e), zone, e, prio));
    distinct_stems(targets, e.record_type, i);
    ts[i]
}

/// After an addition that targets call for, they call for the rest.
pub(crate) proof fn additions_step(
    zone: Seq<char>,
    e: EndpointView,
    prio: Option<u32>,
    targets: Seq<Seq<char>>,
    before: Seq<RecordView>,
    after: Seq<RecordView>,
)
    requires
        canonical(zone),
        well_named(e.dns_name, zone),
        plan::additions(
            before,
            zone,
            e,
            prio,
            plan::distinct(targets, e.record_type),
        ).len() > 0,
        serves(
            zone,
            plan::additions(before, zone, e, prio, plan::distinct(targets, e.record_type))[0],
            before,
            after,
        ),
    ensures
        plan::additions(after, zone, e, prio, plan::distinct(targets, e.record_type))
            == plan::additions(
            before,
            zone,
            e,
            prio,
            plan::distinct(targets, e.record_type),
        ).drop_first(),
{
    let ts = plan::distinct(targets, e.record_type);
    let had = plan::matching(before, zone, e);
    let has = plan::matching(after, zone, e);
    let f = plan::addition(had, zone, e, prio);
    let g = plan::addition(has, zone, e, prio);
    let i = first_kept(ts, f);
    let r = after.last();
    wanted_belongs(zone, e, prio, ts[i], r);
    before.lemma_filter_push(r, plan::belonging(zone, e));
    assert(has == had.push(r));
    distinct_differ(targets, e.record_type);
    assert(plan::provides(e, prio, has[has.len() - 1], ts[i]));
    assert forall|j: int| 0 <= j < ts.len() && j != i implies g(#[trigger] ts[j]) == f(ts[j]) by {
        if i < j {
            assert(!rules::same_target(ts[i], ts[j], e.record_type));
        } else {
            assert(!rules::same_target(ts[j], ts[i], e.record_type));
        }
        if plan::provided(had, e, prio, ts[j]) {
            let k = choose|k: int|
                0 <= k < had.len() && #[trigger] plan::provides(e, prio, had[k], ts[j]);
            assert(plan::provides(e, prio, has[k], ts[j]));
        }
        if plan::provided(has, e, prio, ts[j]) {
            let k = choose|k: int|
                0 <= k < has.len() && #[trigger] plan::provides(e, prio, has[k], ts[j]);
            assert(k < had.len());
            assert(plan::provides(e, prio, had[k], ts[j]));
        }
    }
    rest_kept(ts, f, g, i);
}

/// Creation is idempotent and can be resumed: after the first `k` of the additions that it
/// calls for, it calls for the others, and for nothing once all are carried out.
pub proof fn creation_resumes(
    zone: Seq<char>,
    e: EndpointView,
    prio: Option<u32>,
    states: Seq<Seq<RecordView>>,
    k: int,
)
    requires
        canonical(zone),
        well_named(e.dns_name, zone),
        leads_through(zone, plan::creation(states[0], zone, e, prio), states),
        0 <= k < states.len(),
    ensures
        plan::creation(states[k], zone, e, prio) == plan::creation(
            states[0],
            zone,
            e,
            prio,
        ).skip(k),
        k == states.len() - 1 ==> plan::creation(states[k], zone, e, prio).len() == 0,
    decreases k,
{
    let whole = plan::creation(states[0], zone, e, prio);
    if k == 0 {
        assert(whole.skip(0) =~= whole);
    } else {
        creation_resumes(zone, e, prio, states, k - 1);
        let left = plan::creation(states[k - 1], zone, e, prio);
        assert(left[0] == whole[k - 1]);
        additions_step(zone, e, prio, e.targets, states[k - 1], states[k]);
        assert(left.drop_first() =~= whole.skip(k));
    }
}

/// The removal that any record of a zone calls for where the endpoint is deleted.
pub open spec fn deleting(zone: Seq<char>, e: EndpointView) -> spec_fn(RecordView) -> Option<MutationView> {
    |r: RecordView|
        if rules::belongs(zone, e, r) {
            plan::removal(zone, e.targets, e.record_type)(r)
        } else {
            None
        }
}

/// No two records have the same id.
pub open spec fn distinct_ids(records: Seq<RecordView>) -> bool {
    forall|i: int, j: int|
        0 <= i < j < records.len() ==> (#[trigger] records[i]).id != (#[trigger] records[j]).id
}

proof fn distinct_ids_kept(records: Seq<RecordView>, q: spec_fn(RecordView) -> bool)
    requires
        distinct_ids(records),
    ensures
        distinct_ids(records.filter(q)),
    decreases records.len(),
{
    reveal(Seq::filter);
    if records.len() > 0 {
        let front = records.drop_last();
        distinct_ids_kept(front, q);
        let kept = front.filter(q);
        if q(records.last()) {
            assert forall|i: int| 0 <= i < kept.len() implies (#[trigger] kept[i]).id
                != records.last().id by {
                front.lemma_filter_contains_rev(q, kept[i]);
                let j = choose|j: int| 0 <= j < front.len() && front[j] == kept[i];
                assert(records[j].id != records[records.len() - 1].id);
            }
        }
    }
}

/// After a removal that a deletion calls for, the deletion calls for the rest.
pub(crate) proof fn deletion_step(
    zone: Seq<char>,
    e: EndpointView,
    before: Seq<RecordView>,
    after: Seq<RecordView>,
)
    requires
        distinct_ids(before),
        plan::deletion(before, zone, e).len() > 0,
        serves(zone, plan::deletion(before, zone, e)[0], before, after),
    ensures
        plan::deletion(after, zone, e) == plan::deletion(before, zone, e).drop_first(),
        distinct_ids(after),
{
    let f = plan::removal(zone, e.targets, e.record_type);
    let d = deleting(zone, e);
    filtered_then_mapped(before, plan::belonging(zone, e), f, d);
    filtered_then_mapped(after, plan::belonging(zone, e), f, d);
    let i = first_kept(before, d);
    let q = other_than(before[i].id);
    let g = |r: RecordView|
        if q(r) {
            d(r)
        } else {
            None
        };
    assert(after == before.filter(q));
    filtered_then_mapped(before, q, d, g);
    assert forall|j: int| 0 <= j < before.len() && j != i implies g(#[trigger] before[j]) == d(
        before[j],
    ) by {
        if i < j {
            assert(before[i].id != before[j].id);
        } else {
            assert(before[j].id != before[i].id);
        }
    }
    rest_kept(before, d, g, i);
    distinct_ids_kept(before, q);
}

/// Deletion is idempotent and can be resumed: after the first `k` of the removals that it
/// calls for, it calls for the others, and for nothing once all are carried out.
pub proof fn deletion_resumes(
    zone: Seq<char>,
    e: EndpointView,
    states: Seq<Seq<RecordView>>,
    k: int,
)
    requires
        distinct_ids(states[0]),
        leads_through(zone, plan::deletion(states[0], zone, e), states),
        0 <= k < states.len(),
    ensures
        plan::deletion(states[k], zone, e) == plan::deletion(states[0], zone, e).skip(k),
        k == states.len() - 1 ==> plan::deletion(states[k], zone, e).len() == 0,
        distinct_ids(states[k]),
    decreases k,
{
    let whole = plan::deletion(states[0], zone, e);
    if k == 0 {
        assert(whole.skip(0) =~= whole);
    } else {
        deletion_resumes(zone, e, states, k - 1);
        let left = plan::deletion(states[k - 1], zone, e);
        assert(left[0] == whole[k - 1]);
        deletion_step(zone, e, states[k - 1], states[k]);
        assert(left.drop_first() =~= whole.skip(k));
    }
}

/// A deletion removes only records that belong to the endpoint and have one of its
/// targets, and all of them.
pub proof fn deletion_is_exact(
    records: Seq<RecordView>,
    zone: Seq<char>,
    e: EndpointView,
    m: MutationView,
)
    ensures
        plan::deletion(records, zone, e).contains(m) <==> exists|i: int|
            0 <= i < records.len() && rules::belongs(zone, e, #[trigger] records[i])
                && plan::listed(e.targets, records[i].content, e.record_type) && m == (
            MutationView::Remove { zone, id: records[i].id }),
{
    let f = plan::removal(zone, e.targets, e.record_type);
    let d = deleting(zone, e);
    filtered_then_mapped(records, plan::belonging(zone, e), f, d);
    if records.filter_map(d).contains(m) {
        records.lemma_filter_map_contains(d, m);
        let r = choose|r: RecordView| #[trigger] records.contains(r) && d(r) == Some(m);
        let i = choose|i: int| 0 <= i < records.len() && records[i] == r;
        assert(rules::belongs(zone, e, records[i]));
    }
    if exists|i: int|
        0 <= i < records.len() && rules::belongs(zone, e, #[trigger] records[i]) && plan::listed(
            e.targets,
            records[i].content,
            e.record_type,
        ) && m == (MutationView::Remove { zone, id: records[i].id }) {
        let i = choose|i: int|
            0 <= i < records.len() && rules::belongs(zone, e, #[trigger] records[i])
                && plan::listed(e.targets, records[i].content, e.record_type) && m == (
            MutationView::Remove { zone, id: records[i].id });
        kept_is_there(records, d, i);
    }
}

/// What a flat map gives stems from some element, and what an element gives is there.
proof fn flat_map_has<A, B>(s: Seq<A>, f: spec_fn(A) -> Seq<B>, b: B)
    ensures
        s.flat_map(f).contains(b) <==> exists|i: int|
            0 <= i < s.len() && f(#[trigger] s[i]).contains(b),
    decreases s.len(),
{
    if s.len() > 0 {
        let front = s.drop_last();
        flat_map_has(front, f, b);
        front.lemma_flat_map_push(f, s.last());
        assert(front.push(s.last()) =~= s);
        vstd::seq_lib::lemma_seq_concat_contains_all_elements(front.flat_map(f), f(s.last()), b);
        assert forall|i: int| 0 <= i < front.len() implies #[trigger] front[i] == s[i] by {}
        if front.flat_map(f).contains(b) {
            let i = choose|i: int| 0 <= i < front.len() && f(#[trigger] front[i]).contains(b);
            assert(f(s[i]).contains(b));
        }
        if f(s.last()).contains(b) {
            assert(f(s[s.len() - 1]).contains(b));
        }
        if exists|i: int| 0 <= i < s.len() && f(#[trigger] s[i]).contains(b) {
            let i = choose|i: int| 0 <= i < s.len() && f(#[trigger] s[i]).contains(b);
            if i < s.len() - 1 {
                assert(f(front[i]).contains(b));
            }
        }
    } else {
        assert(s.flat_map(f) =~= Seq::empty());
    }
}

/// The targets that are in `others` too, or are not, are just those.
pub proof fn compared_lists(
    targets: Seq<Seq<char>>,
    others: Seq<Seq<char>>,
    record_type: Seq<char>,
    common: bool,
    t: Seq<char>,
)
    ensures
        plan::listed(plan::compared(targets, others, record_type, common), t, record_type) <==> (
        plan::listed(targets, t, record_type) && plan::listed(others, t, record_type) == common),
{
    let p = plan::in_common(others, record_type, common);
    let some = targets.filter(p);
    plan::distinct_lists_all(some, t, record_type);
    if plan::listed(some, t, record_type) {
        let i = choose|i: int|
            0 <= i < some.len() && #[trigger] rules::same_target(some[i], t, record_type);
        targets.lemma_filter_contains_rev(p, some[i]);
        targets.lemma_filter_pred(p, i);
        let j = choose|j: int| 0 <= j < targets.len() && targets[j] == some[i];
        assert(rules::same_target(targets[j], t, record_type));
        same_target_listed(others, some[i], t, record_type);
    }
    if plan::listed(targets, t, record_type) && plan::listed(others, t, record_type) == common {
        let j = choose|j: int|
            0 <= j < targets.len() && #[trigger] rules::same_target(targets[j], t, record_type);
        same_target_listed(others, targets[j], t, record_type);
        assert(p(targets[j]));
        targets.lemma_filter_contains(p, j);
        let i = choose|i: int| 0 <= i < some.len() && some[i] == targets[j];
        assert(rules::same_target(some[i], t, record_type));
    }
}

/// Of two same targets, either both are listed or none is.
pub proof fn same_target_listed(
    targets: Seq<Seq<char>>,
    a: Seq<char>,
    b: Seq<char>,
    record_type: Seq<char>,
)
    requires
        rules::same_target(a, b, record_type),
    ensures
        plan::listed(targets, a, record_type) == plan::listed(targets, b, record_type),
{
    if plan::listed(targets, a, record_type) {
        let i = choose|i: int|
            0 <= i < targets.len() && #[trigger] rules::same_target(targets[i], a, record_type);
        assert(rules::same_target(targets[i], b, record_type));
    }
    if plan::listed(targets, b, record_type) {
        let i = choose|i: int|
            0 <= i < targets.len() && #[trigger] rules::same_target(targets[i], b, record_type);
        assert(rules::same_target(targets[i], a, record_type));
    }
}

/// The matching records are those that belong to the endpoint.
pub(crate) proof fn matching_has(
    records: Seq<RecordView>,
    zone: Seq<char>,
    e: EndpointView,
    r: RecordView,
)
    ensures
        plan::matching(records, zone, e).contains(r) <==> records.contains(r) && rules::belongs(
            zone,
            e,
            r,
        ),
{
    let p = plan::belonging(zone, e);
    let some = records.filter(p);
    if some.contains(r) {
        records.lemma_filter_contains_rev(p, r);
        let i = choose|i: int| 0 <= i < some.len() && some[i] == r;
        records.lemma_filter_pred(p, i);
    }
    if records.contains(r) && rules::belongs(zone, e, r) {
        let i = choose|i: int| 0 <= i < records.len() && records[i] == r;
        records.lemma_filter_contains(p, i);
    }
}

/// The record belongs to the old endpoint and has a target that the update drops.
pub open spec fn dropped_by(
    zone: Seq<char>,
    old_endpoint: EndpointView,
    new_endpoint: EndpointView,
    r: RecordView,
) -> bool {
    &&& rules::belongs(zone, old_endpoint, r)
    &&& plan::listed(old_endpoint.targets, r.content, new_endpoint.record_type)
    &&& !plan::listed(new_endpoint.targets, r.content, new_endpoint.record_type)
}

/// The record belongs to the old endpoint, has a target that the update keeps, and settings
/// that do not agree with those that the new endpoint asks for.
pub open spec fn stale_in(
    zone: Seq<char>,
    old_endpoint: EndpointView,
    new_endpoint: EndpointView,
    prio: Option<u32>,
    r: RecordView,
) -> bool {
    &&& rules::belongs(zone, old_endpoint, r)
    &&& plan::listed(old_endpoint.targets, r.content, new_endpoint.record_type)
    &&& plan::listed(new_endpoint.targets, r.content, new_endpoint.record_type)
    &&& !plan::settled(new_endpoint, prio, r)
}

/// An update begins with the removal of just the records that it drops.
pub proof fn update_removals_are_exact(
    records: Seq<RecordView>,
    zone: Seq<char>,
    old_endpoint: EndpointView,
    new_endpoint: EndpointView,
    m: MutationView,
)
    ensures
        plan::update_removals(records, zone, old_endpoint, new_endpoint).contains(m) <==> exists|
            i: int,
        |
            0 <= i < records.len() && dropped_by(
                zone,
                old_endpoint,
                new_endpoint,
                #[trigger] records[i],
            ) && m == (MutationView::Remove { zone, id: records[i].id }),
{
    let kind = new_endpoint.record_type;
    let some = plan::matching(records, zone, old_endpoint);
    let dropped = plan::compared(old_endpoint.targets, new_endpoint.targets, kind, false);
    let f = plan::removals_of(some, zone, kind);
    flat_map_has(dropped, f, m);
    if dropped.flat_map(f).contains(m) {
        let j = choose|j: int| 0 <= j < dropped.len() && f(#[trigger] dropped[j]).contains(m);
        let g = plan::removal(zone, seq![dropped[j]], kind);
        some.lemma_filter_map_contains(g, m);
        let r = choose|r: RecordView| #[trigger] some.contains(r) && g(r) == Some(m);
        matching_has(records, zone, old_endpoint, r);
        let i = choose|i: int| 0 <= i < records.len() && records[i] == r;
        let one = seq![dropped[j]];
        assert(plan::listed(one, r.content, kind));
        assert(rules::same_target(one[0], r.content, kind));
        assert(rules::same_target(dropped[j], r.content, kind));
        assert(plan::listed(dropped, r.content, kind));
        compared_lists(old_endpoint.targets, new_endpoint.targets, kind, false, r.content);
        assert(dropped_by(zone, old_endpoint, new_endpoint, records[i]));
    }
    if exists|i: int|
        0 <= i < records.len() && dropped_by(zone, old_endpoint, new_endpoint, #[trigger] records[i])
            && m == (MutationView::Remove { zone, id: records[i].id }) {
        let i = choose|i: int|
            0 <= i < records.len() && dropped_by(
                zone,
                old_endpoint,
                new_endpoint,
                #[trigger] records[i],
            ) && m == (MutationView::Remove { zone, id: records[i].id });
        let r = records[i];
        compared_lists(old_endpoint.targets, new_endpoint.targets, kind, false, r.content);
        let j = choose|j: int|
            0 <= j < dropped.len() && #[trigger] rules::same_target(dropped[j], r.content, kind);
        matching_has(records, zone, old_endpoint, r);
        let k = choose|k: int| 0 <= k < some.len() && some[k] == r;
        let one = seq![dropped[j]];
        assert(rules::same_target(one[0], r.content, kind));
        kept_is_there(some, plan::removal(zone, one, kind), k);
        assert(f(dropped[j]).contains(m));
    }
}

/// An update goes on with the edit of just the records that are stale: each gets what the
/// new endpoint wants for one of its targets that the record has and the update keeps.
pub proof fn update_edits_are_exact(
    records: Seq<RecordView>,
    zone: Seq<char>,
    old_endpoint: EndpointView,
    new_endpoint: EndpointView,
    prio: Option<u32>,
)
    ensures
        forall|m: MutationView| #[trigger]
            plan::update_edits(records, zone, old_endpoint, new_endpoint, prio).contains(m)
                ==> exists|i: int, t: Seq<char>|
                0 <= i < records.len() && stale_in(
                    zone,
                    old_endpoint,
                    new_endpoint,
                    prio,
                    #[trigger] records[i],
                ) && #[trigger] rules::same_target(records[i].content, t, new_endpoint.record_type)
                    && new_endpoint.targets.contains(t) && m == (MutationView::Edit {
                    zone,
                    id: records[i].id,
                    params: plan::wanted(zone, new_endpoint, prio, t),
                }),
        forall|i: int|
            0 <= i < records.len() && stale_in(
                zone,
                old_endpoint,
                new_endpoint,
                prio,
                #[trigger] records[i],
            ) ==> exists|t: Seq<char>| #[trigger]
                plan::update_edits(records, zone, old_endpoint, new_endpoint, prio).contains(
                    MutationView::Edit {
                        zone,
                        id: records[i].id,
                        params: plan::wanted(zone, new_endpoint, prio, t),
                    },
                ),
{
    let kind = new_endpoint.record_type;
    let some = plan::matching(records, zone, old_endpoint);
    let kept = plan::compared(new_endpoint.targets, old_endpoint.targets, kind, true);
    let f = plan::edits_of(some, zone, new_endpoint, prio);
    let whole = plan::update_edits(records, zone, old_endpoint, new_endpoint, prio);
    assert forall|m: MutationView| #[trigger] whole.contains(m) implies exists|
        i: int,
        t: Seq<char>,
    |
        0 <= i < records.len() && stale_in(
            zone,
            old_endpoint,
            new_endpoint,
            prio,
            #[trigger] records[i],
        ) && #[trigger] rules::same_target(records[i].content, t, new_endpoint.record_type)
            && new_endpoint.targets.contains(t) && m == (MutationView::Edit {
            zone,
            id: records[i].id,
            params: plan::wanted(zone, new_endpoint, prio, t),
        }) by {
        flat_map_has(kept, f, m);
        let j = choose|j: int| 0 <= j < kept.len() && f(#[trigger] kept[j]).contains(m);
        let g = plan::edit(zone, new_endpoint, prio, kept[j]);
        some.lemma_filter_map_contains(g, m);
        let r = choose|r: RecordView| #[trigger] some.contains(r) && g(r) == Some(m);
        matching_has(records, zone, old_endpoint, r);
        let i = choose|i: int| 0 <= i < records.len() && records[i] == r;
        assert(rules::same_target(kept[j], r.content, kind));
        assert(plan::listed(kept, r.content, kind));
        compared_lists(new_endpoint.targets, old_endpoint.targets, kind, true, r.content);
        distinct_stems(
            new_endpoint.targets.filter(plan::in_common(old_endpoint.targets, kind, true)),
            kind,
            j,
        );
        new_endpoint.targets.lemma_filter_contains_rev(
            plan::in_common(old_endpoint.targets, kind, true),
            kept[j],
        );
        assert(rules::same_target(records[i].content, kept[j], kind));
    }
    assert forall|i: int|
        0 <= i < records.len() && stale_in(
            zone,
            old_endpoint,
            new_endpoint,
            prio,
            #[trigger] records[i],
        ) implies exists|t: Seq<char>| #[trigger]
        whole.contains(
            MutationView::Edit {
                zone,
                id: records[i].id,
                params: plan::wanted(zone, new_endpoint, prio, t),
            },
        ) by {
        let r = records[i];
        compared_lists(new_endpoint.targets, old_endpoint.targets, kind, true, r.content);
        let j = choose|j: int|
            0 <= j < kept.len() && #[trigger] rules::same_target(kept[j], r.content, kind);
        let g = plan::edit(zone, new_endpoint, prio, kept[j]);
        matching_has(records, zone, old_endpoint, r);
        let k = choose|k: int| 0 <= k < some.len() && some[k] == r;
        assert(rules::same_target(r.content, kept[j], kind));
        kept_is_there(some, g, k);
        let m = MutationView::Edit {
            zone,
            id: r.id,
            params: plan::wanted(zone, new_endpoint, prio, kept[j]),
        };
        assert(g(r) == Some(m));
        assert(f(kept[j]).contains(m));
        flat_map_has(kept, f, m);
        assert(whole.contains(m));
    }
}

/// A stale record is edited into what the new endpoint wants for a target that the record has.
pub(crate) proof fn edit_of_stale(
    records: Seq<RecordView>,
    zone: Seq<char>,
    old_endpoint: EndpointView,
    new_endpoint: EndpointView,
    prio: Option<u32>,
    i: int,
) -> (t: Seq<char>)
    requires
        0 <= i < records.len(),
        stale_in(zone, old_endpoint, new_endpoint, prio, records[i]),
    ensures
        rules::same_target(t, records[i].content, new_endpoint.record_type),
        new_endpoint.targets.contains(t),
        plan::update_edits(records, zone, old_endpoint, new_endpoint, prio).contains(
            MutationView::Edit {
                zone,
                id: records[i].id,
                params: plan::wanted(zone, new_endpoint, prio, t),
            },
        ),
{
    let kind = new_endpoint.record_type;
    let some = plan::matching(records, zone, old_endpoint);
    let kept = plan::compared(new_endpoint.targets, old_endpoint.targets, kind, true);
    let f = plan::edits_of(some, zone, new_endpoint, prio);
    let r = records[i];
    compared_lists(new_endpoint.targets, old_endpoint.targets, kind, true, r.content);
    let j = choose|j: int|
        0 <= j < kept.len() && #[trigger] rules::same_target(kept[j], r.content, kind);
    let g = plan::edit(zone, new_endpoint, prio, kept[j]);
    assert(records.contains(r));
    matching_has(records, zone, old_endpoint, r);
    let k = choose|k: int| 0 <= k < some.len() && some[k] == r;
    assert(rules::same_target(r.content, kept[j], kind));
    kept_is_there(some, g, k);
    let m = MutationView::Edit {
        zone,
        id: r.id,
        params: plan::wanted(zone, new_endpoint, prio, kept[j]),
    };
    assert(g(r) == Some(m));
    assert(f(kept[j]).contains(m));
    flat_map_has(kept, f, m);
    let common = plan::in_common(old_endpoint.targets, kind, true);
    distinct_stems(new_endpoint.targets.filter(common), kind, j);
    new_endpoint.targets.lemma_filter_contains_rev(common, kept[j]);
    kept[j]
}

/// Every target that is kept is one of the targets.
pub(crate) proof fn distinct_stems(targets: Seq<Seq<char>>, record_type: Seq<char>, j: int)
    requires
        0 <= j < plan::distinct(targets, record_type).len(),
    ensures
        targets.contains(plan::distinct(targets, record_type)[j]),
    decreases targets.len(),
{
    let before = targets.drop_last();
    let kept = plan::distinct(before, record_type);
    if j < kept.len() {
        distinct_stems(before, record_type, j);
        let i = choose|i: int| 0 <= i < before.len() && before[i] == kept[j];
        assert(targets[i] == kept[j]);
    } else {
        assert(targets[targets.len() - 1] == targets.last());
    }
}

/// What is left after removals was there before, and has none of the removed ids.
proof fn removed_are_gone(
    zone: Seq<char>,
    mutations: Seq<MutationView>,
    states: Seq<Seq<RecordView>>,
    k: int,
    r: RecordView,
)
    requires
        leads_through(zone, mutations, states),
        forall|j: int| 0 <= j < mutations.len() ==> (#[trigger] mutations[j]) is Remove,
        0 <= k < states.len(),
        states[k].contains(r),
    ensures
        states[0].contains(r),
        forall|j: int| 0 <= j < k ==> (#[trigger] mutations[j])->Remove_id != r.id,
    decreases k,
{
    if k > 0 {
        let m = mutations[k - 1];
        let q = other_than(m->Remove_id);
        assert(serves(zone, m, states[k - 1], states[k - 1 + 1]));
        states[k - 1].lemma_filter_contains_rev(q, r);
        let i = choose|i: int| 0 <= i < states[k].len() && states[k][i] == r;
        states[k - 1].lemma_filter_pred(q, i);
        removed_are_gone(zone, mutations, states, k - 1, r);
    }
}

/// Edits neither add nor remove records.
proof fn edited_keep_count(
    zone: Seq<char>,
    mutations: Seq<MutationView>,
    states: Seq<Seq<RecordView>>,
    k: int,
)
    requires
        leads_through(zone, mutations, states),
        forall|j: int| 0 <= j < mutations.len() ==> (#[trigger] mutations[j]) is Edit,
        0 <= k < states.len(),
    ensures
        states[k].len() == states[0].len(),
    decreases k,
{
    if k > 0 {
        edited_keep_count(zone, mutations, states, k - 1);
        assert(serves(zone, mutations[k - 1], states[k - 1], states[k - 1 + 1]));
    }
}

/// After edits a record is what it was, and none of the edits was of its id, or it holds
/// what one of them asked for.
proof fn edited_reflect(
    zone: Seq<char>,
    mutations: Seq<MutationView>,
    states: Seq<Seq<RecordView>>,
    k: int,
    i: int,
)
    requires
        leads_through(zone, mutations, states),
        forall|j: int| 0 <= j < mutations.len() ==> (#[trigger] mutations[j]) is Edit,
        0 <= k < states.len(),
        0 <= i < states[0].len(),
    ensures
        ({
            ||| states[k][i] == states[0][i] && forall|j: int|
                0 <= j < k ==> (#[trigger] mutations[j])->Edit_id != states[0][i].id
            ||| exists|j: int|
                0 <= j < k && reflects(zone, (#[trigger] mutations[j])->Edit_params, states[k][i])
        }),
    decreases k,
{
    if k > 0 {
        edited_reflect(zone, mutations, states, k - 1, i);
        edited_keep_count(zone, mutations, states, k - 1);
        let m = mutations[k - 1];
        let before = states[k - 1];
        let after = states[k - 1 + 1];
        assert(serves(zone, m, before, after));
        assert(edits(zone, m->Edit_id, m->Edit_params, before, after));
        assert(after[i] == states[k][i]);
        if before[i].id == m->Edit_id {
            assert(reflects(zone, mutations[k - 1]->Edit_params, states[k][i]));
        } else if exists|j: int|
            0 <= j < k - 1 && reflects(zone, (#[trigger] mutations[j])->Edit_params, before[i]) {
            let j = choose|j: int|
                0 <= j < k - 1 && reflects(zone, (#[trigger] mutations[j])->Edit_params, before[i]);
            assert(reflects(zone, mutations[j]->Edit_params, states[k][i]));
        }
    }
}

/// After additions the records are those from before, followed by one for each addition.
proof fn added_follow(
    zone: Seq<char>,
    mutations: Seq<MutationView>,
    states: Seq<Seq<RecordView>>,
    k: int,
)
    requires
        leads_through(zone, mutations, states),
        forall|j: int| 0 <= j < mutations.len() ==> (#[trigger] mutations[j]) is Add,
        0 <= k < states.len(),
    ensures
        states[k].len() == states[0].len() + k,
        forall|i: int| 0 <= i < states[0].len() ==> #[trigger] states[k][i] == states[0][i],
        forall|j: int|
            0 <= j < k ==> reflects(
                zone,
                (#[trigger] mutations[j])->Add_params,
                states[k][states[0].len() + j],
            ),
    decreases k,
{
    if k > 0 {
        added_follow(zone, mutations, states, k - 1);
        let m = mutations[k - 1];
        assert(serves(zone, m, states[k - 1], states[k - 1 + 1]));
        assert(adds(zone, m->Add_params, states[k - 1], states[k]));
        assert forall|j: int| 0 <= j < k implies reflects(
            zone,
            (#[trigger] mutations[j])->Add_params,
            states[k][states[0].len() + j],
        ) by {
            if j < k - 1 {
                assert(states[k][states[0].len() + j] == states[k - 1][states[0].len() + j]);
            }
        }
    }
}

/// The update leaves the zone, the name and the type as they are, and the name is well
/// formed.
pub open spec fn updates_in_place(
    zone: Seq<char>,
    old_endpoint: EndpointView,
    new_endpoint: EndpointView,
) -> bool {
    &&& canonical(zone)
    &&& well_named(new_endpoint.dns_name, zone)
    &&& text::normalized(old_endpoint.dns_name) == text::normalized(new_endpoint.dns_name)
    &&& old_endpoint.record_type == new_endpoint.record_type
}

/// The update leaves the record alone.
pub open spec fn left_alone(
    zone: Seq<char>,
    old_endpoint: EndpointView,
    new_endpoint: EndpointView,
    prio: Option<u32>,
    r: RecordView,
) -> bool {
    &&& !dropped_by(zone, old_endpoint, new_endpoint, r)
    &&& !stale_in(zone, old_endpoint, new_endpoint, prio, r)
}

/// A record that holds what the new endpoint wants for one of its targets is left alone.
pub(crate) proof fn wanted_is_left_alone(
    zone: Seq<char>,
    old_endpoint: EndpointView,
    new_endpoint: EndpointView,
    prio: Option<u32>,
    t: Seq<char>,
    r: RecordView,
)
    requires
        updates_in_place(zone, old_endpoint, new_endpoint),
        new_endpoint.targets.contains(t),
        reflects(zone, plan::wanted(zone, new_endpoint, prio, t), r),
    ensures
        left_alone(zone, old_endpoint, new_endpoint, prio, r),
{
    wanted_belongs(zone, new_endpoint, prio, t, r);
    let i = choose|i: int| 0 <= i < new_endpoint.targets.len() && new_endpoint.targets[i] == t;
    assert(rules::same_target(new_endpoint.targets[i], r.content, new_endpoint.record_type));
}

/// Where all records are left alone, the update calls for no removal and no edit.
pub(crate) proof fn nothing_to_remove_or_edit(
    records: Seq<RecordView>,
    zone: Seq<char>,
    old_endpoint: EndpointView,
    new_endpoint: EndpointView,
    prio: Option<u32>,
)
    requires
        forall|i: int|
            0 <= i < records.len() ==> left_alone(
                zone,
                old_endpoint,
                new_endpoint,
                prio,
                #[trigger] records[i],
            ),
    ensures
        plan::update_removals(records, zone, old_endpoint, new_endpoint).len() == 0,
        plan::update_edits(records, zone, old_endpoint, new_endpoint, prio).len() == 0,
{
    let removals = plan::update_removals(records, zone, old_endpoint, new_endpoint);
    if removals.len() > 0 {
        update_removals_are_exact(records, zone, old_endpoint, new_endpoint, removals[0]);
        assert(removals.contains(removals[0]));
    }
    let edits = plan::update_edits(records, zone, old_endpoint, new_endpoint, prio);
    if edits.len() > 0 {
        update_edits_are_exact(records, zone, old_endpoint, new_endpoint, prio);
        assert(edits.contains(edits[0]));
    }
}

/// Updates are idempotent, and settle from whatever state an earlier attempt left: once the
/// removals, the edits and the additions of an update in place are carried out, each
/// planned from the records as they are by then, the update calls for nothing more.
pub proof fn update_settles(
    zone: Seq<char>,
    old_endpoint: EndpointView,
    new_endpoint: EndpointView,
    prio: Option<u32>,
    removing: Seq<Seq<RecordView>>,
    editing: Seq<Seq<RecordView>>,
    adding: Seq<Seq<RecordView>>,
)
    requires
        updates_in_place(zone, old_endpoint, new_endpoint),
        leads_through(
            zone,
            plan::update_removals(removing[0], zone, old_endpoint, new_endpoint),
            removing,
        ),
        editing[0] == removing.last(),
        leads_through(
            zone,
            plan::update_edits(editing[0], zone, old_endpoint, new_endpoint, prio),
            editing,
        ),
        adding[0] == editing.last(),
        leads_through(
            zone,
            plan::update_additions(adding[0], zone, old_endpoint, new_endpoint, prio),
            adding,
        ),
    ensures
        plan::update_removals(adding.last(), zone, old_endpoint, new_endpoint).len() == 0,
        plan::update_edits(adding.last(), zone, old_endpoint, new_endpoint, prio).len() == 0,
        plan::update_additions(adding.last(), zone, old_endpoint, new_endpoint, prio).len() == 0,
{
    let kind = new_endpoint.record_type;
    let removals = plan::update_removals(removing[0], zone, old_endpoint, new_endpoint);
    let edits = plan::update_edits(editing[0], zone, old_endpoint, new_endpoint, prio);
    let additions = plan::update_additions(adding[0], zone, old_endpoint, new_endpoint, prio);
    let removed = editing[0];
    let edited = adding[0];
    let end = adding.last();
    assert forall|i: int| 0 <= i < removed.len() implies !dropped_by(
        zone,
        old_endpoint,
        new_endpoint,
        #[trigger] removed[i],
    ) by {
        removed_not_dropped(zone, old_endpoint, new_endpoint, removing, removed[i]);
    }
    assert forall|j: int| 0 <= j < edits.len() implies (#[trigger] edits[j]) is Edit by {
        update_edits_are_exact(removed, zone, old_endpoint, new_endpoint, prio);
        assert(edits.contains(edits[j]));
    }
    assert forall|i: int| 0 <= i < edited.len() implies left_alone(
        zone,
        old_endpoint,
        new_endpoint,
        prio,
        #[trigger] edited[i],
    ) by {
        edited_keep_count(zone, edits, editing, editing.len() - 1);
        edited_reflect(zone, edits, editing, editing.len() - 1, i);
        update_edits_are_exact(removed, zone, old_endpoint, new_endpoint, prio);
        if exists|j: int|
            0 <= j < edits.len() && reflects(zone, (#[trigger] edits[j])->Edit_params, edited[i]) {
            let j = choose|j: int|
                0 <= j < edits.len() && reflects(
                    zone,
                    (#[trigger] edits[j])->Edit_params,
                    edited[i],
                );
            assert(edits.contains(edits[j]));
            let (k, t) = choose|k: int, t: Seq<char>|
                0 <= k < removed.len() && stale_in(
                    zone,
                    old_endpoint,
                    new_endpoint,
                    prio,
                    #[trigger] removed[k],
                ) && #[trigger] rules::same_target(removed[k].content, t, kind)
                    && new_endpoint.targets.contains(t) && edits[j] == (MutationView::Edit {
                    zone,
                    id: removed[k].id,
                    params: plan::wanted(zone, new_endpoint, prio, t),
                });
            wanted_is_left_alone(zone, old_endpoint, new_endpoint, prio, t, edited[i]);
        } else {
            assert(edited[i] == removed[i]);
            if stale_in(zone, old_endpoint, new_endpoint, prio, removed[i]) {
                let t = choose|t: Seq<char>| #[trigger]
                    edits.contains(
                        MutationView::Edit {
                            zone,
                            id: removed[i].id,
                            params: plan::wanted(zone, new_endpoint, prio, t),
                        },
                    );
                let m = MutationView::Edit {
                    zone,
                    id: removed[i].id,
                    params: plan::wanted(zone, new_endpoint, prio, t),
                };
                let j = choose|j: int| 0 <= j < edits.len() && edits[j] == m;
                assert(edits[j]->Edit_id == removed[i].id);
            }
        }
    }
    additions_settle(zone, old_endpoint, new_endpoint, prio, adding);
    nothing_to_remove_or_edit(end, zone, old_endpoint, new_endpoint, prio);
}

/// No record that the removals of an update leave is dropped by it.
proof fn removed_not_dropped(
    zone: Seq<char>,
    old_endpoint: EndpointView,
    new_endpoint: EndpointView,
    removing: Seq<Seq<RecordView>>,
    r: RecordView,
)
    requires
        leads_through(
            zone,
            plan::update_removals(removing[0], zone, old_endpoint, new_endpoint),
            removing,
        ),
        removing.last().contains(r),
    ensures
        !dropped_by(zone, old_endpoint, new_endpoint, r),
{
    let start = removing[0];
    let removals = plan::update_removals(start, zone, old_endpoint, new_endpoint);
    assert forall|j: int| 0 <= j < removals.len() implies (#[trigger] removals[j]) is Remove by {
        update_removals_are_exact(start, zone, old_endpoint, new_endpoint, removals[j]);
        assert(removals.contains(removals[j]));
    }
    removed_are_gone(zone, removals, removing, removing.len() - 1, r);
    if dropped_by(zone, old_endpoint, new_endpoint, r) {
        let i = choose|i: int| 0 <= i < start.len() && start[i] == r;
        let m = MutationView::Remove { zone, id: r.id };
        assert(dropped_by(zone, old_endpoint, new_endpoint, start[i]));
        update_removals_are_exact(start, zone, old_endpoint, new_endpoint, m);
        let j = choose|j: int| 0 <= j < removals.len() && removals[j] == m;
        assert(removals[j]->Remove_id == r.id);
    }
}

/// Where all records are left alone, they still are after the additions of the update, and
/// no addition is called for any more.
proof fn additions_settle(
    zone: Seq<char>,
    old_endpoint: EndpointView,
    new_endpoint: EndpointView,
    prio: Option<u32>,
    adding: Seq<Seq<RecordView>>,
)
    requires
        updates_in_place(zone, old_endpoint, new_endpoint),
        forall|i: int|
            0 <= i < adding[0].len() ==> left_alone(
                zone,
                old_endpoint,
                new_endpoint,
                prio,
                #[trigger] adding[0][i],
            ),
        leads_through(
            zone,
            plan::update_additions(adding[0], zone, old_endpoint, new_endpoint, prio),
            adding,
        ),
    ensures
        forall|i: int|
            0 <= i < adding.last().len() ==> left_alone(
                zone,
                old_endpoint,
                new_endpoint,
                prio,
                #[trigger] adding.last()[i],
            ),
        plan::update_additions(adding.last(), zone, old_endpoint, new_endpoint, prio).len() == 0,
{
    let kind = new_endpoint.record_type;
    let start = adding[0];
    let end = adding.last();
    let added = plan::added_targets(old_endpoint, new_endpoint);
    let had = plan::matching(start, zone, new_endpoint);
    let has = plan::matching(end, zone, new_endpoint);
    let f = plan::addition(had, zone, new_endpoint, prio);
    let g = plan::addition(has, zone, new_endpoint, prio);
    let additions = plan::update_additions(start, zone, old_endpoint, new_endpoint, prio);
    assert forall|j: int| 0 <= j < additions.len() implies (#[trigger] additions[j]) is Add
        && exists|k: int|
        0 <= k < added.len() && additions[j]->Add_params == plan::wanted(
            zone,
            new_endpoint,
            prio,
            #[trigger] added[k],
        ) by {
        assert(additions.contains(additions[j]));
        added.lemma_filter_map_contains(f, additions[j]);
        let t = choose|t: Seq<char>| #[trigger] added.contains(t) && f(t) == Some(additions[j]);
        let k = choose|k: int| 0 <= k < added.len() && added[k] == t;
        assert(additions[j]->Add_params == plan::wanted(zone, new_endpoint, prio, added[k]));
    }
    added_follow(zone, additions, adding, adding.len() - 1);
    let fresh = plan::in_common(old_endpoint.targets, kind, false);
    assert forall|i: int| 0 <= i < end.len() implies left_alone(
        zone,
        old_endpoint,
        new_endpoint,
        prio,
        #[trigger] end[i],
    ) by {
        if i < start.len() {
            assert(end[i] == start[i]);
        } else {
            let j = i - start.len();
            assert(additions[j] is Add);
            let k = choose|k: int|
                0 <= k < added.len() && additions[j]->Add_params == plan::wanted(
                    zone,
                    new_endpoint,
                    prio,
                    #[trigger] added[k],
                );
            let new = adding[adding.len() - 1][start.len() + j];
            assert(reflects(zone, additions[j]->Add_params, new));
            distinct_stems(new_endpoint.targets.filter(fresh), kind, k);
            new_endpoint.targets.lemma_filter_contains_rev(fresh, added[k]);
            wanted_is_left_alone(zone, old_endpoint, new_endpoint, prio, added[k], end[i]);
        }
    }
    assert forall|k: int| 0 <= k < added.len() implies g(#[trigger] added[k]) is None by {
        let t = added[k];
        if plan::provided(had, new_endpoint, prio, t) {
            let i = choose|i: int|
                0 <= i < had.len() && #[trigger] plan::provides(new_endpoint, prio, had[i], t);
            let r = had[i];
            assert(had.contains(r));
            matching_has(start, zone, new_endpoint, r);
            let j = choose|j: int| 0 <= j < start.len() && start[j] == r;
            assert(end[j] == r);
            provided_by(end, zone, new_endpoint, prio, t, r);
        } else {
            kept_is_there(added, f, k);
            let m = MutationView::Add { zone, params: plan::wanted(zone, new_endpoint, prio, t) };
            let j = choose|j: int| 0 <= j < additions.len() && additions[j] == m;
            let r = end[start.len() + j];
            assert(reflects(zone, additions[j]->Add_params, r));
            wanted_belongs(zone, new_endpoint, prio, t, r);
            provided_by(end, zone, new_endpoint, prio, t, r);
        }
    }
    all_dropped(added, g);
}

proof fn provided_by(
    records: Seq<RecordView>,
    zone: Seq<char>,
    e: EndpointView,
    prio: Option<u32>,
    t: Seq<char>,
    r: RecordView,
)
    requires
        records.contains(r),
        rules::belongs(zone, e, r),
        plan::provides(e, prio, r, t),
    ensures
        plan::provided(plan::matching(records, zone, e), e, prio, t),
{
    let some = plan::matching(records, zone, e);
    matching_has(records, zone, e, r);
    let i = choose|i: int| 0 <= i < some.len() && some[i] == r;
    assert(plan::provides(e, prio, some[i], t));
}

/// A number that an endpoint shows as its priority is read back as its priority.
pub proof fn priority_reads_back(prio: Option<u32>)
    ensures
        rules::priority_of(types::priority_property(prio)) == Ok::<Option<u32>, ErrorView>(prio),
{
    match prio {
        Some(p) => {
            number::decimal_reads_back(p as nat, u32::MAX as nat);
        },
        None => {},
    }
}

/// What is created is read back: a record that holds what an endpoint wants for a target
/// is shown with the endpoint's name in canonical form, its type, that target, and the
/// settings that the endpoint asks for.
pub proof fn created_reads_back(
    zone: Seq<char>,
    e: EndpointView,
    prio: Option<u32>,
    t: Seq<char>,
    r: RecordView,
)
    requires
        canonical(zone),
        well_named(e.dns_name, zone),
        reflects(zone, plan::wanted(zone, e, prio, t), r),
    ensures
        types::endpoint_of(r, zone).dns_name == text::normalized(e.dns_name),
        types::endpoint_of(r, zone).record_type == e.record_type,
        types::endpoint_of(r, zone).targets == seq![t],
        rules::ttl_of(e.record_ttl) is Some ==> rules::ttl_of(
            types::endpoint_of(r, zone).record_ttl,
        ) == rules::ttl_of(e.record_ttl),
        prio is Some ==> rules::priority_of(types::endpoint_of(r, zone).provider_specific) == Ok::<
            Option<u32>,
            ErrorView,
        >(prio),
{
    subdomain_rebuilds(e.dns_name, zone);
    text::name_in_zone_is_canonical(e.dns_name, zone);
    text::canonical_ends_well(zone);
    text::canonical_ends_well(text::normalized(e.dns_name));
    priority_reads_back(r.prio_u32());
}

/// The records are listed under their full names, in canonical form.
pub open spec fn named_in_full(zone: Seq<char>, records: Seq<RecordView>) -> bool {
    forall|i: int|
        0 <= i < records.len() ==> text::normalized((#[trigger] records[i]).name) == text::lower(
            records[i].name,
        ) && text::under(text::lower(records[i].name), zone)
}

/// What is read is in place: to create an endpoint as it was read calls for nothing.
pub proof fn read_is_in_place(
    zone: Seq<char>,
    reading: Seq<RecordView>,
    shown: Seq<EndpointView>,
    i: int,
)
    requires
        canonical(zone),
        named_in_full(zone, reading),
        records::shows(reading, zone, shown),
        0 <= i < shown.len(),
    ensures
        rules::priority_of(shown[i].provider_specific) matches Ok(prio) && plan::creation(
            reading,
            zone,
            shown[i],
            prio,
        ).len() == 0,
{
    let some = reading.filter(records::managed());
    let firsts = choose|firsts: Seq<int>| types::shows_groups(some, zone, firsts, shown);
    let k = firsts[i];
    assert(types::shows_group(some, zone, firsts[i], shown[i]));
    let e = shown[i];
    let prio = some[k].prio_u32();
    let key = types::key_of(some[k], zone);
    priority_reads_back(prio);
    let ts = plan::distinct(e.targets, e.record_type);
    let f = plan::addition(plan::matching(reading, zone, e), zone, e, prio);
    assert forall|j: int| 0 <= j < ts.len() implies f(#[trigger] ts[j]) is None by {
        let t = ts[j];
        distinct_stems(e.targets, e.record_type, j);
        assert(e.targets.contains(t));
        assert(types::group_holds(some, zone, key, t));
        let m = choose|m: int|
            0 <= m < some.len() && types::key_of(#[trigger] some[m], zone) == key && some[m].content
                == t;
        let r = some[m];
        assert(some.contains(r));
        reading.lemma_filter_contains_rev(records::managed(), r);
        let x = choose|x: int| 0 <= x < reading.len() && reading[x] == r;
        assert(text::under(text::lower(reading[x].name), zone));
        text::name_in_zone_is_canonical(r.name, zone);
        text::canonical_ends_well(zone);
        assert(types::full_name(r.name, zone) == text::normalized(r.name));
        provided_by(reading, zone, e, prio, t, r);
    }
    all_dropped(ts, f);
}

/// What a filtering map keeps stands in the order of the elements that it stems from.
pub(crate) proof fn kept_in_order<A, B>(s: Seq<A>, f: spec_fn(A) -> Option<B>, i: int, j: int) -> (r: (
    int,
    int,
))
    requires
        0 <= i < j < s.filter_map(f).len(),
    ensures
        0 <= r.0 < r.1 < s.len(),
        f(s[r.0]) == Some(s.filter_map(f)[i]),
        f(s[r.1]) == Some(s.filter_map(f)[j]),
    decreases s.len(),
{
    let front = s.drop_last();
    if j < front.filter_map(f).len() {
        let r = kept_in_order(front, f, i, j);
        assert(front[r.0] == s[r.0] && front[r.1] == s[r.1]);
        r
    } else {
        let a = kept_stems(front, f, i);
        assert(front[a] == s[a]);
        (a, s.len() - 1)
    }
}

/// What a filtering map keeps stems from some element.
pub(crate) proof fn kept_stems<A, B>(s: Seq<A>, f: spec_fn(A) -> Option<B>, i: int) -> (a: int)
    requires
        0 <= i < s.filter_map(f).len(),
    ensures
        0 <= a < s.len(),
        f(s[a]) == Some(s.filter_map(f)[i]),
    decreases s.len(),
{
    let front = s.drop_last();
    if i < front.filter_map(f).len() {
        let a = kept_stems(front, f, i);
        assert(front[a] == s[a]);
        a
    } else {
        s.len() - 1
    }
}

/// Where one and the same list is filtered for each of some elements in turn, what is kept
/// stands in the order of those elements, and for one of them in the order of the list.
proof fn flat_in_order<T, R, M>(
    ts: Seq<T>,
    rs: Seq<R>,
    g: spec_fn(T) -> spec_fn(R) -> Option<M>,
    f: spec_fn(T) -> Seq<M>,
    i: int,
    j: int,
) -> (r: (int, int, int, int))
    requires
        forall|t: T| #[trigger] f(t) == rs.filter_map(g(t)),
        0 <= i < j < ts.flat_map(f).len(),
    ensures
        0 <= r.0 <= r.2 < ts.len(),
        0 <= r.1 < rs.len(),
        0 <= r.3 < rs.len(),
        r.0 == r.2 ==> r.1 < r.3,
        g(ts[r.0])(rs[r.1]) == Some(ts.flat_map(f)[i]),
        g(ts[r.2])(rs[r.3]) == Some(ts.flat_map(f)[j]),
    decreases ts.len(),
{
    if ts.len() == 0 {
        assert(ts.flat_map(f) =~= Seq::empty());
        (0, 0, 0, 0)
    } else {
        let front = ts.drop_last();
        let last = ts.len() - 1;
        front.lemma_flat_map_push(f, ts.last());
        assert(front.push(ts.last()) =~= ts);
        let n = front.flat_map(f).len();
        assert(f(ts.last()) == rs.filter_map(g(ts.last())));
        if j < n {
            let r = flat_in_order(front, rs, g, f, i, j);
            assert(front[r.0] == ts[r.0] && front[r.2] == ts[r.2]);
            r
        } else if i < n {
            let a = flat_stems(front, rs, g, f, i);
            assert(front[a.0] == ts[a.0]);
            let b = kept_stems(rs, g(ts.last()), j - n);
            (a.0, a.1, last, b)
        } else {
            let b = kept_in_order(rs, g(ts.last()), i - n, j - n);
            (last, b.0, last, b.1)
        }
    }
}

proof fn flat_stems<T, R, M>(
    ts: Seq<T>,
    rs: Seq<R>,
    g: spec_fn(T) -> spec_fn(R) -> Option<M>,
    f: spec_fn(T) -> Seq<M>,
    i: int,
) -> (r: (int, int))
    requires
        forall|t: T| #[trigger] f(t) == rs.filter_map(g(t)),
        0 <= i < ts.flat_map(f).len(),
    ensures
        0 <= r.0 < ts.len(),
        0 <= r.1 < rs.len(),
        g(ts[r.0])(rs[r.1]) == Some(ts.flat_map(f)[i]),
    decreases ts.len(),
{
    if ts.len() == 0 {
        assert(ts.flat_map(f) =~= Seq::empty());
        (0, 0)
    } else {
        let front = ts.drop_last();
        front.lemma_flat_map_push(f, ts.last());
        assert(front.push(ts.last()) =~= ts);
        let n = front.flat_map(f).len();
        assert(f(ts.last()) == rs.filter_map(g(ts.last())));
        if i < n {
            let r = flat_stems(front, rs, g, f, i);
            assert(front[r.0] == ts[r.0]);
            r
        } else {
            (ts.len() - 1, kept_stems(rs, g(ts.last()), i - n))
        }
    }
}

/// No two of the additions are for the same target.
pub open spec fn add_differently(mutations: Seq<MutationView>, record_type: Seq<char>) -> bool {
    forall|i: int, j: int|
        0 <= i < j < mutations.len() ==> !rules::same_target(
            (#[trigger] mutations[i])->Add_params.content,
            (#[trigger] mutations[j])->Add_params.content,
            record_type,
        )
}

proof fn distinct_targets_add_differently(
    existing: Seq<RecordView>,
    zone: Seq<char>,
    e: EndpointView,
    prio: Option<u32>,
    targets: Seq<Seq<char>>,
)
    ensures
        add_differently(
            plan::distinct(targets, e.record_type).filter_map(
                plan::addition(existing, zone, e, prio),
            ),
            e.record_type,
        ),
{
    let ts = plan::distinct(targets, e.record_type);
    let f = plan::addition(existing, zone, e, prio);
    let whole = ts.filter_map(f);
    distinct_differ(targets, e.record_type);
    assert forall|i: int, j: int| 0 <= i < j < whole.len() implies !rules::same_target(
        (#[trigger] whole[i])->Add_params.content,
        (#[trigger] whole[j])->Add_params.content,
        e.record_type,
    ) by {
        let r = kept_in_order(ts, f, i, j);
        assert(!rules::same_target(ts[r.0], ts[r.1], e.record_type));
    }
}

/// However often a target is listed, a creation or an update adds it at most once.
pub proof fn targets_are_added_once(
    records: Seq<RecordView>,
    zone: Seq<char>,
    old_endpoint: EndpointView,
    new_endpoint: EndpointView,
    prio: Option<u32>,
)
    ensures
        add_differently(
            plan::creation(records, zone, new_endpoint, prio),
            new_endpoint.record_type,
        ),
        add_differently(
            plan::update_additions(records, zone, old_endpoint, new_endpoint, prio),
            new_endpoint.record_type,
        ),
{
    let kind = new_endpoint.record_type;
    let existing = plan::matching(records, zone, new_endpoint);
    distinct_targets_add_differently(existing, zone, new_endpoint, prio, new_endpoint.targets);
    distinct_targets_add_differently(
        existing,
        zone,
        new_endpoint,
        prio,
        new_endpoint.targets.filter(plan::in_common(old_endpoint.targets, kind, false)),
    );
}

/// However often a target is listed, an update removes and edits a record at most once.
pub proof fn records_are_mutated_once(
    records: Seq<RecordView>,
    zone: Seq<char>,
    old_endpoint: EndpointView,
    new_endpoint: EndpointView,
    prio: Option<u32>,
)
    requires
        distinct_ids(records),
    ensures
        forall|i: int, j: int|
            0 <= i < j < plan::update_removals(records, zone, old_endpoint, new_endpoint).len()
                ==> (#[trigger] plan::update_removals(
                records,
                zone,
                old_endpoint,
                new_endpoint,
            )[i])->Remove_id != (#[trigger] plan::update_removals(
                records,
                zone,
                old_endpoint,
                new_endpoint,
            )[j])->Remove_id,
        forall|i: int, j: int|
            0 <= i < j < plan::update_edits(records, zone, old_endpoint, new_endpoint, prio).len()
                ==> (#[trigger] plan::update_edits(
                records,
                zone,
                old_endpoint,
                new_endpoint,
                prio,
            )[i])->Edit_id != (#[trigger] plan::update_edits(
                records,
                zone,
                old_endpoint,
                new_endpoint,
                prio,
            )[j])->Edit_id,
{
    let kind = new_endpoint.record_type;
    let rs = plan::matching(records, zone, old_endpoint);
    distinct_ids_kept(records, plan::belonging(zone, old_endpoint));
    let dropped = plan::compared(old_endpoint.targets, new_endpoint.targets, kind, false);
    distinct_differ(
        old_endpoint.targets.filter(plan::in_common(new_endpoint.targets, kind, false)),
        kind,
    );
    let removals = plan::update_removals(records, zone, old_endpoint, new_endpoint);
    let f = plan::removals_of(rs, zone, kind);
    let g = |t: Seq<char>| plan::removal(zone, seq![t], kind);
    assert forall|t: Seq<char>| #[trigger] f(t) == rs.filter_map(g(t)) by {}
    assert forall|i: int, j: int| 0 <= i < j < removals.len() implies (
    #[trigger] removals[i])->Remove_id != (#[trigger] removals[j])->Remove_id by {
        let r = flat_in_order(dropped, rs, g, f, i, j);
        let a = seq![dropped[r.0]];
        let b = seq![dropped[r.2]];
        assert(plan::listed(a, rs[r.1].content, kind));
        assert(plan::listed(b, rs[r.3].content, kind));
        assert(rules::same_target(a[0], rs[r.1].content, kind));
        assert(rules::same_target(b[0], rs[r.3].content, kind));
        if r.1 == r.3 {
            assert(rules::same_target(dropped[r.0], dropped[r.2], kind));
        } else if r.1 < r.3 {
            assert(rs[r.1].id != rs[r.3].id);
        } else {
            assert(rs[r.3].id != rs[r.1].id);
        }
    }
    let kept = plan::compared(new_endpoint.targets, old_endpoint.targets, kind, true);
    distinct_differ(
        new_endpoint.targets.filter(plan::in_common(old_endpoint.targets, kind, true)),
        kind,
    );
    let edits = plan::update_edits(records, zone, old_endpoint, new_endpoint, prio);
    let h = plan::edits_of(rs, zone, new_endpoint, prio);
    let k = |t: Seq<char>| plan::edit(zone, new_endpoint, prio, t);
    assert forall|t: Seq<char>| #[trigger] h(t) == rs.filter_map(k(t)) by {}
    assert forall|i: int, j: int| 0 <= i < j < edits.len() implies (#[trigger] edits[i])->Edit_id
        != (#[trigger] edits[j])->Edit_id by {
        let r = flat_in_order(kept, rs, k, h, i, j);
        if r.1 == r.3 {
            assert(rules::same_target(kept[r.0], kept[r.2], kind));
        } else if r.1 < r.3 {
            assert(rs[r.1].id != rs[r.3].id);
        } else {
            assert(rs[r.3].id != rs[r.1].id);
        }
    }
}

} // verus!

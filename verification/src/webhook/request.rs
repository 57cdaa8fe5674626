//! What holds of a request that is carried out as a whole.
use crate::error::ErrorView;
use crate::porkbun::types::{ParamsView, RecordView};
use crate::text;
use crate::webhook::agenda;
use crate::webhook::agenda::{
    Advance, ApplyActionView, ApplyEventView, Policy, RunView, Slot, StepView, TaskView,
};
use crate::webhook::conduct;
use crate::webhook::laws;
use crate::webhook::plan;
use crate::webhook::plan::MutationView;
use crate::webhook::retry;
use crate::webhook::rules;
use crate::webhook::types::{ChangesView, EndpointView};
use vstd::prelude::*;

verus! {

/// The record belongs to the endpoint and has one of its targets.
pub open spec fn claims(zone: Seq<char>, e: EndpointView, r: RecordView) -> bool {
    rules::belongs(zone, e, r) && plan::listed(e.targets, r.content, e.record_type)
}

/// The endpoints differ in name or in type, or have no target in common.
pub open spec fn apart(a: EndpointView, b: EndpointView) -> bool {
    ||| text::normalized(a.dns_name) != text::normalized(b.dns_name)
    ||| a.record_type != b.record_type
    ||| forall|i: int|
        0 <= i < a.targets.len() ==> !plan::listed(b.targets, #[trigger] a.targets[i], b.record_type)
}

/// No two changes touch the same records, save that endpoints to create may share targets
/// with each other, and endpoints to delete too. The old and the new endpoint of an update
/// are one change.
pub open spec fn changes_apart(c: ChangesView) -> bool {
    forall|a: Slot, b: Slot|
        agenda::has_slot(c, a) && agenda::has_slot(c, b) && agenda::work_on(a) != agenda::work_on(b)
            && !alike(a, b) ==> apart(
            #[trigger] agenda::endpoint_at(c, a),
            #[trigger] agenda::endpoint_at(c, b),
        )
}

/// Both endpoints are to be created, or both are to be deleted.
pub open spec fn alike(a: Slot, b: Slot) -> bool {
    a is Create && b is Create || a is Delete && b is Delete
}

/// The zone of the endpoint, where it has one.
pub open spec fn zone_for(zones: Seq<Seq<char>>, e: EndpointView) -> Seq<char> {
    rules::zone_of(text::normalized(e.dns_name), zones)->0
}

/// The request can be carried out: the zones are those that are managed, its endpoints are
/// free of faults, those that it brings about have something before the dot that parts their
/// name from the zone, and no change touches the records of another.
pub open spec fn feasible(p: Policy, zones: Seq<Seq<char>>, c: ChangesView) -> bool {
    &&& !p.dry_run
    &&& retry::manages(p, zones)
    &&& forall|i: int| 0 <= i < zones.len() ==> laws::canonical(#[trigger] zones[i])
    &&& c.update_old.len() == c.update_new.len()
    &&& c.create.len() <= usize::MAX
    &&& c.update_new.len() <= usize::MAX
    &&& c.delete.len() <= usize::MAX
    &&& forall|slot: Slot| #[trigger]
        agenda::has_slot(c, slot) ==> conduct::fault_among(
            p,
            zones,
            agenda::endpoint_at(c, slot),
        ) is None
    &&& forall|slot: Slot| #[trigger]
        agenda::has_slot(c, slot) && (slot is Create || slot is UpdateNew) ==> laws::well_named(
            agenda::endpoint_at(c, slot).dns_name,
            zone_for(zones, agenda::endpoint_at(c, slot)),
        )
    &&& changes_apart(c)
}

/// The mutation leads from what the zones held to what they hold, and no two records of a
/// zone have the same id.
pub open spec fn served(
    m: MutationView,
    before: Map<Seq<char>, Seq<RecordView>>,
    after: Map<Seq<char>, Seq<RecordView>>,
) -> bool {
    &&& laws::serves(m.zone(), m, before[m.zone()], after[m.zone()])
    &&& laws::distinct_ids(after[m.zone()])
    &&& forall|zone: Seq<char>| zone != m.zone() ==> #[trigger] after[zone] == before[zone]
}

/// No two records of a zone have the same id.
pub open spec fn all_distinct(held: Map<Seq<char>, Seq<RecordView>>) -> bool {
    forall|zone: Seq<char>| laws::distinct_ids(#[trigger] held[zone])
}

/// A point in the course of a request: the step that the work has come to, and what the
/// zones hold.
pub struct Moment {
    pub step: StepView,
    pub held: Map<Seq<char>, Seq<RecordView>>,
}

/// From one moment the work gets to the next: what it asks for is told as it is, and a
/// mutation that it asks for is carried out.
pub open spec fn follows(p: Policy, zones: Seq<Seq<char>>, a: Moment, b: Moment) -> bool {
    match a.step.action {
        ApplyActionView::ManagedDomains | ApplyActionView::ListRecords(_) => b.held == a.held
            && b.step == retry::read_on(p, zones, a.held, a.step),
        ApplyActionView::Mutate(m) => served(m, a.held, b.held) && b.step == agenda::resume(
            p,
            a.step.run,
            ApplyEventView::Mutated(Ok(())),
        ),
        ApplyActionView::DryRun(m) => b.held == a.held && b.step == agenda::resume(
            p,
            a.step.run,
            ApplyEventView::Noted,
        ),
        ApplyActionView::Finish(_) => false,
    }
}

/// The moments are the course of the request, from its beginning.
pub open spec fn course(
    p: Policy,
    zones: Seq<Seq<char>>,
    c: ChangesView,
    moments: Seq<Moment>,
) -> bool {
    &&& moments.len() > 0
    &&& moments[0].step == agenda::start(p, c)
    &&& all_distinct(moments[0].held)
    &&& forall|k: int|
        0 <= k < moments.len() - 1 ==> follows(p, zones, #[trigger] moments[k], moments[k + 1])
}

/// The mutation touches only records that the endpoint claims.
spec fn concerns(
    zone: Seq<char>,
    e: EndpointView,
    m: MutationView,
    records: Seq<RecordView>,
) -> bool {
    &&& m.zone() == zone
    &&& match m {
        MutationView::Add { zone: z, params } => asks_for(zone, e, params),
        MutationView::Edit { zone: z, id, params } => asks_for(zone, e, params) && owned(
            zone,
            e,
            id,
            records,
        ),
        MutationView::Remove { zone: z, id } => owned(zone, e, id, records),
    }
}

/// The endpoint claims any record that holds this.
spec fn asks_for(zone: Seq<char>, e: EndpointView, params: ParamsView) -> bool {
    forall|r: RecordView| #[trigger] laws::reflects(zone, params, r) ==> claims(zone, e, r)
}

/// The endpoint claims any record with this id.
spec fn owned(
    zone: Seq<char>,
    e: EndpointView,
    id: Seq<char>,
    records: Seq<RecordView>,
) -> bool {
    forall|i: int|
        0 <= i < records.len() && (#[trigger] records[i]).id == id ==> claims(zone, e, records[i])
}

/// What an endpoint wants is what it claims.
proof fn wanted_is_claimed(
    zone: Seq<char>,
    e: EndpointView,
    prio: Option<u32>,
    t: Seq<char>,
)
    requires
        laws::canonical(zone),
        laws::well_named(e.dns_name, zone),
        e.targets.contains(t),
    ensures
        asks_for(zone, e, plan::wanted(zone, e, prio, t)),
{
    let i = choose|i: int| 0 <= i < e.targets.len() && e.targets[i] == t;
    assert forall|r: RecordView| #[trigger]
        laws::reflects(zone, plan::wanted(zone, e, prio, t), r) implies claims(zone, e, r) by {
        laws::wanted_belongs(zone, e, prio, t, r);
        assert(rules::same_target(e.targets[i], r.content, e.record_type));
    }
}

/// Endpoints that are apart claim no record in common.
proof fn claims_differ(zone: Seq<char>, e: EndpointView, other: EndpointView, r: RecordView)
    requires
        apart(e, other),
        claims(zone, e, r),
    ensures
        !claims(zone, other, r),
{
    if claims(zone, other, r) {
        let kind = e.record_type;
        let i = choose|i: int|
            0 <= i < e.targets.len() && #[trigger] rules::same_target(e.targets[i], r.content, kind);
        let j = choose|j: int|
            0 <= j < other.targets.len() && #[trigger] rules::same_target(
                other.targets[j],
                r.content,
                kind,
            );
        assert(rules::same_target(other.targets[j], e.targets[i], kind));
        assert(plan::listed(other.targets, e.targets[i], kind));
    }
}

/// A mutation for one endpoint leaves the records that another claims, which is apart from it.
proof fn others_are_left(
    zone: Seq<char>,
    e: EndpointView,
    other: EndpointView,
    m: MutationView,
    before: Seq<RecordView>,
    after: Seq<RecordView>,
)
    requires
        apart(e, other),
        concerns(zone, e, m, before),
        laws::serves(zone, m, before, after),
    ensures
        forall|r: RecordView|
            claims(zone, other, r) ==> #[trigger] after.contains(r) == before.contains(r),
{
    assert forall|r: RecordView| claims(zone, other, r) implies #[trigger] after.contains(r)
        == before.contains(r) by {
        if claims(zone, e, r) {
            claims_differ(zone, e, other, r);
        }
        match m {
            MutationView::Add { zone: z, params } => {
                if before.contains(r) {
                    let i = choose|i: int| 0 <= i < before.len() && before[i] == r;
                    assert(after[i] == r);
                }
                if after.contains(r) {
                    let i = choose|i: int| 0 <= i < after.len() && after[i] == r;
                    assert(i < before.len());
                    assert(before[i] == r);
                }
            },
            MutationView::Edit { zone: z, id, params } => {
                if before.contains(r) {
                    let i = choose|i: int| 0 <= i < before.len() && before[i] == r;
                    assert(after[i] == r);
                }
                if after.contains(r) {
                    let i = choose|i: int| 0 <= i < after.len() && after[i] == r;
                    assert(before[i] == r);
                }
            },
            MutationView::Remove { zone: z, id } => {
                let q = laws::other_than(id);
                if before.contains(r) {
                    let i = choose|i: int| 0 <= i < before.len() && before[i] == r;
                    before.lemma_filter_contains(q, i);
                }
                if after.contains(r) {
                    before.lemma_filter_contains_rev(q, r);
                }
            },
        }
    }
}

/// What the endpoint claims is no more than it was, in every zone.
spec fn claims_no_more(
    e: EndpointView,
    before: Map<Seq<char>, Seq<RecordView>>,
    after: Map<Seq<char>, Seq<RecordView>>,
) -> bool {
    forall|zone: Seq<char>, r: RecordView|
        claims(zone, e, r) && #[trigger] after[zone].contains(r) ==> before[zone].contains(r)
}

/// What the endpoint claims is no less than it was, in every zone.
spec fn claims_no_less(
    e: EndpointView,
    before: Map<Seq<char>, Seq<RecordView>>,
    after: Map<Seq<char>, Seq<RecordView>>,
) -> bool {
    forall|zone: Seq<char>, r: RecordView|
        claims(zone, e, r) && #[trigger] before[zone].contains(r) ==> after[zone].contains(r)
}

proof fn claims_are_kept(
    e: EndpointView,
    other: EndpointView,
    m: MutationView,
    before: Map<Seq<char>, Seq<RecordView>>,
    after: Map<Seq<char>, Seq<RecordView>>,
)
    requires
        apart(e, other),
        concerns(m.zone(), e, m, before[m.zone()]),
        served(m, before, after),
    ensures
        claims_no_more(other, before, after),
        claims_no_less(other, before, after),
{
    others_are_left(m.zone(), e, other, m, before[m.zone()], after[m.zone()]);
    assert forall|zone: Seq<char>, r: RecordView|
        claims(zone, other, r) && #[trigger] after[zone].contains(
            r,
        ) implies before[zone].contains(r) by {
        if zone != m.zone() {
            assert(after[zone] == before[zone]);
        }
    }
    assert forall|zone: Seq<char>, r: RecordView|
        claims(zone, other, r) && #[trigger] before[zone].contains(
            r,
        ) implies after[zone].contains(r) by {
        if zone != m.zone() {
            assert(after[zone] == before[zone]);
        }
    }
}

/// Where the endpoint claims no more than before and there was nothing to delete, there still
/// is nothing.
proof fn deletion_stays_done(
    zone: Seq<char>,
    e: EndpointView,
    before: Map<Seq<char>, Seq<RecordView>>,
    after: Map<Seq<char>, Seq<RecordView>>,
)
    requires
        claims_no_more(e, before, after),
        plan::deletion(before[zone], zone, e).len() == 0,
    ensures
        plan::deletion(after[zone], zone, e).len() == 0,
{
    let now = plan::deletion(after[zone], zone, e);
    if now.len() > 0 {
        let records = after[zone];
        assert(now.contains(now[0]));
        laws::deletion_is_exact(records, zone, e, now[0]);
        let i = choose|i: int|
            0 <= i < records.len() && rules::belongs(zone, e, #[trigger] records[i])
                && plan::listed(e.targets, records[i].content, e.record_type) && now[0] == (
            MutationView::Remove { zone, id: records[i].id });
        assert(after[zone].contains(records[i]));
        let j = choose|j: int| 0 <= j < before[zone].len() && before[zone][j] == records[i];
        assert(rules::belongs(zone, e, before[zone][j]));
        laws::deletion_is_exact(before[zone], zone, e, now[0]);
    }
}

/// Where the endpoint claims no less than before and none of its targets called for an
/// addition, none does.
proof fn additions_stay_done(
    zone: Seq<char>,
    e: EndpointView,
    prio: Option<u32>,
    targets: Seq<Seq<char>>,
    before: Map<Seq<char>, Seq<RecordView>>,
    after: Map<Seq<char>, Seq<RecordView>>,
)
    requires
        claims_no_less(e, before, after),
        forall|t: Seq<char>| #[trigger] targets.contains(t) ==> e.targets.contains(t),
        plan::additions(
            before[zone],
            zone,
            e,
            prio,
            plan::distinct(targets, e.record_type),
        ).len() == 0,
    ensures
        plan::additions(
            after[zone],
            zone,
            e,
            prio,
            plan::distinct(targets, e.record_type),
        ).len() == 0,
{
    let ts = plan::distinct(targets, e.record_type);
    let had = plan::matching(before[zone], zone, e);
    let has = plan::matching(after[zone], zone, e);
    let f = plan::addition(had, zone, e, prio);
    let g = plan::addition(has, zone, e, prio);
    assert forall|j: int| 0 <= j < ts.len() implies g(#[trigger] ts[j]) is None by {
        laws::nothing_kept(ts, f, j);
        laws::distinct_stems(targets, e.record_type, j);
        assert(targets.contains(ts[j]));
        let i = choose|i: int| 0 <= i < e.targets.len() && e.targets[i] == ts[j];
        let k = choose|k: int|
            0 <= k < had.len() && #[trigger] plan::provides(e, prio, had[k], ts[j]);
        let r = had[k];
        assert(had.contains(r));
        laws::matching_has(before[zone], zone, e, r);
        assert(rules::same_target(e.targets[i], r.content, e.record_type));
        assert(before[zone].contains(r));
        laws::matching_has(after[zone], zone, e, r);
        let l = choose|l: int| 0 <= l < has.len() && has[l] == r;
        assert(plan::provides(e, prio, has[l], ts[j]));
    }
    laws::all_dropped(ts, g);
}

/// Where the endpoints of an update in place claim what they did and the update called for
/// nothing, it calls for nothing.
proof fn update_stays_done(
    zone: Seq<char>,
    old_endpoint: EndpointView,
    new_endpoint: EndpointView,
    before: Map<Seq<char>, Seq<RecordView>>,
    after: Map<Seq<char>, Seq<RecordView>>,
)
    requires
        old_endpoint.record_type == new_endpoint.record_type,
        claims_no_more(old_endpoint, before, after),
        claims_no_less(new_endpoint, before, after),
        retry::updated_already(before[zone], zone, old_endpoint, new_endpoint),
    ensures
        retry::updated_already(after[zone], zone, old_endpoint, new_endpoint),
{
    let prio = prio_for(new_endpoint);
    let kind = new_endpoint.record_type;
    let had = before[zone];
    let has = after[zone];
    let removals = plan::update_removals(had, zone, old_endpoint, new_endpoint);
    let edits = plan::update_edits(had, zone, old_endpoint, new_endpoint, prio);
    assert forall|i: int| 0 <= i < has.len() implies laws::left_alone(
        zone,
        old_endpoint,
        new_endpoint,
        prio,
        #[trigger] has[i],
    ) by {
        let r = has[i];
        assert(after[zone].contains(r));
        if laws::dropped_by(zone, old_endpoint, new_endpoint, r) {
            assert(claims(zone, old_endpoint, r));
            let j = choose|j: int| 0 <= j < had.len() && had[j] == r;
            assert(laws::dropped_by(zone, old_endpoint, new_endpoint, had[j]));
            laws::update_removals_are_exact(
                had,
                zone,
                old_endpoint,
                new_endpoint,
                MutationView::Remove { zone, id: r.id },
            );
            assert(removals.contains(MutationView::Remove { zone, id: r.id }));
        }
        if laws::stale_in(zone, old_endpoint, new_endpoint, prio, r) {
            assert(claims(zone, old_endpoint, r));
            let j = choose|j: int| 0 <= j < had.len() && had[j] == r;
            laws::update_edits_are_exact(had, zone, old_endpoint, new_endpoint, prio);
            assert(laws::stale_in(zone, old_endpoint, new_endpoint, prio, had[j]));
            let t = choose|t: Seq<char>| #[trigger]
                edits.contains(
                    MutationView::Edit {
                        zone,
                        id: had[j].id,
                        params: plan::wanted(zone, new_endpoint, prio, t),
                    },
                );
            assert(edits.len() > 0);
        }
    }
    laws::nothing_to_remove_or_edit(has, zone, old_endpoint, new_endpoint, prio);
    let common = plan::in_common(old_endpoint.targets, kind, false);
    let added = new_endpoint.targets.filter(common);
    assert forall|t: Seq<char>| #[trigger] added.contains(t) implies new_endpoint.targets.contains(
        t,
    ) by {
        new_endpoint.targets.lemma_filter_contains_rev(common, t);
    }
    additions_stay_done(zone, new_endpoint, prio, added, before, after);
}

/// The place stands for a change: an endpoint to delete or to create, or an update.
spec fn heads(c: ChangesView, slot: Slot) -> bool {
    agenda::has_slot(c, slot) && !(slot is UpdateOld)
}

/// The change calls for nothing where the zones hold these records.
spec fn done(
    zones: Seq<Seq<char>>,
    held: Map<Seq<char>, Seq<RecordView>>,
    c: ChangesView,
    slot: Slot,
) -> bool {
    match slot {
        Slot::Create(i) => retry::creation_done(zones, held, c.create[i as int]),
        Slot::UpdateOld(i) => false,
        Slot::UpdateNew(i) => retry::update_done(
            zones,
            held,
            c.update_old[i as int],
            c.update_new[i as int],
        ),
        Slot::Delete(i) => retry::deletion_done(zones, held, c.delete[i as int]),
    }
}

/// The mutation is one that a change at the place can call for.
spec fn kind_fits(slot: Slot, m: MutationView) -> bool {
    (slot is Create ==> m is Add) && (slot is Delete ==> m is Remove)
}

/// An addition takes no record away, and a removal adds none.
proof fn one_way(
    e: EndpointView,
    m: MutationView,
    before: Map<Seq<char>, Seq<RecordView>>,
    after: Map<Seq<char>, Seq<RecordView>>,
)
    requires
        served(m, before, after),
    ensures
        m is Add ==> claims_no_less(e, before, after),
        m is Remove ==> claims_no_more(e, before, after),
{
    if m is Add {
        assert forall|zone: Seq<char>, r: RecordView|
            claims(zone, e, r) && #[trigger] before[zone].contains(
                r,
            ) implies after[zone].contains(r) by {
            let i = choose|i: int| 0 <= i < before[zone].len() && before[zone][i] == r;
            if zone != m.zone() {
                assert(after[zone] == before[zone]);
            }
            assert(after[zone][i] == r);
        }
    }
    if m is Remove {
        assert forall|zone: Seq<char>, r: RecordView|
            claims(zone, e, r) && #[trigger] after[zone].contains(
                r,
            ) implies before[zone].contains(r) by {
            if zone == m.zone() {
                before[zone].lemma_filter_contains_rev(laws::other_than(m->Remove_id), r);
            } else {
                assert(after[zone] == before[zone]);
            }
        }
    }
}

/// A mutation for one change leaves another that calls for nothing as it is.
proof fn done_is_kept(
    zones: Seq<Seq<char>>,
    before: Map<Seq<char>, Seq<RecordView>>,
    after: Map<Seq<char>, Seq<RecordView>>,
    c: ChangesView,
    slot: Slot,
    at: Slot,
    m: MutationView,
)
    requires
        changes_apart(c),
        c.update_old.len() == c.update_new.len(),
        heads(c, slot),
        agenda::has_slot(c, at),
        agenda::work_on(at) != agenda::work_on(slot),
        kind_fits(at, m),
        concerns(m.zone(), agenda::endpoint_at(c, at), m, before[m.zone()]),
        served(m, before, after),
        done(zones, before, c, slot),
    ensures
        done(zones, after, c, slot),
{
    let e = agenda::endpoint_at(c, at);
    let other = agenda::endpoint_at(c, slot);
    let zone = zone_for(zones, other);
    let prio = prio_for(other);
    if alike(at, slot) {
        one_way(other, m, before, after);
    } else {
        claims_are_kept(e, other, m, before, after);
    }
    match slot {
        Slot::Delete(i) => deletion_stays_done(zone, other, before, after),
        Slot::Create(i) => additions_stay_done(zone, other, prio, other.targets, before, after),
        Slot::UpdateNew(i) => {
            let old_slot = Slot::UpdateOld(i);
            assert(agenda::has_slot(c, old_slot));
            let old_endpoint = agenda::endpoint_at(c, old_slot);
            let old_zone = zone_for(zones, old_endpoint);
            assert(agenda::work_on(old_slot) == agenda::work_on(slot));
            claims_are_kept(e, old_endpoint, m, before, after);
            if in_place(zones, c, i) {
                update_stays_done(zone, old_endpoint, other, before, after);
            } else {
                deletion_stays_done(old_zone, old_endpoint, before, after);
                additions_stay_done(zone, other, prio, other.targets, before, after);
            }
        },
        _ => {},
    }
}

/// The priority of the endpoint, where it can be read.
spec fn prio_for(e: EndpointView) -> Option<u32> {
    rules::priority_of(e.provider_specific)->Ok_0
}

/// The endpoints of a request that can be carried out have a zone and a priority.
proof fn endpoint_is_placed(p: Policy, zones: Seq<Seq<char>>, c: ChangesView, slot: Slot)
    requires
        feasible(p, zones, c),
        agenda::has_slot(c, slot),
    ensures
        ({
            let e = agenda::endpoint_at(c, slot);
            &&& rules::zone_of(text::normalized(e.dns_name), zones) == Some(zone_for(zones, e))
            &&& rules::resolved(p.filter is Some, zones, e.dns_name) == Ok::<
                Seq<char>,
                ErrorView,
            >(zone_for(zones, e))
            &&& laws::canonical(zone_for(zones, e))
            &&& rules::priority_of(e.provider_specific) == Ok::<
                Option<u32>,
                ErrorView,
            >(prio_for(e))
            &&& agenda::shape_fault(e) is None
            &&& agenda::place_fault(p, zones, e) is None
        }),
{
    let e = agenda::endpoint_at(c, slot);
    assert(conduct::fault_among(p, zones, e) is None);
    rules::zone_of_is_longest(text::normalized(e.dns_name), zones);
    let zone = zone_for(zones, e);
    let i = choose|i: int| 0 <= i < zones.len() && zones[i] == zone;
    assert(laws::canonical(zones[i]));
}

/// The removals cover all records that the update drops, and touch only its own.
spec fn removing(
    records: Seq<RecordView>,
    zone: Seq<char>,
    old_endpoint: EndpointView,
    new_endpoint: EndpointView,
    left: Seq<MutationView>,
) -> bool {
    &&& forall|i: int|
        0 <= i < records.len() && laws::dropped_by(
            zone,
            old_endpoint,
            new_endpoint,
            #[trigger] records[i],
        ) ==> left.contains(MutationView::Remove { zone, id: records[i].id })
    &&& forall|k: int|
        0 <= k < left.len() ==> (#[trigger] left[k]) is Remove && left[k]->Remove_zone == zone
            && owned(zone, old_endpoint, left[k]->Remove_id, records)
}

/// The edit is one that the new endpoint wants for one of its targets.
spec fn wanted_edit(
    zone: Seq<char>,
    new_endpoint: EndpointView,
    prio: Option<u32>,
    m: MutationView,
) -> bool {
    m is Edit && m->Edit_zone == zone && exists|t: Seq<char>| #[trigger]
        new_endpoint.targets.contains(t) && m->Edit_params == plan::wanted(
            zone,
            new_endpoint,
            prio,
            t,
        )
}

/// Some edit is of the record with this id.
spec fn edited_in(left: Seq<MutationView>, id: Seq<char>) -> bool {
    exists|k: int| 0 <= k < left.len() && (#[trigger] left[k])->Edit_id == id
}

/// The edits cover all records that are stale, touch only those of the update, and no record
/// is dropped any more.
spec fn editing(
    records: Seq<RecordView>,
    zone: Seq<char>,
    old_endpoint: EndpointView,
    new_endpoint: EndpointView,
    prio: Option<u32>,
    left: Seq<MutationView>,
) -> bool {
    &&& forall|i: int|
        0 <= i < records.len() ==> !laws::dropped_by(
            zone,
            old_endpoint,
            new_endpoint,
            #[trigger] records[i],
        ) && (laws::stale_in(zone, old_endpoint, new_endpoint, prio, records[i]) ==> edited_in(
            left,
            records[i].id,
        ))
    &&& forall|k: int|
        0 <= k < left.len() ==> wanted_edit(zone, new_endpoint, prio, #[trigger] left[k]) && owned(
            zone,
            new_endpoint,
            left[k]->Edit_id,
            records,
        )
}

/// The update leaves all records alone.
spec fn at_peace(
    records: Seq<RecordView>,
    zone: Seq<char>,
    old_endpoint: EndpointView,
    new_endpoint: EndpointView,
    prio: Option<u32>,
) -> bool {
    forall|i: int|
        0 <= i < records.len() ==> laws::left_alone(
            zone,
            old_endpoint,
            new_endpoint,
            prio,
            #[trigger] records[i],
        )
}

proof fn only_one_has_id(
    records: Seq<RecordView>,
    zone: Seq<char>,
    e: EndpointView,
    i: int,
)
    requires
        laws::distinct_ids(records),
        0 <= i < records.len(),
        claims(zone, e, records[i]),
    ensures
        owned(zone, e, records[i].id, records),
{
    assert forall|j: int|
        0 <= j < records.len() && (#[trigger] records[j]).id == records[i].id implies claims(
        zone,
        e,
        records[j],
    ) by {
        if i < j {
            assert(records[i].id != records[j].id);
        } else if j < i {
            assert(records[j].id != records[i].id);
        }
    }
}

/// The removals with which an update begins cover what it drops.
proof fn removing_begins(
    records: Seq<RecordView>,
    zone: Seq<char>,
    old_endpoint: EndpointView,
    new_endpoint: EndpointView,
)
    requires
        old_endpoint.record_type == new_endpoint.record_type,
        laws::distinct_ids(records),
    ensures
        removing(
            records,
            zone,
            old_endpoint,
            new_endpoint,
            plan::update_removals(records, zone, old_endpoint, new_endpoint),
        ),
{
    let left = plan::update_removals(records, zone, old_endpoint, new_endpoint);
    assert forall|i: int|
        0 <= i < records.len() && laws::dropped_by(
            zone,
            old_endpoint,
            new_endpoint,
            #[trigger] records[i],
        ) implies left.contains(MutationView::Remove { zone, id: records[i].id }) by {
        laws::update_removals_are_exact(
            records,
            zone,
            old_endpoint,
            new_endpoint,
            MutationView::Remove { zone, id: records[i].id },
        );
    }
    assert forall|k: int| 0 <= k < left.len() implies (#[trigger] left[k]) is Remove
        && left[k]->Remove_zone == zone && owned(
        zone,
        old_endpoint,
        left[k]->Remove_id,
        records,
    ) by {
        laws::update_removals_are_exact(records, zone, old_endpoint, new_endpoint, left[k]);
        assert(left.contains(left[k]));
        let i = choose|i: int|
            0 <= i < records.len() && laws::dropped_by(
                zone,
                old_endpoint,
                new_endpoint,
                #[trigger] records[i],
            ) && left[k] == (MutationView::Remove { zone, id: records[i].id });
        only_one_has_id(records, zone, old_endpoint, i);
    }
}

/// After the first removal the others cover what is left to drop.
proof fn removing_goes_on(
    zone: Seq<char>,
    old_endpoint: EndpointView,
    new_endpoint: EndpointView,
    left: Seq<MutationView>,
    before: Seq<RecordView>,
    after: Seq<RecordView>,
)
    requires
        left.len() > 0,
        removing(before, zone, old_endpoint, new_endpoint, left),
        laws::serves(zone, left[0], before, after),
    ensures
        removing(after, zone, old_endpoint, new_endpoint, left.drop_first()),
{
    let rest = left.drop_first();
    let id = left[0]->Remove_id;
    let q = laws::other_than(id);
    assert(left[0] is Remove);
    assert forall|i: int| 0 <= i < after.len() implies before.contains(#[trigger] after[i])
        && after[i].id != id by {
        before.lemma_filter_contains_rev(q, after[i]);
        before.lemma_filter_pred(q, i);
    }
    assert forall|i: int|
        0 <= i < after.len() && laws::dropped_by(
            zone,
            old_endpoint,
            new_endpoint,
            #[trigger] after[i],
        ) implies rest.contains(MutationView::Remove { zone, id: after[i].id }) by {
        let j = choose|j: int| 0 <= j < before.len() && before[j] == after[i];
        let m = MutationView::Remove { zone, id: before[j].id };
        assert(left.contains(m));
        let k = choose|k: int| 0 <= k < left.len() && left[k] == m;
        assert(rest[k - 1] == m);
    }
    assert forall|k: int| 0 <= k < rest.len() implies (#[trigger] rest[k]) is Remove
        && rest[k]->Remove_zone == zone && owned(
        zone,
        old_endpoint,
        rest[k]->Remove_id,
        after,
    ) by {
        assert(rest[k] == left[k + 1]);
        assert forall|i: int|
            0 <= i < after.len() && (#[trigger] after[i]).id
                == rest[k]->Remove_id implies claims(zone, old_endpoint, after[i]) by {
            let j = choose|j: int| 0 <= j < before.len() && before[j] == after[i];
            assert(owned(zone, old_endpoint, left[k + 1]->Remove_id, before));
            assert(claims(zone, old_endpoint, before[j]));
        }
    }
}

/// Where nothing is dropped any more, the edits of an update cover what is stale.
proof fn editing_begins(
    records: Seq<RecordView>,
    zone: Seq<char>,
    old_endpoint: EndpointView,
    new_endpoint: EndpointView,
    prio: Option<u32>,
)
    requires
        text::normalized(old_endpoint.dns_name) == text::normalized(new_endpoint.dns_name),
        old_endpoint.record_type == new_endpoint.record_type,
        laws::distinct_ids(records),
        removing(records, zone, old_endpoint, new_endpoint, Seq::empty()),
    ensures
        editing(
            records,
            zone,
            old_endpoint,
            new_endpoint,
            prio,
            plan::update_edits(records, zone, old_endpoint, new_endpoint, prio),
        ),
{
    let left = plan::update_edits(records, zone, old_endpoint, new_endpoint, prio);
    laws::update_edits_are_exact(records, zone, old_endpoint, new_endpoint, prio);
    assert forall|i: int| 0 <= i < records.len() implies !laws::dropped_by(
        zone,
        old_endpoint,
        new_endpoint,
        #[trigger] records[i],
    ) && (laws::stale_in(zone, old_endpoint, new_endpoint, prio, records[i]) ==> edited_in(
        left,
        records[i].id,
    )) by {
        if laws::stale_in(zone, old_endpoint, new_endpoint, prio, records[i]) {
            let t = choose|t: Seq<char>| #[trigger]
                left.contains(
                    MutationView::Edit {
                        zone,
                        id: records[i].id,
                        params: plan::wanted(zone, new_endpoint, prio, t),
                    },
                );
            let m = MutationView::Edit {
                zone,
                id: records[i].id,
                params: plan::wanted(zone, new_endpoint, prio, t),
            };
            let k = choose|k: int| 0 <= k < left.len() && left[k] == m;
            assert(left[k]->Edit_id == records[i].id);
        }
    }
    assert forall|k: int| 0 <= k < left.len() implies wanted_edit(
        zone,
        new_endpoint,
        prio,
        #[trigger] left[k],
    ) && owned(zone, new_endpoint, left[k]->Edit_id, records) by {
        assert(left.contains(left[k]));
        let (i, t) = choose|i: int, t: Seq<char>|
            0 <= i < records.len() && laws::stale_in(
                zone,
                old_endpoint,
                new_endpoint,
                prio,
                #[trigger] records[i],
            ) && #[trigger] rules::same_target(records[i].content, t, new_endpoint.record_type)
                && new_endpoint.targets.contains(t) && left[k] == (MutationView::Edit {
                zone,
                id: records[i].id,
                params: plan::wanted(zone, new_endpoint, prio, t),
            });
        only_one_has_id(records, zone, new_endpoint, i);
    }
}

/// After the first edit the others cover what is left stale.
proof fn editing_goes_on(
    zone: Seq<char>,
    old_endpoint: EndpointView,
    new_endpoint: EndpointView,
    prio: Option<u32>,
    left: Seq<MutationView>,
    before: Seq<RecordView>,
    after: Seq<RecordView>,
)
    requires
        laws::updates_in_place(zone, old_endpoint, new_endpoint),
        left.len() > 0,
        editing(before, zone, old_endpoint, new_endpoint, prio, left),
        laws::serves(zone, left[0], before, after),
    ensures
        editing(after, zone, old_endpoint, new_endpoint, prio, left.drop_first()),
{
    let rest = left.drop_first();
    let id = left[0]->Edit_id;
    let params = left[0]->Edit_params;
    assert(wanted_edit(zone, new_endpoint, prio, left[0]));
    let t = choose|t: Seq<char>| #[trigger]
        new_endpoint.targets.contains(t) && params == plan::wanted(zone, new_endpoint, prio, t);
    assert(laws::edits(zone, id, params, before, after));
    assert forall|i: int| 0 <= i < after.len() implies #[trigger] after[i] == before[i] && before[i].id
        != id || after[i].id == before[i].id && laws::left_alone(
        zone,
        old_endpoint,
        new_endpoint,
        prio,
        after[i],
    ) && claims(zone, new_endpoint, after[i]) by {
        if before[i].id == id {
            laws::wanted_is_left_alone(zone, old_endpoint, new_endpoint, prio, t, after[i]);
            wanted_is_claimed(zone, new_endpoint, prio, t);
        }
    }
    assert forall|i: int| 0 <= i < after.len() implies !laws::dropped_by(
        zone,
        old_endpoint,
        new_endpoint,
        #[trigger] after[i],
    ) && (laws::stale_in(zone, old_endpoint, new_endpoint, prio, after[i]) ==> edited_in(
        rest,
        after[i].id,
    )) by {
        assert(!laws::dropped_by(zone, old_endpoint, new_endpoint, before[i]));
        if laws::stale_in(zone, old_endpoint, new_endpoint, prio, after[i]) {
            assert(edited_in(left, before[i].id));
            let k = choose|k: int| 0 <= k < left.len() && (#[trigger] left[k])->Edit_id
                == before[i].id;
            assert(rest[k - 1]->Edit_id == after[i].id);
        }
    }
    assert forall|k: int| 0 <= k < rest.len() implies wanted_edit(
        zone,
        new_endpoint,
        prio,
        #[trigger] rest[k],
    ) && owned(zone, new_endpoint, rest[k]->Edit_id, after) by {
        assert(rest[k] == left[k + 1]);
        assert(owned(zone, new_endpoint, left[k + 1]->Edit_id, before));
        assert forall|i: int|
            0 <= i < after.len() && (#[trigger] after[i]).id
                == rest[k]->Edit_id implies claims(zone, new_endpoint, after[i]) by {
            assert(before[i].id == after[i].id);
        }
    }
}

/// An update that stays in place is on its way: these tasks are left.
spec fn updating(
    zones: Seq<Seq<char>>,
    held: Map<Seq<char>, Seq<RecordView>>,
    c: ChangesView,
    i: usize,
    tasks: Seq<TaskView>,
) -> bool {
    let old_endpoint = c.update_old[i as int];
    let new_endpoint = c.update_new[i as int];
    let zone = zone_for(zones, new_endpoint);
    let prio = prio_for(new_endpoint);
    ||| tasks =~= seq![TaskView::Remove(i, zone)]
    ||| exists|left: Seq<MutationView>| #[trigger]
        removing(held[zone], zone, old_endpoint, new_endpoint, left) && tasks =~= agenda::carried(
            Slot::UpdateOld(i),
            left,
        ) + seq![TaskView::Edit(i, zone)]
    ||| exists|left: Seq<MutationView>| #[trigger]
        editing(held[zone], zone, old_endpoint, new_endpoint, prio, left) && tasks
            =~= agenda::carried(Slot::UpdateNew(i), left) + addition_after(c, i, zone)
    ||| at_peace(held[zone], zone, old_endpoint, new_endpoint, prio) && tasks =~= agenda::carried(
        Slot::UpdateNew(i),
        plan::update_additions(held[zone], zone, old_endpoint, new_endpoint, prio),
    )
}

/// What follows the edits of an update.
spec fn addition_after(c: ChangesView, i: usize, zone: Seq<char>) -> Seq<TaskView> {
    if plan::added_targets(c.update_old[i as int], c.update_new[i as int]).len() == 0 {
        Seq::empty()
    } else {
        seq![TaskView::Add(i, zone)]
    }
}

/// An update that moves is on its way: these tasks are left.
spec fn moving(
    zones: Seq<Seq<char>>,
    held: Map<Seq<char>, Seq<RecordView>>,
    c: ChangesView,
    i: usize,
    tasks: Seq<TaskView>,
) -> bool {
    let from = Slot::UpdateOld(i);
    let to = Slot::UpdateNew(i);
    let old_endpoint = c.update_old[i as int];
    let new_endpoint = c.update_new[i as int];
    let old_zone = zone_for(zones, old_endpoint);
    let zone = zone_for(zones, new_endpoint);
    let deletion = plan::deletion(held[old_zone], old_zone, old_endpoint);
    ||| tasks =~= seq![TaskView::Delete(from), TaskView::Create(to)]
    ||| tasks =~= seq![TaskView::DeleteIn(from, old_zone), TaskView::Create(to)]
    ||| tasks =~= agenda::carried(from, deletion) + seq![TaskView::Create(to)]
    ||| deletion.len() == 0 && tasks =~= seq![TaskView::CreateIn(to, zone)]
    ||| deletion.len() == 0 && tasks =~= agenda::carried(
        to,
        plan::creation(held[zone], zone, new_endpoint, prio_for(new_endpoint)),
    )
}

/// The update leaves the zone, the name and the type as they are.
spec fn in_place(zones: Seq<Seq<char>>, c: ChangesView, i: usize) -> bool {
    let old_endpoint = c.update_old[i as int];
    let new_endpoint = c.update_new[i as int];
    agenda::stays(
        zone_for(zones, old_endpoint),
        zone_for(zones, new_endpoint),
        old_endpoint,
        new_endpoint,
    )
}

/// The change is on its way: these tasks are left.
spec fn under_way(
    zones: Seq<Seq<char>>,
    held: Map<Seq<char>, Seq<RecordView>>,
    c: ChangesView,
    slot: Slot,
    tasks: Seq<TaskView>,
) -> bool {
    let e = agenda::endpoint_at(c, slot);
    let zone = zone_for(zones, e);
    match slot {
        Slot::Delete(i) => {
            ||| tasks =~= seq![TaskView::DeleteIn(slot, zone)]
            ||| tasks =~= agenda::carried(slot, plan::deletion(held[zone], zone, e))
        },
        Slot::Create(i) => {
            ||| tasks =~= seq![TaskView::CreateIn(slot, zone)]
            ||| tasks =~= agenda::carried(slot, plan::creation(held[zone], zone, e, prio_for(e)))
        },
        Slot::UpdateNew(i) => {
            ||| tasks =~= seq![TaskView::UpdateFrom(i, zone_for(zones, c.update_old[i as int]))]
            ||| if in_place(zones, c, i) {
                updating(zones, held, c, i, tasks)
            } else {
                moving(zones, held, c, i, tasks)
            }
        },
        Slot::UpdateOld(i) => false,
    }
}

/// A change for which no task is left calls for nothing.
proof fn way_ends(
    p: Policy,
    zones: Seq<Seq<char>>,
    held: Map<Seq<char>, Seq<RecordView>>,
    c: ChangesView,
    slot: Slot,
)
    requires
        feasible(p, zones, c),
        heads(c, slot),
        under_way(zones, held, c, slot, Seq::empty()),
    ensures
        done(zones, held, c, slot),
{
    let none = Seq::<TaskView>::empty();
    endpoint_is_placed(p, zones, c, slot);
    let e = agenda::endpoint_at(c, slot);
    let zone = zone_for(zones, e);
    let prio = prio_for(e);
    match slot {
        Slot::Delete(i) => {
            assert(none.len() == agenda::carried(slot, plan::deletion(held[zone], zone, e)).len());
        },
        Slot::Create(i) => {
            assert(none.len() == agenda::carried(
                slot,
                plan::creation(held[zone], zone, e, prio),
            ).len());
        },
        Slot::UpdateNew(i) => {
            let old_slot = Slot::UpdateOld(i);
            assert(agenda::has_slot(c, old_slot));
            endpoint_is_placed(p, zones, c, old_slot);
            let old_endpoint = agenda::endpoint_at(c, old_slot);
            if in_place(zones, c, i) {
                let additions = plan::update_additions(held[zone], zone, old_endpoint, e, prio);
                if at_peace(held[zone], zone, old_endpoint, e, prio) && none =~= agenda::carried(
                    slot,
                    additions,
                ) {
                    assert(none.len() == agenda::carried(slot, additions).len());
                } else {
                    assert forall|left: Seq<MutationView>| #[trigger]
                        removing(held[zone], zone, old_endpoint, e, left) implies !(none
                        =~= agenda::carried(old_slot, left) + seq![TaskView::Edit(i, zone)]) by {
                        assert(none.len() != (agenda::carried(old_slot, left)
                            + seq![TaskView::Edit(i, zone)]).len());
                    }
                    let left = choose|left: Seq<MutationView>| #[trigger]
                        editing(held[zone], zone, old_endpoint, e, prio, left) && none
                            =~= agenda::carried(slot, left) + addition_after(c, i, zone);
                    let tail = addition_after(c, i, zone);
                    assert(none.len() == agenda::carried(slot, left).len() + tail.len());
                    assert forall|j: int| 0 <= j < held[zone].len() implies laws::left_alone(
                        zone,
                        old_endpoint,
                        e,
                        prio,
                        #[trigger] held[zone][j],
                    ) by {
                        assert(!edited_in(left, held[zone][j].id));
                    }
                    assert(additions =~= Seq::empty());
                }
                laws::nothing_to_remove_or_edit(held[zone], zone, old_endpoint, e, prio);
            } else {
                let old_zone = zone_for(zones, old_endpoint);
                let deletion = plan::deletion(held[old_zone], old_zone, old_endpoint);
                assert(none.len() != (agenda::carried(old_slot, deletion)
                    + seq![TaskView::Create(slot)]).len());
                assert(none.len() == agenda::carried(
                    slot,
                    plan::creation(held[zone], zone, e, prio),
                ).len());
            }
        },
        _ => {},
    }
}

/// What takes the place of a task where these zones are managed and hold these records.
spec fn led(
    p: Policy,
    zones: Seq<Seq<char>>,
    held: Map<Seq<char>, Seq<RecordView>>,
    c: ChangesView,
    task: TaskView,
) -> Result<Seq<TaskView>, ErrorView> {
    match task {
        TaskView::Check(slot) => match agenda::shape_fault(agenda::endpoint_at(c, slot)) {
            Some(x) => Err(x),
            None => Ok(seq![TaskView::Locate(slot)]),
        },
        _ => match task.needs_records() {
            Some(zone) => agenda::with_records(c, task, held[zone]),
            None => agenda::with_domains(p, c, task, zones),
        },
    }
}

/// The tasks that are left of an update in place go on with the next of them.
proof fn updating_goes_on(
    p: Policy,
    zones: Seq<Seq<char>>,
    held: Map<Seq<char>, Seq<RecordView>>,
    c: ChangesView,
    i: usize,
    tasks: Seq<TaskView>,
)
    requires
        feasible(p, zones, c),
        all_distinct(held),
        agenda::has_slot(c, Slot::UpdateNew(i)),
        in_place(zones, c, i),
        updating(zones, held, c, i, tasks),
        tasks.len() > 0,
        !(tasks[0] is Carry),
    ensures
        tasks[0].needs_records() is Some,
        led(p, zones, held, c, tasks[0]) matches Ok(next) && updating(
            zones,
            held,
            c,
            i,
            next + tasks.drop_first(),
        ),
{
    let from = Slot::UpdateOld(i);
    let to = Slot::UpdateNew(i);
    let old_endpoint = c.update_old[i as int];
    let new_endpoint = c.update_new[i as int];
    let zone = zone_for(zones, new_endpoint);
    let prio = prio_for(new_endpoint);
    let records = held[zone];
    endpoint_is_placed(p, zones, c, to);
    assert(laws::distinct_ids(records));
    let additions = plan::update_additions(records, zone, old_endpoint, new_endpoint, prio);
    if tasks =~= seq![TaskView::Remove(i, zone)] {
        let left = plan::update_removals(records, zone, old_endpoint, new_endpoint);
        removing_begins(records, zone, old_endpoint, new_endpoint);
        let next = agenda::carried(from, left) + seq![TaskView::Edit(i, zone)];
        assert(next + tasks.drop_first() =~= next);
    } else if exists|left: Seq<MutationView>| #[trigger]
        removing(records, zone, old_endpoint, new_endpoint, left) && tasks =~= agenda::carried(
            from,
            left,
        ) + seq![TaskView::Edit(i, zone)] {
        let left = choose|left: Seq<MutationView>| #[trigger]
            removing(records, zone, old_endpoint, new_endpoint, left) && tasks =~= agenda::carried(
                from,
                left,
            ) + seq![TaskView::Edit(i, zone)];
        if left.len() > 0 {
            assert(tasks[0] == agenda::carried(from, left)[0]);
        }
        assert(left =~= Seq::empty());
        assert(tasks =~= seq![TaskView::Edit(i, zone)]);
        editing_begins(records, zone, old_endpoint, new_endpoint, prio);
        let edits = plan::update_edits(records, zone, old_endpoint, new_endpoint, prio);
        let next = agenda::carried(to, edits) + addition_after(c, i, zone);
        assert(next + tasks.drop_first() =~= next);
    } else if exists|left: Seq<MutationView>| #[trigger]
        editing(records, zone, old_endpoint, new_endpoint, prio, left) && tasks =~= agenda::carried(
            to,
            left,
        ) + addition_after(c, i, zone) {
        let left = choose|left: Seq<MutationView>| #[trigger]
            editing(records, zone, old_endpoint, new_endpoint, prio, left) && tasks
                =~= agenda::carried(to, left) + addition_after(c, i, zone);
        if left.len() > 0 {
            assert(tasks[0] == agenda::carried(to, left)[0]);
        }
        assert(tasks =~= seq![TaskView::Add(i, zone)]);
        assert forall|j: int| 0 <= j < records.len() implies laws::left_alone(
            zone,
            old_endpoint,
            new_endpoint,
            prio,
            #[trigger] records[j],
        ) by {
            assert(!edited_in(left, records[j].id));
        }
        let next = agenda::carried(to, additions);
        assert(next + tasks.drop_first() =~= next);
    } else {
        assert(tasks[0] == agenda::carried(to, additions)[0]);
    }
}

/// The tasks that are left of an update that moves go on with the next of them.
proof fn moving_goes_on(
    p: Policy,
    zones: Seq<Seq<char>>,
    held: Map<Seq<char>, Seq<RecordView>>,
    c: ChangesView,
    i: usize,
    tasks: Seq<TaskView>,
)
    requires
        feasible(p, zones, c),
        agenda::has_slot(c, Slot::UpdateNew(i)),
        moving(zones, held, c, i, tasks),
        tasks.len() > 0,
        !(tasks[0] is Carry),
    ensures
        tasks[0].needs_domains() || tasks[0].needs_records() is Some,
        led(p, zones, held, c, tasks[0]) matches Ok(next) && moving(
            zones,
            held,
            c,
            i,
            next + tasks.drop_first(),
        ),
{
    let from = Slot::UpdateOld(i);
    let to = Slot::UpdateNew(i);
    let old_endpoint = c.update_old[i as int];
    let new_endpoint = c.update_new[i as int];
    let old_zone = zone_for(zones, old_endpoint);
    let zone = zone_for(zones, new_endpoint);
    let prio = prio_for(new_endpoint);
    assert(agenda::has_slot(c, from));
    assert(agenda::endpoint_at(c, from) == old_endpoint);
    assert(agenda::endpoint_at(c, to) == new_endpoint);
    endpoint_is_placed(p, zones, c, from);
    endpoint_is_placed(p, zones, c, to);
    let deletion = plan::deletion(held[old_zone], old_zone, old_endpoint);
    let creation = plan::creation(held[zone], zone, new_endpoint, prio);
    if tasks =~= seq![TaskView::Delete(from), TaskView::Create(to)] {
        let next = seq![TaskView::DeleteIn(from, old_zone)];
        assert(next + tasks.drop_first() =~= seq![
            TaskView::DeleteIn(from, old_zone),
            TaskView::Create(to),
        ]);
    } else if tasks =~= seq![TaskView::DeleteIn(from, old_zone), TaskView::Create(to)] {
        let next = agenda::carried(from, deletion);
        assert(next + tasks.drop_first() =~= next + seq![TaskView::Create(to)]);
    } else if tasks =~= agenda::carried(from, deletion) + seq![TaskView::Create(to)] {
        if deletion.len() > 0 {
            assert(tasks[0] == agenda::carried(from, deletion)[0]);
        }
        assert(tasks =~= seq![TaskView::Create(to)]);
        let next = seq![TaskView::CreateIn(to, zone)];
        assert(next + tasks.drop_first() =~= next);
    } else if tasks =~= seq![TaskView::CreateIn(to, zone)] {
        let next = agenda::carried(to, creation);
        assert(next + tasks.drop_first() =~= next);
    } else {
        assert(tasks[0] == agenda::carried(to, creation)[0]);
    }
}

/// A change that is on its way goes on with the next of its tasks.
proof fn way_goes_on(
    p: Policy,
    zones: Seq<Seq<char>>,
    held: Map<Seq<char>, Seq<RecordView>>,
    c: ChangesView,
    slot: Slot,
    tasks: Seq<TaskView>,
)
    requires
        feasible(p, zones, c),
        all_distinct(held),
        heads(c, slot),
        under_way(zones, held, c, slot, tasks),
        tasks.len() > 0,
        !(tasks[0] is Carry),
    ensures
        tasks[0].needs_domains() || tasks[0].needs_records() is Some,
        led(p, zones, held, c, tasks[0]) matches Ok(next) && under_way(
            zones,
            held,
            c,
            slot,
            next + tasks.drop_first(),
        ),
{
    let e = agenda::endpoint_at(c, slot);
    let zone = zone_for(zones, e);
    endpoint_is_placed(p, zones, c, slot);
    match slot {
        Slot::Delete(i) => {
            let next = agenda::carried(slot, plan::deletion(held[zone], zone, e));
            if tasks =~= seq![TaskView::DeleteIn(slot, zone)] {
                assert(next + tasks.drop_first() =~= next);
            } else {
                assert(tasks[0] == next[0]);
            }
        },
        Slot::Create(i) => {
            let next = agenda::carried(slot, plan::creation(held[zone], zone, e, prio_for(e)));
            if tasks =~= seq![TaskView::CreateIn(slot, zone)] {
                assert(next + tasks.drop_first() =~= next);
            } else {
                assert(tasks[0] == next[0]);
            }
        },
        Slot::UpdateNew(i) => {
            let old_zone = zone_for(zones, c.update_old[i as int]);
            if tasks =~= seq![TaskView::UpdateFrom(i, old_zone)] {
                let next = led(p, zones, held, c, tasks[0])->Ok_0;
                assert(next + tasks.drop_first() =~= next);
            } else if in_place(zones, c, i) {
                updating_goes_on(p, zones, held, c, i, tasks);
            } else {
                moving_goes_on(p, zones, held, c, i, tasks);
            }
        },
        _ => {},
    }
}

proof fn carried_go_on(slot: Slot, left: Seq<MutationView>, tail: Seq<TaskView>)
    requires
        left.len() > 0,
    ensures
        (agenda::carried(slot, left) + tail)[0] == TaskView::Carry(slot, left[0]),
        (agenda::carried(slot, left) + tail).drop_first() =~= agenda::carried(
            slot,
            left.drop_first(),
        ) + tail,
        agenda::carried(slot, left).drop_first() =~= agenda::carried(slot, left.drop_first()),
{
}

/// The first removal of a deletion touches only records of the endpoint, and leaves the rest
/// of the deletion to do.
proof fn deletion_goes_on(
    zone: Seq<char>,
    e: EndpointView,
    before: Seq<RecordView>,
    after: Seq<RecordView>,
)
    requires
        laws::distinct_ids(before),
        plan::deletion(before, zone, e).len() > 0,
        laws::serves(zone, plan::deletion(before, zone, e)[0], before, after),
    ensures
        plan::deletion(before, zone, e)[0] is Remove,
        concerns(zone, e, plan::deletion(before, zone, e)[0], before),
        plan::deletion(after, zone, e) == plan::deletion(before, zone, e).drop_first(),
{
    let m = plan::deletion(before, zone, e)[0];
    laws::deletion_is_exact(before, zone, e, m);
    assert(plan::deletion(before, zone, e).contains(m));
    let i = choose|i: int|
        0 <= i < before.len() && rules::belongs(zone, e, #[trigger] before[i]) && plan::listed(
            e.targets,
            before[i].content,
            e.record_type,
        ) && m == (MutationView::Remove { zone, id: before[i].id });
    only_one_has_id(before, zone, e, i);
    laws::deletion_step(zone, e, before, after);
}

/// The first addition for targets touches only records of the endpoint, and leaves the rest
/// of the additions to do.
proof fn additions_go_on(
    zone: Seq<char>,
    e: EndpointView,
    prio: Option<u32>,
    targets: Seq<Seq<char>>,
    before: Seq<RecordView>,
    after: Seq<RecordView>,
) -> (t: Seq<char>)
    requires
        laws::canonical(zone),
        laws::well_named(e.dns_name, zone),
        forall|t: Seq<char>| #[trigger] targets.contains(t) ==> e.targets.contains(t),
        plan::additions(
            before,
            zone,
            e,
            prio,
            plan::distinct(targets, e.record_type),
        ).len() > 0,
        laws::serves(
            zone,
            plan::additions(before, zone, e, prio, plan::distinct(targets, e.record_type))[0],
            before,
            after,
        ),
    ensures
        concerns(
            zone,
            e,
            plan::additions(before, zone, e, prio, plan::distinct(targets, e.record_type))[0],
            before,
        ),
        plan::additions(after, zone, e, prio, plan::distinct(targets, e.record_type))
            == plan::additions(
            before,
            zone,
            e,
            prio,
            plan::distinct(targets, e.record_type),
        ).drop_first(),
        targets.contains(t),
        plan::additions(before, zone, e, prio, plan::distinct(targets, e.record_type))[0] == (
        MutationView::Add { zone, params: plan::wanted(zone, e, prio, t) }),
{
    let t = laws::first_addition(before, zone, e, prio, targets);
    wanted_is_claimed(zone, e, prio, t);
    laws::additions_step(zone, e, prio, targets, before, after);
    t
}

/// A mutation of an update in place touches only its records, and leaves the rest of the
/// update on its way.
proof fn updating_proceeds(
    p: Policy,
    zones: Seq<Seq<char>>,
    before: Map<Seq<char>, Seq<RecordView>>,
    after: Map<Seq<char>, Seq<RecordView>>,
    c: ChangesView,
    i: usize,
    tasks: Seq<TaskView>,
) -> (at: Slot)
    requires
        feasible(p, zones, c),
        all_distinct(before),
        agenda::has_slot(c, Slot::UpdateNew(i)),
        in_place(zones, c, i),
        updating(zones, before, c, i, tasks),
        tasks.len() > 0,
        tasks[0] is Carry,
        served(tasks[0]->Carry_1, before, after),
    ensures
        at == Slot::UpdateOld(i) || at == Slot::UpdateNew(i),
        concerns(
            tasks[0]->Carry_1.zone(),
            agenda::endpoint_at(c, at),
            tasks[0]->Carry_1,
            before[tasks[0]->Carry_1.zone()],
        ),
        updating(zones, after, c, i, tasks.drop_first()),
{
    let from = Slot::UpdateOld(i);
    let to = Slot::UpdateNew(i);
    let old_endpoint = c.update_old[i as int];
    let new_endpoint = c.update_new[i as int];
    let zone = zone_for(zones, new_endpoint);
    let prio = prio_for(new_endpoint);
    let records = before[zone];
    let m = tasks[0]->Carry_1;
    endpoint_is_placed(p, zones, c, to);
    assert(laws::well_named(agenda::endpoint_at(c, to).dns_name, zone));
    assert(laws::distinct_ids(records));
    assert(laws::updates_in_place(zone, old_endpoint, new_endpoint));
    let additions = plan::update_additions(records, zone, old_endpoint, new_endpoint, prio);
    let tail = addition_after(c, i, zone);
    if exists|left: Seq<MutationView>| #[trigger]
        removing(records, zone, old_endpoint, new_endpoint, left) && tasks =~= agenda::carried(
            from,
            left,
        ) + seq![TaskView::Edit(i, zone)] {
        let left = choose|left: Seq<MutationView>| #[trigger]
            removing(records, zone, old_endpoint, new_endpoint, left) && tasks =~= agenda::carried(
                from,
                left,
            ) + seq![TaskView::Edit(i, zone)];
        carried_go_on(from, left, seq![TaskView::Edit(i, zone)]);
        assert(left[0] == m);
        removing_goes_on(zone, old_endpoint, new_endpoint, left, records, after[zone]);
        from
    } else if exists|left: Seq<MutationView>| #[trigger]
        editing(records, zone, old_endpoint, new_endpoint, prio, left) && tasks =~= agenda::carried(
            to,
            left,
        ) + tail {
        let left = choose|left: Seq<MutationView>| #[trigger]
            editing(records, zone, old_endpoint, new_endpoint, prio, left) && tasks
                =~= agenda::carried(to, left) + tail;
        carried_go_on(to, left, tail);
        assert(left[0] == m);
        assert(wanted_edit(zone, new_endpoint, prio, left[0]));
        let t = choose|t: Seq<char>| #[trigger]
            new_endpoint.targets.contains(t) && m->Edit_params == plan::wanted(
                zone,
                new_endpoint,
                prio,
                t,
            );
        wanted_is_claimed(zone, new_endpoint, prio, t);
        editing_goes_on(zone, old_endpoint, new_endpoint, prio, left, records, after[zone]);
        to
    } else {
        let common = plan::in_common(old_endpoint.targets, new_endpoint.record_type, false);
        let added = new_endpoint.targets.filter(common);
        carried_go_on(to, additions, Seq::empty());
        assert(tasks[0] == agenda::carried(to, additions)[0]);
        assert(additions[0] == m);
        conduct::plans_keep_to_zone(records, zone, old_endpoint, new_endpoint, prio);
        assert forall|t: Seq<char>| #[trigger]
            added.contains(t) implies new_endpoint.targets.contains(t) by {
            new_endpoint.targets.lemma_filter_contains_rev(common, t);
        }
        let t = additions_go_on(zone, new_endpoint, prio, added, records, after[zone]);
        assert forall|j: int| 0 <= j < after[zone].len() implies laws::left_alone(
            zone,
            old_endpoint,
            new_endpoint,
            prio,
            #[trigger] after[zone][j],
        ) by {
            if j < records.len() {
                assert(after[zone][j] == records[j]);
            } else {
                laws::wanted_is_left_alone(
                    zone,
                    old_endpoint,
                    new_endpoint,
                    prio,
                    t,
                    after[zone][j],
                );
            }
        }
        to
    }
}

/// A mutation of an update that moves touches only its records, and leaves the rest of the
/// update on its way.
proof fn moving_proceeds(
    p: Policy,
    zones: Seq<Seq<char>>,
    before: Map<Seq<char>, Seq<RecordView>>,
    after: Map<Seq<char>, Seq<RecordView>>,
    c: ChangesView,
    i: usize,
    tasks: Seq<TaskView>,
) -> (at: Slot)
    requires
        feasible(p, zones, c),
        all_distinct(before),
        agenda::has_slot(c, Slot::UpdateNew(i)),
        !in_place(zones, c, i),
        moving(zones, before, c, i, tasks),
        tasks.len() > 0,
        tasks[0] is Carry,
        served(tasks[0]->Carry_1, before, after),
    ensures
        at == Slot::UpdateOld(i) || at == Slot::UpdateNew(i),
        concerns(
            tasks[0]->Carry_1.zone(),
            agenda::endpoint_at(c, at),
            tasks[0]->Carry_1,
            before[tasks[0]->Carry_1.zone()],
        ),
        moving(zones, after, c, i, tasks.drop_first()),
{
    let from = Slot::UpdateOld(i);
    let to = Slot::UpdateNew(i);
    let old_endpoint = c.update_old[i as int];
    let new_endpoint = c.update_new[i as int];
    let old_zone = zone_for(zones, old_endpoint);
    let zone = zone_for(zones, new_endpoint);
    let prio = prio_for(new_endpoint);
    let m = tasks[0]->Carry_1;
    assert(agenda::has_slot(c, from));
    assert(agenda::endpoint_at(c, from) == old_endpoint);
    endpoint_is_placed(p, zones, c, to);
    assert(laws::well_named(agenda::endpoint_at(c, to).dns_name, zone));
    assert(laws::distinct_ids(before[old_zone]));
    let deletion = plan::deletion(before[old_zone], old_zone, old_endpoint);
    let creation = plan::creation(before[zone], zone, new_endpoint, prio);
    if tasks =~= agenda::carried(from, deletion) + seq![TaskView::Create(to)] {
        carried_go_on(from, deletion, seq![TaskView::Create(to)]);
        assert(deletion[0] == m);
        conduct::plans_keep_to_zone(before[old_zone], old_zone, old_endpoint, old_endpoint, prio);
        deletion_goes_on(old_zone, old_endpoint, before[old_zone], after[old_zone]);
        from
    } else {
        carried_go_on(to, creation, Seq::empty());
        assert(tasks[0] == agenda::carried(to, creation)[0]);
        assert(creation[0] == m);
        conduct::plans_keep_to_zone(before[zone], zone, old_endpoint, new_endpoint, prio);
        let t = additions_go_on(
            zone,
            new_endpoint,
            prio,
            new_endpoint.targets,
            before[zone],
            after[zone],
        );
        assert(apart(new_endpoint, old_endpoint));
        claims_are_kept(new_endpoint, old_endpoint, m, before, after);
        deletion_stays_done(old_zone, old_endpoint, before, after);
        to
    }
}

/// A mutation of a change touches only its records, and leaves the rest of the change on
/// its way.
proof fn way_proceeds(
    p: Policy,
    zones: Seq<Seq<char>>,
    before: Map<Seq<char>, Seq<RecordView>>,
    after: Map<Seq<char>, Seq<RecordView>>,
    c: ChangesView,
    slot: Slot,
    tasks: Seq<TaskView>,
) -> (at: Slot)
    requires
        feasible(p, zones, c),
        all_distinct(before),
        heads(c, slot),
        under_way(zones, before, c, slot, tasks),
        tasks.len() > 0,
        tasks[0] is Carry,
        served(tasks[0]->Carry_1, before, after),
    ensures
        agenda::has_slot(c, at),
        agenda::work_on(at) == agenda::work_on(slot),
        kind_fits(at, tasks[0]->Carry_1),
        concerns(
            tasks[0]->Carry_1.zone(),
            agenda::endpoint_at(c, at),
            tasks[0]->Carry_1,
            before[tasks[0]->Carry_1.zone()],
        ),
        under_way(zones, after, c, slot, tasks.drop_first()),
{
    let e = agenda::endpoint_at(c, slot);
    let zone = zone_for(zones, e);
    let prio = prio_for(e);
    let m = tasks[0]->Carry_1;
    endpoint_is_placed(p, zones, c, slot);
    assert(laws::distinct_ids(before[zone]));
    conduct::plans_keep_to_zone(before[zone], zone, e, e, prio);
    match slot {
        Slot::Delete(i) => {
            let deletion = plan::deletion(before[zone], zone, e);
            assert(tasks[0] == agenda::carried(slot, deletion)[0]);
            carried_go_on(slot, deletion, Seq::empty());
            assert(deletion[0] == m);
            deletion_goes_on(zone, e, before[zone], after[zone]);
            slot
        },
        Slot::Create(i) => {
            let creation = plan::creation(before[zone], zone, e, prio);
            assert(tasks[0] == agenda::carried(slot, creation)[0]);
            carried_go_on(slot, creation, Seq::empty());
            assert(creation[0] == m);
            let t = additions_go_on(zone, e, prio, e.targets, before[zone], after[zone]);
            slot
        },
        Slot::UpdateNew(i) => {
            if in_place(zones, c, i) {
                updating_proceeds(p, zones, before, after, c, i, tasks)
            } else {
                moving_proceeds(p, zones, before, after, c, i, tasks)
            }
        },
        _ => slot,
    }
}

/// The task is one that the work on a request begins with.
spec fn fresh(c: ChangesView, task: TaskView) -> bool {
    match task {
        TaskView::Check(slot) => agenda::has_slot(c, slot),
        TaskView::Delete(slot) => slot is Delete && agenda::has_slot(c, slot),
        TaskView::Create(slot) => slot is Create && agenda::has_slot(c, slot),
        TaskView::Update(i) => agenda::has_slot(c, Slot::UpdateNew(i)),
        _ => false,
    }
}

/// How far the work has come: the change that is on its way, the tasks that are left of it
/// or of a check, and the tasks that nothing was done about.
struct Stand {
    slot: Option<Slot>,
    tasks: Seq<TaskView>,
    rest: Seq<TaskView>,
}

/// The work stands so: each change calls for nothing, or is on its way, or is to come.
spec fn stands(
    zones: Seq<Seq<char>>,
    held: Map<Seq<char>, Seq<RecordView>>,
    run: RunView,
    at: Stand,
) -> bool {
    let c = run.changes;
    &&& run.agenda =~= at.tasks + at.rest
    &&& forall|zone: Seq<char>| #[trigger]
        run.cache.dom().contains(zone) ==> run.cache[zone] == held[zone]
    &&& forall|k: int| 0 <= k < at.rest.len() ==> fresh(c, #[trigger] at.rest[k])
    &&& match at.slot {
        Some(slot) => heads(c, slot) && under_way(zones, held, c, slot, at.tasks),
        None => at.tasks.len() == 0 || at.tasks.len() == 1 && at.tasks[0] is Locate
            && agenda::has_slot(c, at.tasks[0]->Locate_0),
    }
    &&& forall|slot: Slot| #[trigger]
        heads(c, slot) ==> at.slot == Some(slot) || at.rest.contains(agenda::work_on(slot)) || done(
            zones,
            held,
            c,
            slot,
        )
}

/// The work goes on with the next task, where that needs no mutation, and does not fail.
proof fn work_goes_on(
    p: Policy,
    zones: Seq<Seq<char>>,
    held: Map<Seq<char>, Seq<RecordView>>,
    run: RunView,
    at: Stand,
) -> (next: Stand)
    requires
        feasible(p, zones, run.changes),
        all_distinct(held),
        stands(zones, held, run, at),
        run.agenda.len() > 0,
        !(run.agenda[0] is Carry),
    ensures
        run.agenda[0] is Check || run.agenda[0].needs_domains() || run.agenda[0].needs_records()
            is Some,
        led(p, zones, held, run.changes, run.agenda[0]) matches Ok(tasks) && stands(
            zones,
            held,
            run.replace(tasks),
            next,
        ),
{
    let c = run.changes;
    let task = run.agenda[0];
    if at.tasks.len() > 0 {
        assert(task == at.tasks[0]);
        let tasks = led(p, zones, held, c, task)->Ok_0;
        let next = Stand { tasks: tasks + at.tasks.drop_first(), ..at };
        match at.slot {
            Some(slot) => {
                way_goes_on(p, zones, held, c, slot, at.tasks);
            },
            None => {
                endpoint_is_placed(p, zones, c, task->Locate_0);
            },
        }
        assert(run.replace(tasks).agenda =~= next.tasks + next.rest);
        next
    } else {
        assert(task == at.rest[0]);
        assert(fresh(c, at.rest[0]));
        if at.slot is Some {
            assert(at.tasks =~= Seq::empty());
            way_ends(p, zones, held, c, at.slot->0);
        }
        let rest = at.rest.drop_first();
        assert forall|slot: Slot|
            at.rest.contains(#[trigger] agenda::work_on(slot)) && agenda::work_on(slot)
                != task implies rest.contains(agenda::work_on(slot)) by {
            let k = choose|k: int| 0 <= k < at.rest.len() && at.rest[k] == agenda::work_on(slot);
            assert(rest[k - 1] == agenda::work_on(slot));
        }
        let on = match task {
            TaskView::Delete(slot) => Some(slot),
            TaskView::Create(slot) => Some(slot),
            TaskView::Update(i) => Some(Slot::UpdateNew(i)),
            _ => None,
        };
        match task {
            TaskView::Check(slot) => endpoint_is_placed(p, zones, c, slot),
            TaskView::Update(i) => {
                assert(agenda::has_slot(c, Slot::UpdateOld(i)));
                endpoint_is_placed(p, zones, c, Slot::UpdateOld(i));
            },
            _ => endpoint_is_placed(p, zones, c, on->0),
        }
        let tasks = led(p, zones, held, c, task)->Ok_0;
        let next = Stand { slot: on, tasks, rest };
        assert(run.replace(tasks).agenda =~= next.tasks + next.rest);
        assert forall|slot: Slot| #[trigger] heads(c, slot) implies next.slot == Some(slot)
            || next.rest.contains(agenda::work_on(slot)) || done(zones, held, c, slot) by {
            if agenda::work_on(slot) == task {
                assert(next.slot == Some(slot));
            }
        }
        next
    }
}

/// The work settles where it stands well, without a failure.
proof fn settles_well(
    p: Policy,
    zones: Seq<Seq<char>>,
    held: Map<Seq<char>, Seq<RecordView>>,
    run: RunView,
    at: Stand,
) -> (next: Stand)
    requires
        feasible(p, zones, run.changes),
        all_distinct(held),
        stands(zones, held, run, at),
    ensures
        agenda::settle(p, run).run.changes == run.changes,
        stands(zones, held, agenda::settle(p, run).run, next),
        agenda::settle(p, run).run.waits_for(agenda::settle(p, run).action),
        !(agenda::settle(p, run).action is DryRun),
        agenda::settle(p, run).action is Finish ==> agenda::settle(p, run).action
            == ApplyActionView::Finish(Ok(204)),
    decreases agenda::load_of(run.agenda),
{
    agenda::advance_falls(p, run);
    if run.agenda.len() > 0 && !(run.agenda[0] is Carry) {
        let task = run.agenda[0];
        let next = work_goes_on(p, zones, held, run, at);
        match agenda::advance(p, run) {
            Advance::Go(tasks) => {
                assert(led(p, zones, held, run.changes, task)->Ok_0 == tasks);
                settles_well(p, zones, held, run.replace(tasks), next)
            },
            Advance::Stop(step) => {
                assert(stands(zones, held, step.run, at));
                at
            },
        }
    } else {
        at
    }
}

/// From a moment at which the work stands well it gets to another.
proof fn moment_follows(
    p: Policy,
    zones: Seq<Seq<char>>,
    a: Moment,
    b: Moment,
    at: Stand,
) -> (next: Stand)
    requires
        feasible(p, zones, a.step.run.changes),
        all_distinct(a.held),
        stands(zones, a.held, a.step.run, at),
        a.step.run.waits_for(a.step.action),
        follows(p, zones, a, b),
        !(a.step.action is DryRun),
    ensures
        all_distinct(b.held),
        b.step.run.changes == a.step.run.changes,
        stands(zones, b.held, b.step.run, next),
        b.step.run.waits_for(b.step.action),
        !(b.step.action is DryRun),
        b.step.action is Finish ==> b.step.action == ApplyActionView::Finish(Ok(204)),
{
    let run = a.step.run;
    let c = run.changes;
    let task = run.agenda[0];
    match a.step.action {
        ApplyActionView::Mutate(m) => {
            assert(at.tasks.len() > 0) by {
                if at.tasks.len() == 0 {
                    assert(task == at.rest[0]);
                    assert(fresh(c, at.rest[0]));
                }
            }
            assert(task == at.tasks[0]);
            let slot = at.slot->0;
            let from = way_proceeds(p, zones, a.held, b.held, c, slot, at.tasks);
            let next = Stand { tasks: at.tasks.drop_first(), ..at };
            let left = RunView { cache: run.cache.remove(m.zone()), ..run }.replace(Seq::empty());
            assert(left.agenda =~= next.tasks + next.rest);
            assert forall|zone: Seq<char>| laws::distinct_ids(#[trigger] b.held[zone]) by {
                if zone != m.zone() {
                    assert(b.held[zone] == a.held[zone]);
                    assert(laws::distinct_ids(a.held[zone]));
                }
            }
            assert forall|other: Slot| #[trigger] heads(c, other) implies next.slot == Some(other)
                || next.rest.contains(agenda::work_on(other)) || done(
                zones,
                b.held,
                c,
                other,
            ) by {
                if other != slot && done(zones, a.held, c, other) {
                    assert(agenda::work_on(other) != agenda::work_on(slot));
                    done_is_kept(zones, a.held, b.held, c, other, from, m);
                }
            }
            assert(stands(zones, b.held, left, next));
            settles_well(p, zones, b.held, left, next)
        },
        ApplyActionView::ListRecords(zone) => {
            let listed = RunView { cache: run.cache.insert(zone, a.held[zone]), ..run };
            assert(stands(zones, a.held, listed, at));
            let next = work_goes_on(p, zones, a.held, listed, at);
            let tasks = led(p, zones, a.held, c, task)->Ok_0;
            settles_well(p, zones, a.held, listed.replace(tasks), next)
        },
        _ => {
            let next = work_goes_on(p, zones, a.held, run, at);
            let tasks = led(p, zones, a.held, c, task)->Ok_0;
            settles_well(p, zones, a.held, run.replace(tasks), next)
        },
    }
}

/// The checks and the work that a request begins with are fresh.
proof fn beginning_is_fresh(p: Policy, zones: Seq<Seq<char>>, c: ChangesView)
    requires
        feasible(p, zones, c),
    ensures
        forall|k: int|
            0 <= k < agenda::checks(c).len() ==> (#[trigger] agenda::checks(c)[k]) is Check
                && agenda::has_slot(c, agenda::checks(c)[k]->Check_0),
        forall|k: int| 0 <= k < agenda::works(c).len() ==> fresh(c, #[trigger] agenda::works(c)[k]),
        forall|slot: Slot| #[trigger]
            heads(c, slot) ==> agenda::works(c).contains(agenda::work_on(slot)),
{
    let works = agenda::works(c);
    let d = c.delete.len();
    let u = c.update_new.len();
    assert forall|slot: Slot| #[trigger] heads(c, slot) implies works.contains(
        agenda::work_on(slot),
    ) by {
        match slot {
            Slot::Delete(i) => assert(works[i as int] == agenda::work_on(slot)),
            Slot::UpdateNew(i) => assert(works[d + i] == agenda::work_on(slot)),
            Slot::Create(i) => assert(works[d + u + i] == agenda::work_on(slot)),
            _ => {},
        }
    }
}

/// At every moment of its course the work stands well.
proof fn stands_throughout(
    p: Policy,
    zones: Seq<Seq<char>>,
    c: ChangesView,
    moments: Seq<Moment>,
    k: int,
) -> (at: Stand)
    requires
        feasible(p, zones, c),
        course(p, zones, c, moments),
        0 <= k < moments.len(),
    ensures
        all_distinct(moments[k].held),
        moments[k].step.run.changes == c,
        stands(zones, moments[k].held, moments[k].step.run, at),
        moments[k].step.run.waits_for(moments[k].step.action),
        !(moments[k].step.action is DryRun),
        moments[k].step.action is Finish ==> moments[k].step.action == ApplyActionView::Finish(
            Ok(204),
        ),
    decreases k,
{
    if k == 0 {
        let held = moments[0].held;
        let run = RunView { changes: c, agenda: Seq::empty(), cache: Map::empty() };
        beginning_is_fresh(p, zones, c);
        let checks = agenda::checks(c);
        let works = agenda::works(c);
        let all = checks + works;
        let at = Stand { slot: None, tasks: Seq::empty(), rest: all };
        assert forall|j: int| 0 <= j < all.len() implies fresh(c, #[trigger] all[j]) by {
            if j < checks.len() {
                assert(all[j] == checks[j]);
            } else {
                assert(all[j] == works[j - checks.len()]);
            }
        }
        assert forall|slot: Slot| #[trigger] heads(c, slot) implies all.contains(
            agenda::work_on(slot),
        ) by {
            let j = choose|j: int| 0 <= j < works.len() && works[j] == agenda::work_on(slot);
            assert(all[checks.len() + j] == agenda::work_on(slot));
        }
        let begun = RunView { agenda: all, ..run };
        assert(begun.agenda =~= at.tasks + at.rest);
        if c.is_empty() {
            assert(all =~= Seq::empty());
            assert(stands(zones, held, run, at));
            at
        } else {
            settles_well(p, zones, held, begun, at)
        }
    } else {
        let at = stands_throughout(p, zones, c, moments, k - 1);
        assert(follows(p, zones, moments[k - 1], moments[k - 1 + 1]));
        moment_follows(p, zones, moments[k - 1], moments[k], at)
    }
}

/// A request whose changes do not touch each other's records leaves everything in place once
/// it is carried out, whatever the zones held when it began, as after an attempt that broke
/// off: it succeeds, all its changes call for nothing more, and the same request again asks
/// for domains and records only, mutates nothing and succeeds.
pub proof fn carried_out_request_is_done(
    p: Policy,
    zones: Seq<Seq<char>>,
    c: ChangesView,
    moments: Seq<Moment>,
)
    requires
        feasible(p, zones, c),
        course(p, zones, c, moments),
        moments.last().step.action is Finish,
    ensures
        moments.last().step.action == ApplyActionView::Finish(Ok(204)),
        retry::all_done(zones, moments.last().held, c),
        retry::only_reads(p, zones, moments.last().held, agenda::start(p, c)),
        retry::played_out(p, zones, moments.last().held, agenda::start(p, c)).action
            == ApplyActionView::Finish(Ok(204)),
{
    let last = moments.last();
    let held = last.held;
    let at = stands_throughout(p, zones, c, moments, moments.len() - 1);
    assert(at.tasks.len() + at.rest.len() == last.step.run.agenda.len());
    if at.slot is Some {
        assert(at.tasks =~= Seq::empty());
        way_ends(p, zones, held, c, at.slot->0);
    }
    assert forall|slot: Slot| #[trigger] heads(c, slot) implies done(zones, held, c, slot) by {}
    assert forall|i: int| 0 <= i < c.delete.len() implies retry::deletion_done(
        zones,
        held,
        #[trigger] c.delete[i],
    ) by {
        assert(heads(c, Slot::Delete(i as usize)));
    }
    assert forall|i: int| 0 <= i < c.update_new.len() implies retry::update_done(
        zones,
        held,
        #[trigger] c.update_old[i],
        #[trigger] c.update_new[i],
    ) by {
        assert(heads(c, Slot::UpdateNew(i as usize)));
    }
    assert forall|i: int| 0 <= i < c.create.len() implies retry::creation_done(
        zones,
        held,
        #[trigger] c.create[i],
    ) by {
        assert(heads(c, Slot::Create(i as usize)));
    }
    beginning_is_fresh(p, zones, c);
    retry::done_changes_do_nothing(p, zones, held, c);
}

/// At no moment of its course does such a request fail, and no two records of a zone come to
/// have the same id: at whichever moment it is broken off, the request can be asked for again.
pub proof fn course_does_not_fail(
    p: Policy,
    zones: Seq<Seq<char>>,
    c: ChangesView,
    moments: Seq<Moment>,
    k: int,
)
    requires
        feasible(p, zones, c),
        course(p, zones, c, moments),
        0 <= k < moments.len(),
    ensures
        !(moments[k].step.action matches ApplyActionView::Finish(Err(_))),
        all_distinct(moments[k].held),
{
    let at = stands_throughout(p, zones, c, moments, k);
}

/// The same request again, once it was carried out, mutates nothing at any moment of its
/// course, and leaves the zones as they are.
pub proof fn repeated_request_mutates_nothing(
    p: Policy,
    zones: Seq<Seq<char>>,
    c: ChangesView,
    moments: Seq<Moment>,
    again: Seq<Moment>,
    k: int,
)
    requires
        feasible(p, zones, c),
        course(p, zones, c, moments),
        moments.last().step.action is Finish,
        course(p, zones, c, again),
        again[0].held == moments.last().held,
        0 <= k < again.len(),
    ensures
        !(again[k].step.action is Mutate),
        again[k].held == moments.last().held,
        retry::only_reads(p, zones, again[k].held, again[k].step),
    decreases k,
{
    let held = moments.last().held;
    carried_out_request_is_done(p, zones, c, moments);
    if k > 0 {
        repeated_request_mutates_nothing(p, zones, c, moments, again, k - 1);
        assert(follows(p, zones, again[k - 1], again[k - 1 + 1]));
        beginning_is_fresh(p, zones, c);
        retry::done_changes_do_nothing(p, zones, held, c);
        assert(retry::only_reads(p, zones, held, again[k - 1].step));
    }
}

/// Nothing that the mutation leads to or from is a record that the endpoint does not claim.
proof fn unclaimed_is_left(
    zone: Seq<char>,
    e: EndpointView,
    m: MutationView,
    before: Seq<RecordView>,
    after: Seq<RecordView>,
    r: RecordView,
)
    requires
        !claims(zone, e, r),
        concerns(zone, e, m, before),
        laws::serves(zone, m, before, after),
    ensures
        after.contains(r) == before.contains(r),
{
    match m {
        MutationView::Add { zone: z, params } => {
            if before.contains(r) {
                let i = choose|i: int| 0 <= i < before.len() && before[i] == r;
                assert(after[i] == r);
            }
            if after.contains(r) {
                let i = choose|i: int| 0 <= i < after.len() && after[i] == r;
                assert(i < before.len());
                assert(before[i] == r);
            }
        },
        MutationView::Edit { zone: z, id, params } => {
            if before.contains(r) {
                let i = choose|i: int| 0 <= i < before.len() && before[i] == r;
                assert(after[i] == r);
            }
            if after.contains(r) {
                let i = choose|i: int| 0 <= i < after.len() && after[i] == r;
                assert(before[i] == r);
            }
        },
        MutationView::Remove { zone: z, id } => {
            let q = laws::other_than(id);
            if before.contains(r) {
                let i = choose|i: int| 0 <= i < before.len() && before[i] == r;
                before.lemma_filter_contains(q, i);
            }
            if after.contains(r) {
                before.lemma_filter_contains_rev(q, r);
            }
        },
    }
}

/// A record that no endpoint of the request claims is left as it is throughout.
pub proof fn bystanders_are_left(
    p: Policy,
    zones: Seq<Seq<char>>,
    c: ChangesView,
    moments: Seq<Moment>,
    k: int,
    zone: Seq<char>,
    r: RecordView,
)
    requires
        feasible(p, zones, c),
        course(p, zones, c, moments),
        0 <= k < moments.len(),
        forall|slot: Slot| #[trigger]
            agenda::has_slot(c, slot) ==> !claims(zone, agenda::endpoint_at(c, slot), r),
    ensures
        moments[k].held[zone].contains(r) <==> moments[0].held[zone].contains(r),
    decreases k,
{
    if k > 0 {
        bystanders_are_left(p, zones, c, moments, k - 1, zone, r);
        let a = moments[k - 1];
        let b = moments[k];
        assert(follows(p, zones, moments[k - 1], moments[k - 1 + 1]));
        let at = stands_throughout(p, zones, c, moments, k - 1);
        match a.step.action {
            ApplyActionView::Mutate(m) => {
                assert(at.tasks.len() > 0) by {
                    if at.tasks.len() == 0 {
                        assert(a.step.run.agenda[0] == at.rest[0]);
                        assert(fresh(c, at.rest[0]));
                    }
                }
                assert(a.step.run.agenda[0] == at.tasks[0]);
                let from = way_proceeds(p, zones, a.held, b.held, c, at.slot->0, at.tasks);
                let e = agenda::endpoint_at(c, from);
                if zone == m.zone() {
                    unclaimed_is_left(zone, e, m, a.held[zone], b.held[zone], r);
                } else {
                    assert(b.held[zone] == a.held[zone]);
                }
            },
            _ => {},
        }
    }
}

} // verus!

//! What holds of changes that are asked for again.
use crate::porkbun::types::RecordView;
use crate::text;
use crate::webhook::agenda;
use crate::webhook::agenda::{
    Advance, ApplyActionView, ApplyEventView, Policy, RunView, StepView, TaskView,
};
use crate::webhook::conduct;
use crate::webhook::plan;
use crate::webhook::rules;
use crate::webhook::types::{ChangesView, EndpointView};
use vstd::prelude::*;

verus! {

/// The endpoint's priority can be read, and to create the endpoint calls for nothing where
/// the zone holds these records.
pub open spec fn created_already(
    records: Seq<RecordView>,
    zone: Seq<char>,
    e: EndpointView,
) -> bool {
    rules::priority_of(e.provider_specific) matches Ok(prio) && plan::creation(
        records,
        zone,
        e,
        prio,
    ).len() == 0
}

/// The last part of an update calls for nothing.
pub open spec fn added_already(
    records: Seq<RecordView>,
    zone: Seq<char>,
    old_endpoint: EndpointView,
    new_endpoint: EndpointView,
) -> bool {
    rules::priority_of(new_endpoint.provider_specific) matches Ok(prio) && plan::update_additions(
        records,
        zone,
        old_endpoint,
        new_endpoint,
        prio,
    ).len() == 0
}

/// The last two parts of an update call for nothing.
pub open spec fn edited_already(
    records: Seq<RecordView>,
    zone: Seq<char>,
    old_endpoint: EndpointView,
    new_endpoint: EndpointView,
) -> bool {
    &&& rules::priority_of(new_endpoint.provider_specific) matches Ok(prio) && plan::update_edits(
        records,
        zone,
        old_endpoint,
        new_endpoint,
        prio,
    ).len() == 0
    &&& added_already(records, zone, old_endpoint, new_endpoint)
}

/// An update calls for nothing.
pub open spec fn updated_already(
    records: Seq<RecordView>,
    zone: Seq<char>,
    old_endpoint: EndpointView,
    new_endpoint: EndpointView,
) -> bool {
    &&& plan::update_removals(records, zone, old_endpoint, new_endpoint).len() == 0
    &&& edited_already(records, zone, old_endpoint, new_endpoint)
}

/// To delete the endpoint calls for nothing where the zones hold these records.
pub open spec fn deletion_done(
    zones: Seq<Seq<char>>,
    held: Map<Seq<char>, Seq<RecordView>>,
    e: EndpointView,
) -> bool {
    rules::zone_of(text::normalized(e.dns_name), zones) matches Some(zone) && plan::deletion(
        held[zone],
        zone,
        e,
    ).len() == 0
}

/// To create the endpoint calls for nothing where the zones hold these records.
pub open spec fn creation_done(
    zones: Seq<Seq<char>>,
    held: Map<Seq<char>, Seq<RecordView>>,
    e: EndpointView,
) -> bool {
    rules::zone_of(text::normalized(e.dns_name), zones) matches Some(zone) && created_already(
        held[zone],
        zone,
        e,
    )
}

/// The update, whose old zone is known, calls for nothing where the zones hold these records.
pub open spec fn update_done_from(
    zones: Seq<Seq<char>>,
    held: Map<Seq<char>, Seq<RecordView>>,
    old_zone: Seq<char>,
    old_endpoint: EndpointView,
    new_endpoint: EndpointView,
) -> bool {
    rules::zone_of(text::normalized(new_endpoint.dns_name), zones) matches Some(zone) && if agenda::stays(
        old_zone,
        zone,
        old_endpoint,
        new_endpoint,
    ) {
        updated_already(held[zone], zone, old_endpoint, new_endpoint)
    } else {
        deletion_done(zones, held, old_endpoint) && creation_done(zones, held, new_endpoint)
    }
}

/// The update calls for nothing where the zones hold these records.
pub open spec fn update_done(
    zones: Seq<Seq<char>>,
    held: Map<Seq<char>, Seq<RecordView>>,
    old_endpoint: EndpointView,
    new_endpoint: EndpointView,
) -> bool {
    rules::zone_of(text::normalized(old_endpoint.dns_name), zones) matches Some(zone) && update_done_from(
        zones,
        held,
        zone,
        old_endpoint,
        new_endpoint,
    )
}

/// The changes call for nothing where the zones hold these records: every endpoint to delete
/// is gone, every update is in place, and every endpoint to create is there.
pub open spec fn all_done(
    zones: Seq<Seq<char>>,
    held: Map<Seq<char>, Seq<RecordView>>,
    c: ChangesView,
) -> bool {
    &&& forall|i: int|
        0 <= i < c.delete.len() ==> deletion_done(zones, held, #[trigger] c.delete[i])
    &&& forall|i: int|
        0 <= i < c.update_new.len() ==> update_done(
            zones,
            held,
            #[trigger] c.update_old[i],
            #[trigger] c.update_new[i],
        )
    &&& forall|i: int|
        0 <= i < c.create.len() ==> creation_done(zones, held, #[trigger] c.create[i])
}

/// The zones are those that are managed: those of the filter, where there is one.
pub open spec fn manages(p: Policy, zones: Seq<Seq<char>>) -> bool {
    p.filter matches Some(filter) ==> filter == zones
}

/// The task finds nothing wrong and calls for nothing where the zones hold these records.
spec fn idle(
    p: Policy,
    zones: Seq<Seq<char>>,
    held: Map<Seq<char>, Seq<RecordView>>,
    c: ChangesView,
    task: TaskView,
) -> bool {
    match task {
        TaskView::Check(slot) => conduct::fault_among(
            p,
            zones,
            agenda::endpoint_at(c, slot),
        ) is None,
        TaskView::Locate(slot) => agenda::place_fault(
            p,
            zones,
            agenda::endpoint_at(c, slot),
        ) is None,
        TaskView::Delete(slot) => deletion_done(zones, held, agenda::endpoint_at(c, slot)),
        TaskView::DeleteIn(slot, zone) => plan::deletion(
            held[zone],
            zone,
            agenda::endpoint_at(c, slot),
        ).len() == 0,
        TaskView::Create(slot) => creation_done(zones, held, agenda::endpoint_at(c, slot)),
        TaskView::CreateIn(slot, zone) => created_already(
            held[zone],
            zone,
            agenda::endpoint_at(c, slot),
        ),
        TaskView::Update(i) => update_done(
            zones,
            held,
            c.update_old[i as int],
            c.update_new[i as int],
        ),
        TaskView::UpdateFrom(i, zone) => update_done_from(
            zones,
            held,
            zone,
            c.update_old[i as int],
            c.update_new[i as int],
        ),
        TaskView::Remove(i, zone) => updated_already(
            held[zone],
            zone,
            c.update_old[i as int],
            c.update_new[i as int],
        ),
        TaskView::Edit(i, zone) => edited_already(
            held[zone],
            zone,
            c.update_old[i as int],
            c.update_new[i as int],
        ),
        TaskView::Add(i, zone) => added_already(
            held[zone],
            zone,
            c.update_old[i as int],
            c.update_new[i as int],
        ),
        _ => false,
    }
}

/// No task calls for anything, and what was listed is what the zones hold.
pub closed spec fn at_rest(
    p: Policy,
    zones: Seq<Seq<char>>,
    held: Map<Seq<char>, Seq<RecordView>>,
    run: RunView,
) -> bool {
    &&& forall|k: int|
        0 <= k < run.agenda.len() ==> idle(p, zones, held, run.changes, #[trigger] run.agenda[k])
    &&& forall|zone: Seq<char>| #[trigger]
        run.cache.dom().contains(zone) ==> run.cache[zone] == held[zone]
}

/// The work needs nothing but the managed domains or records, or has succeeded.
pub open spec fn only_reads(
    p: Policy,
    zones: Seq<Seq<char>>,
    held: Map<Seq<char>, Seq<RecordView>>,
    step: StepView,
) -> bool {
    &&& at_rest(p, zones, held, step.run)
    &&& step.run.waits_for(step.action)
    &&& reads(step.action) || step.action == ApplyActionView::Finish(Ok(204))
}

/// The action asks for the managed domains or for records.
pub open spec fn reads(action: ApplyActionView) -> bool {
    action is ManagedDomains || action is ListRecords
}

proof fn rest_is_kept(
    p: Policy,
    zones: Seq<Seq<char>>,
    held: Map<Seq<char>, Seq<RecordView>>,
    run: RunView,
    tasks: Seq<TaskView>,
)
    requires
        run.agenda.len() > 0,
        at_rest(p, zones, held, run),
        forall|k: int|
            0 <= k < tasks.len() ==> idle(p, zones, held, run.changes, #[trigger] tasks[k]),
    ensures
        at_rest(p, zones, held, run.replace(tasks)),
{
    let all = run.replace(tasks).agenda;
    assert forall|k: int| 0 <= k < all.len() implies idle(
        p,
        zones,
        held,
        run.changes,
        #[trigger] all[k],
    ) by {
        if k >= tasks.len() {
            assert(all[k] == run.agenda[k - tasks.len() + 1]);
        }
    }
}

/// What takes the place of an idle task is idle.
proof fn idle_leads_to_idle(
    p: Policy,
    zones: Seq<Seq<char>>,
    held: Map<Seq<char>, Seq<RecordView>>,
    c: ChangesView,
    task: TaskView,
)
    requires
        manages(p, zones),
        idle(p, zones, held, c, task),
    ensures
        task matches TaskView::Check(slot) ==> agenda::shape_fault(agenda::endpoint_at(c, slot))
            is None && idle(p, zones, held, c, TaskView::Locate(slot)),
        task.needs_domains() ==> (agenda::with_domains(p, c, task, zones) matches Ok(tasks)
            && forall|k: int|
            0 <= k < tasks.len() ==> idle(p, zones, held, c, #[trigger] tasks[k])),
        task.needs_records() matches Some(zone) ==> (agenda::with_records(c, task, held[zone])
            matches Ok(tasks) && (forall|k: int|
            0 <= k < tasks.len() ==> idle(p, zones, held, c, #[trigger] tasks[k])) && (task is Add
            ==> tasks.len() == 0)),
        task is Check || task.needs_domains() || task.needs_records() is Some,
{
}

/// Work at rest only reads.
proof fn settle_only_reads(
    p: Policy,
    zones: Seq<Seq<char>>,
    held: Map<Seq<char>, Seq<RecordView>>,
    run: RunView,
)
    requires
        manages(p, zones),
        at_rest(p, zones, held, run),
    ensures
        only_reads(p, zones, held, agenda::settle(p, run)),
    decreases agenda::load_of(run.agenda),
{
    agenda::advance_falls(p, run);
    if run.agenda.len() > 0 {
        assert(idle(p, zones, held, run.changes, run.agenda[0]));
        idle_leads_to_idle(p, zones, held, run.changes, run.agenda[0]);
    }
    match agenda::advance(p, run) {
        Advance::Go(tasks) => {
            rest_is_kept(p, zones, held, run, tasks);
            settle_only_reads(p, zones, held, run.replace(tasks));
        },
        Advance::Stop(step) => {
            assert(step.run.agenda == run.agenda);
            assert(at_rest(p, zones, held, step.run));
        },
    }
}

/// What comes of an action that reads, where these zones are managed and hold these records.
pub open spec fn reply_to(
    zones: Seq<Seq<char>>,
    held: Map<Seq<char>, Seq<RecordView>>,
    action: ApplyActionView,
) -> ApplyEventView {
    match action {
        ApplyActionView::ListRecords(zone) => ApplyEventView::Records(Ok(held[zone])),
        _ => ApplyEventView::Domains(Ok(zones)),
    }
}

/// The work goes on with what came of an action that reads.
pub open spec fn read_on(
    p: Policy,
    zones: Seq<Seq<char>>,
    held: Map<Seq<char>, Seq<RecordView>>,
    step: StepView,
) -> StepView {
    agenda::resume(p, step.run, reply_to(zones, held, step.action))
}

proof fn reading_only_reads(
    p: Policy,
    zones: Seq<Seq<char>>,
    held: Map<Seq<char>, Seq<RecordView>>,
    step: StepView,
)
    requires
        manages(p, zones),
        only_reads(p, zones, held, step),
        reads(step.action),
    ensures
        only_reads(p, zones, held, read_on(p, zones, held, step)),
        ({
            let after = read_on(p, zones, held, step).run.agenda;
            ||| agenda::load_of(after) < agenda::load_of(step.run.agenda)
            ||| agenda::load_of(after) == agenda::load_of(step.run.agenda) && after.len()
                < step.run.agenda.len()
        }),
{
    let run = step.run;
    let task = run.agenda[0];
    assert(idle(p, zones, held, run.changes, run.agenda[0]));
    idle_leads_to_idle(p, zones, held, run.changes, task);
    agenda::load_falls(p, run.changes, task);
    match step.action {
        ApplyActionView::ListRecords(zone) => {
            let listed = RunView { cache: run.cache.insert(zone, held[zone]), ..run };
            let tasks = agenda::with_records(run.changes, task, held[zone])->Ok_0;
            assert(at_rest(p, zones, held, listed)) by {
                assert forall|z: Seq<char>| #[trigger]
                    listed.cache.dom().contains(z) implies listed.cache[z] == held[z] by {
                    if z != zone {
                        assert(run.cache.dom().contains(z));
                    }
                }
            }
            rest_is_kept(p, zones, held, listed, tasks);
            settle_only_reads(p, zones, held, listed.replace(tasks));
            conduct::settle_does_not_grow(p, listed.replace(tasks));
            agenda::reply_lightens(run, tasks);
        },
        _ => {
            let tasks = agenda::with_domains(p, run.changes, task, zones)->Ok_0;
            rest_is_kept(p, zones, held, run, tasks);
            settle_only_reads(p, zones, held, run.replace(tasks));
            conduct::settle_does_not_grow(p, run.replace(tasks));
            agenda::reply_lightens(run, tasks);
        },
    }
}

/// The work goes on to its end, where these zones are managed and hold these records.
pub open spec fn played_out(
    p: Policy,
    zones: Seq<Seq<char>>,
    held: Map<Seq<char>, Seq<RecordView>>,
    step: StepView,
) -> StepView
    decreases agenda::load_of(step.run.agenda), step.run.agenda.len(),
    when manages(p, zones) && only_reads(p, zones, held, step)
    via played_out_decreases
{
    if reads(step.action) {
        played_out(p, zones, held, read_on(p, zones, held, step))
    } else {
        step
    }
}

#[via_fn]
proof fn played_out_decreases(
    p: Policy,
    zones: Seq<Seq<char>>,
    held: Map<Seq<char>, Seq<RecordView>>,
    step: StepView,
) {
    if reads(step.action) {
        reading_only_reads(p, zones, held, step);
    }
}

/// Work that only reads ends in success.
proof fn reading_ends_well(
    p: Policy,
    zones: Seq<Seq<char>>,
    held: Map<Seq<char>, Seq<RecordView>>,
    step: StepView,
)
    requires
        manages(p, zones),
        only_reads(p, zones, held, step),
    ensures
        played_out(p, zones, held, step).action == ApplyActionView::Finish(Ok(204)),
    decreases agenda::load_of(step.run.agenda), step.run.agenda.len(),
{
    if reads(step.action) {
        reading_only_reads(p, zones, held, step);
        reading_ends_well(p, zones, held, read_on(p, zones, held, step));
    }
}

/// A request whose changes are all in place already, as after it was carried out before,
/// changes nothing and succeeds: nothing but domains and records is asked for, and the work
/// ends with the status of success.
pub proof fn done_changes_do_nothing(
    p: Policy,
    zones: Seq<Seq<char>>,
    held: Map<Seq<char>, Seq<RecordView>>,
    c: ChangesView,
)
    requires
        manages(p, zones),
        c.update_old.len() == c.update_new.len(),
        forall|i: int|
            0 <= i < agenda::checks(c).len() ==> conduct::fault_among(
                p,
                zones,
                agenda::endpoint_at(c, (#[trigger] agenda::checks(c)[i])->Check_0),
            ) is None,
        all_done(zones, held, c),
    ensures
        only_reads(p, zones, held, agenda::start(p, c)),
        forall|step: StepView| #[trigger]
            only_reads(p, zones, held, step) && reads(step.action) ==> only_reads(
                p,
                zones,
                held,
                read_on(p, zones, held, step),
            ),
        played_out(p, zones, held, agenda::start(p, c)).action == ApplyActionView::Finish(Ok(204)),
{
    assert forall|step: StepView| #[trigger]
        only_reads(p, zones, held, step) && reads(step.action) implies only_reads(
        p,
        zones,
        held,
        read_on(p, zones, held, step),
    ) by {
        reading_only_reads(p, zones, held, step);
    }
    if !c.is_empty() {
        let checks = agenda::checks(c);
        let works = agenda::works(c);
        let all = checks + works;
        let run = RunView { changes: c, agenda: all, cache: Map::empty() };
        assert(forall|k: int| 0 <= k < checks.len() ==> (#[trigger] checks[k]) is Check);
        assert forall|k: int| 0 <= k < all.len() implies idle(
            p,
            zones,
            held,
            c,
            #[trigger] all[k],
        ) by {
            if k < checks.len() {
                assert(all[k] == checks[k]);
            } else {
                work_is_idle(p, zones, held, c, k - checks.len());
            }
        }
        settle_only_reads(p, zones, held, run);
    } else {
        assert(at_rest(p, zones, held, agenda::start(p, c).run));
    }
    reading_ends_well(p, zones, held, agenda::start(p, c));
}

proof fn work_is_idle(
    p: Policy,
    zones: Seq<Seq<char>>,
    held: Map<Seq<char>, Seq<RecordView>>,
    c: ChangesView,
    k: int,
)
    requires
        c.update_old.len() == c.update_new.len(),
        all_done(zones, held, c),
        0 <= k < agenda::works(c).len(),
    ensures
        idle(p, zones, held, c, agenda::works(c)[k]),
{
    let d = c.delete.len();
    let u = c.update_new.len();
    if k < d {
        assert(deletion_done(zones, held, c.delete[k]));
    } else if k < d + u {
        assert(update_done(zones, held, c.update_old[k - d], c.update_new[k - d]));
    } else {
        assert(creation_done(zones, held, c.create[k - d - u]));
    }
}

} // verus!

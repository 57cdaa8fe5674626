//! What holds of the work on changes, whatever the service replies.
use crate::error::ErrorView;
use crate::porkbun::types::RecordView;
use crate::text;
use crate::webhook::agenda;
use crate::webhook::agenda::{
    Advance, ApplyActionView, ApplyEventView, Policy, RunView, Slot, StepView, TaskView,
};
use crate::webhook::laws;
use crate::webhook::plan;
use crate::webhook::plan::MutationView;
use crate::webhook::rules;
use crate::webhook::types::{ChangesView, EndpointView};
use vstd::prelude::*;

verus! {

/// What the work stops with is what its next task needs; a dry run mutates nothing, and
/// where there is a filter no domains are asked for.
pub open spec fn well_conducted(p: Policy, step: StepView) -> bool {
    &&& step.run.waits_for(step.action)
    &&& p.dry_run ==> !(step.action is Mutate)
    &&& !p.dry_run ==> !(step.action is DryRun)
    &&& p.filter is Some ==> !(step.action is ManagedDomains)
}

/// Working off tasks stops well.
pub proof fn settle_is_well_conducted(p: Policy, run: RunView)
    ensures
        well_conducted(p, agenda::settle(p, run)),
        agenda::settle(p, run).run.changes == run.changes,
    decreases agenda::load_of(run.agenda),
{
    agenda::advance_falls(p, run);
    match agenda::advance(p, run) {
        Advance::Go(tasks) => settle_is_well_conducted(p, run.replace(tasks)),
        Advance::Stop(step) => {},
    }
}

/// At every point of the work on a request, a dry run mutates nothing, a run that is none
/// leaves nothing to a report, and where there is a filter no domains are asked for.
pub proof fn always_well_conducted(
    p: Policy,
    body: Result<ChangesView, Seq<char>>,
    run: RunView,
    event: ApplyEventView,
)
    ensures
        well_conducted(p, agenda::begin(p, body)),
        well_conducted(p, agenda::resume(p, run, event)),
{
    match body {
        Ok(c) => {
            settle_is_well_conducted(
                p,
                RunView {
                    changes: c,
                    agenda: agenda::checks(c) + agenda::works(c),
                    cache: Map::empty(),
                },
            );
        },
        Err(words) => {},
    }
    let task = run.agenda[0];
    match event {
        ApplyEventView::Domains(Ok(zones)) => match agenda::with_domains(
            p,
            run.changes,
            task,
            zones,
        ) {
            Err(x) => {},
            Ok(tasks) => settle_is_well_conducted(p, run.replace(tasks)),
        },
        ApplyEventView::Records(Ok(records)) => {
            let listed = RunView {
                cache: run.cache.insert(task.needs_records()->0, records),
                ..run
            };
            match agenda::with_records(run.changes, task, records) {
                Err(x) => {},
                Ok(tasks) => settle_is_well_conducted(p, listed.replace(tasks)),
            }
        },
        ApplyEventView::Mutated(Ok(_)) => settle_is_well_conducted(
            p,
            RunView { cache: run.cache.remove(task->Carry_1.zone()), ..run }.replace(Seq::empty()),
        ),
        ApplyEventView::Noted => settle_is_well_conducted(p, run.replace(Seq::empty())),
        _ => {},
    }
}

/// A failure that is reported ends the work with that failure.
pub proof fn failure_ends_work(p: Policy, run: RunView, x: ErrorView)
    ensures
        agenda::resume(p, run, ApplyEventView::Domains(Err(x))) == run.fail(x),
        agenda::resume(p, run, ApplyEventView::Records(Err(x))) == run.fail(x),
        agenda::resume(p, run, ApplyEventView::Mutated(Err(x))) == run.fail(x),
        run.fail(x).action == ApplyActionView::Finish(Err(x)),
{
}

/// The zone that a task works on, where it is known.
pub open spec fn zone_in(task: TaskView) -> Option<Seq<char>> {
    match task {
        TaskView::UpdateFrom(i, zone) => Some(zone),
        TaskView::Carry(slot, m) => Some(m.zone()),
        _ => task.needs_records(),
    }
}

/// The zone that an action is about, if it is about one.
pub open spec fn zone_of_action(action: ApplyActionView) -> Option<Seq<char>> {
    match action {
        ApplyActionView::ListRecords(zone) => Some(zone),
        ApplyActionView::Mutate(m) => Some(m.zone()),
        ApplyActionView::DryRun(m) => Some(m.zone()),
        _ => None,
    }
}

/// The task works on none but these zones.
pub open spec fn keeps_to(zones: Seq<Seq<char>>, task: TaskView) -> bool {
    zone_in(task) matches Some(zone) ==> zones.contains(zone)
}

/// All tasks work on none but these zones.
pub open spec fn all_keep_to(zones: Seq<Seq<char>>, tasks: Seq<TaskView>) -> bool {
    forall|k: int| 0 <= k < tasks.len() ==> keeps_to(zones, #[trigger] tasks[k])
}

/// All mutations are of this zone.
pub open spec fn all_of_zone(zone: Seq<char>, mutations: Seq<MutationView>) -> bool {
    forall|k: int| 0 <= k < mutations.len() ==> (#[trigger] mutations[k]).zone() == zone
}

/// A plan mutates no other zone than the one that it is made for.
pub proof fn plans_keep_to_zone(
    records: Seq<RecordView>,
    zone: Seq<char>,
    old_endpoint: EndpointView,
    new_endpoint: EndpointView,
    prio: Option<u32>,
)
    ensures
        all_of_zone(zone, plan::creation(records, zone, new_endpoint, prio)),
        all_of_zone(zone, plan::deletion(records, zone, new_endpoint)),
        all_of_zone(zone, plan::update_removals(records, zone, old_endpoint, new_endpoint)),
        all_of_zone(zone, plan::update_edits(records, zone, old_endpoint, new_endpoint, prio)),
        all_of_zone(zone, plan::update_additions(records, zone, old_endpoint, new_endpoint, prio)),
{
    let some = plan::matching(records, zone, new_endpoint);
    additions_keep_to_zone(
        some,
        zone,
        new_endpoint,
        prio,
        plan::distinct(new_endpoint.targets, new_endpoint.record_type),
    );
    additions_keep_to_zone(
        some,
        zone,
        new_endpoint,
        prio,
        plan::added_targets(old_endpoint, new_endpoint),
    );
    let deletion = plan::deletion(records, zone, new_endpoint);
    assert forall|k: int| 0 <= k < deletion.len() implies (#[trigger] deletion[k]).zone()
        == zone by {
        assert(deletion.contains(deletion[k]));
        laws::deletion_is_exact(records, zone, new_endpoint, deletion[k]);
    }
    let removals = plan::update_removals(records, zone, old_endpoint, new_endpoint);
    assert forall|k: int| 0 <= k < removals.len() implies (#[trigger] removals[k]).zone()
        == zone by {
        assert(removals.contains(removals[k]));
        laws::update_removals_are_exact(records, zone, old_endpoint, new_endpoint, removals[k]);
    }
    let edits = plan::update_edits(records, zone, old_endpoint, new_endpoint, prio);
    assert forall|k: int| 0 <= k < edits.len() implies (#[trigger] edits[k]).zone() == zone by {
        assert(edits.contains(edits[k]));
        laws::update_edits_are_exact(records, zone, old_endpoint, new_endpoint, prio);
    }
}

proof fn additions_keep_to_zone(
    existing: Seq<RecordView>,
    zone: Seq<char>,
    e: EndpointView,
    prio: Option<u32>,
    targets: Seq<Seq<char>>,
)
    ensures
        all_of_zone(zone, targets.filter_map(plan::addition(existing, zone, e, prio))),
{
    let f = plan::addition(existing, zone, e, prio);
    let whole = targets.filter_map(f);
    assert forall|k: int| 0 <= k < whole.len() implies (#[trigger] whole[k]).zone() == zone by {
        assert(whole.contains(whole[k]));
        targets.lemma_filter_map_contains(f, whole[k]);
    }
}

/// What takes the place of a task that keeps to zones keeps to them too.
proof fn zones_are_kept(p: Policy, c: ChangesView, task: TaskView, zones: Seq<Seq<char>>)
    requires
        keeps_to(zones, task),
    ensures
        agenda::with_domains(p, c, task, zones) matches Ok(tasks) ==> all_keep_to(zones, tasks),
        forall|records: Seq<RecordView>| #[trigger]
            agenda::with_records(c, task, records) matches Ok(tasks) ==> all_keep_to(zones, tasks),
{
    match task {
        TaskView::Locate(slot) => {},
        TaskView::Delete(slot) => rules::zone_of_is_longest(
            text::normalized(agenda::endpoint_at(c, slot).dns_name),
            zones,
        ),
        TaskView::Create(slot) => rules::zone_of_is_longest(
            text::normalized(agenda::endpoint_at(c, slot).dns_name),
            zones,
        ),
        TaskView::Update(i) => rules::zone_of_is_longest(
            text::normalized(c.update_old[i as int].dns_name),
            zones,
        ),
        TaskView::UpdateFrom(i, zone) => rules::zone_of_is_longest(
            text::normalized(c.update_new[i as int].dns_name),
            zones,
        ),
        _ => {},
    }
    assert forall|records: Seq<RecordView>|
        agenda::with_records(c, task, records) is Ok implies all_keep_to(
        zones,
        (#[trigger] agenda::with_records(c, task, records))->Ok_0,
    ) by {
        match task {
            TaskView::DeleteIn(slot, zone) => {
                let e = agenda::endpoint_at(c, slot);
                plans_keep_to_zone(records, zone, e, e, None);
            },
            TaskView::CreateIn(slot, zone) => {
                let e = agenda::endpoint_at(c, slot);
                let prio = rules::priority_of(e.provider_specific)->Ok_0;
                plans_keep_to_zone(records, zone, e, e, prio);
            },
            TaskView::Remove(i, zone) => {
                plans_keep_to_zone(
                    records,
                    zone,
                    c.update_old[i as int],
                    c.update_new[i as int],
                    None,
                );
            },
            TaskView::Edit(i, zone) => {
                let prio = rules::priority_of(c.update_new[i as int].provider_specific)->Ok_0;
                plans_keep_to_zone(
                    records,
                    zone,
                    c.update_old[i as int],
                    c.update_new[i as int],
                    prio,
                );
            },
            TaskView::Add(i, zone) => {
                let prio = rules::priority_of(c.update_new[i as int].provider_specific)->Ok_0;
                plans_keep_to_zone(
                    records,
                    zone,
                    c.update_old[i as int],
                    c.update_new[i as int],
                    prio,
                );
            },
            _ => {},
        }
    }
}

/// The work has kept to these zones and goes on to.
pub open spec fn stays_in(zones: Seq<Seq<char>>, step: StepView) -> bool {
    &&& all_keep_to(zones, step.run.agenda)
    &&& zone_of_action(step.action) matches Some(zone) ==> zones.contains(zone)
}

proof fn settle_stays_in(p: Policy, run: RunView, zones: Seq<Seq<char>>)
    requires
        p.filter == Some(zones),
        all_keep_to(zones, run.agenda),
    ensures
        stays_in(zones, agenda::settle(p, run)),
    decreases agenda::load_of(run.agenda),
{
    agenda::advance_falls(p, run);
    if run.agenda.len() > 0 {
        assert(keeps_to(zones, run.agenda[0]));
        zones_are_kept(p, run.changes, run.agenda[0], zones);
    }
    match agenda::advance(p, run) {
        Advance::Go(tasks) => settle_stays_in(p, run.replace(tasks), zones),
        Advance::Stop(step) => {},
    }
}

/// The filter is kept to: the work on a request starts, and goes on after every event,
/// without a task or an action on a zone that is not in the filter.
pub proof fn filter_is_kept_to(
    p: Policy,
    zones: Seq<Seq<char>>,
    body: Result<ChangesView, Seq<char>>,
    run: RunView,
    event: ApplyEventView,
)
    requires
        p.filter == Some(zones),
    ensures
        stays_in(zones, agenda::begin(p, body)),
        run.awaits(event) && !(event is Domains) && all_keep_to(zones, run.agenda) ==> stays_in(
            zones,
            agenda::resume(p, run, event),
        ),
{
    match body {
        Ok(c) => {
            let all = agenda::checks(c) + agenda::works(c);
            assert(all_keep_to(zones, all));
            settle_stays_in(p, RunView { changes: c, agenda: all, cache: Map::empty() }, zones);
        },
        Err(words) => {},
    }
    if run.awaits(event) && !(event is Domains) && all_keep_to(zones, run.agenda) {
        let task = run.agenda[0];
        zones_are_kept(p, run.changes, task, zones);
        match event {
            ApplyEventView::Records(Ok(records)) => {
                let listed = RunView {
                    cache: run.cache.insert(task.needs_records()->0, records),
                    ..run
                };
                match agenda::with_records(run.changes, task, records) {
                    Err(x) => {},
                    Ok(tasks) => settle_stays_in(p, listed.replace(tasks), zones),
                }
            },
            ApplyEventView::Mutated(Ok(_)) => settle_stays_in(
                p,
                RunView { cache: run.cache.remove(task->Carry_1.zone()), ..run }.replace(
                    Seq::empty(),
                ),
                zones,
            ),
            ApplyEventView::Noted => settle_stays_in(p, run.replace(Seq::empty()), zones),
            _ => {},
        }
    }
}

/// The part of the work that a task belongs to: checks, then deletions, updates and creations.
pub open spec fn phase(task: TaskView) -> int {
    match task {
        TaskView::Check(slot) => 0,
        TaskView::Locate(slot) => 0,
        TaskView::Delete(slot) => phase_of(slot),
        TaskView::DeleteIn(slot, zone) => phase_of(slot),
        TaskView::Create(slot) => phase_of(slot),
        TaskView::CreateIn(slot, zone) => phase_of(slot),
        TaskView::Carry(slot, m) => phase_of(slot),
        _ => 2,
    }
}

/// The part of the work that the changes of the endpoint at a place belong to.
pub open spec fn phase_of(slot: Slot) -> int {
    match slot {
        Slot::Delete(i) => 1,
        Slot::UpdateOld(i) => 2,
        Slot::UpdateNew(i) => 2,
        Slot::Create(i) => 3,
    }
}

/// The tasks stand in the order of the parts that they belong to.
pub open spec fn in_order(tasks: Seq<TaskView>) -> bool {
    forall|i: int, j: int|
        0 <= i < j < tasks.len() ==> phase(#[trigger] tasks[i]) <= phase(#[trigger] tasks[j])
}

proof fn phases_are_kept(p: Policy, c: ChangesView, task: TaskView)
    ensures
        forall|zones: Seq<Seq<char>>, k: int|
            #![trigger agenda::with_domains(p, c, task, zones)->Ok_0[k]]
            agenda::with_domains(p, c, task, zones) matches Ok(tasks) ==> 0 <= k < tasks.len()
                ==> phase(tasks[k]) == phase(task),
        forall|records: Seq<RecordView>, k: int|
            #![trigger agenda::with_records(c, task, records)->Ok_0[k]]
            agenda::with_records(c, task, records) matches Ok(tasks) ==> 0 <= k < tasks.len()
                ==> phase(tasks[k]) == phase(task),
{
}

proof fn order_is_kept(run: RunView, tasks: Seq<TaskView>)
    requires
        run.agenda.len() > 0,
        in_order(run.agenda),
        forall|k: int| 0 <= k < tasks.len() ==> phase(#[trigger] tasks[k]) == phase(run.agenda[0]),
    ensures
        in_order(run.replace(tasks).agenda),
{
    let rest = run.agenda.drop_first();
    let all = tasks + rest;
    assert forall|i: int, j: int| 0 <= i < j < all.len() implies phase(#[trigger] all[i]) <= phase(
        #[trigger] all[j],
    ) by {
        if i >= tasks.len() {
            assert(all[i] == run.agenda[i - tasks.len() + 1]);
        }
        if j >= tasks.len() {
            assert(all[j] == run.agenda[j - tasks.len() + 1]);
        }
    }
}

/// The tasks stand in order, and where records are listed or mutated no check is left.
pub open spec fn orderly(step: StepView) -> bool {
    &&& in_order(step.run.agenda)
    &&& zone_of_action(step.action) is Some ==> forall|k: int|
        0 <= k < step.run.agenda.len() ==> phase(#[trigger] step.run.agenda[k]) > 0
}

proof fn settle_is_orderly(p: Policy, run: RunView)
    requires
        in_order(run.agenda),
    ensures
        orderly(agenda::settle(p, run)),
    decreases agenda::load_of(run.agenda),
{
    agenda::advance_falls(p, run);
    match agenda::advance(p, run) {
        Advance::Go(tasks) => {
            phases_are_kept(p, run.changes, run.agenda[0]);
            order_is_kept(run, tasks);
            settle_is_orderly(p, run.replace(tasks));
        },
        Advance::Stop(step) => {
            if zone_of_action(step.action) is Some {
                assert forall|k: int| 0 <= k < step.run.agenda.len() implies phase(
                    #[trigger] step.run.agenda[k],
                ) > 0 by {
                    if k > 0 {
                        assert(phase(step.run.agenda[0]) <= phase(step.run.agenda[k]));
                    }
                }
            }
        },
    }
}

/// Nothing is listed or mutated before all endpoints are checked, and changes are carried
/// out in the order deletions, updates, creations, at every point of the work.
pub proof fn order_is_kept_to(
    p: Policy,
    body: Result<ChangesView, Seq<char>>,
    run: RunView,
    event: ApplyEventView,
)
    ensures
        orderly(agenda::begin(p, body)),
        run.awaits(event) && in_order(run.agenda) ==> orderly(agenda::resume(p, run, event)),
{
    match body {
        Ok(c) => {
            let checks = agenda::checks(c);
            let works = agenda::works(c);
            let all = checks + works;
            assert(forall|k: int| 0 <= k < checks.len() ==> phase(#[trigger] checks[k]) == 0);
            assert(in_order(works));
            assert forall|i: int, j: int| 0 <= i < j < all.len() implies phase(#[trigger] all[i])
                <= phase(#[trigger] all[j]) by {
                if i < checks.len() {
                    assert(phase(checks[i]) == 0);
                } else {
                    assert(phase(works[i - checks.len()]) <= phase(works[j - checks.len()]));
                }
            }
            settle_is_orderly(p, RunView { changes: c, agenda: all, cache: Map::empty() });
        },
        Err(words) => {},
    }
    if run.awaits(event) && in_order(run.agenda) {
        let task = run.agenda[0];
        phases_are_kept(p, run.changes, task);
        match event {
            ApplyEventView::Domains(Ok(zones)) => match agenda::with_domains(
                p,
                run.changes,
                task,
                zones,
            ) {
                Err(x) => {},
                Ok(tasks) => {
                    order_is_kept(run, tasks);
                    settle_is_orderly(p, run.replace(tasks));
                },
            },
            ApplyEventView::Records(Ok(records)) => {
                let listed = RunView {
                    cache: run.cache.insert(task.needs_records()->0, records),
                    ..run
                };
                match agenda::with_records(run.changes, task, records) {
                    Err(x) => {},
                    Ok(tasks) => {
                        order_is_kept(listed, tasks);
                        settle_is_orderly(p, listed.replace(tasks));
                    },
                }
            },
            ApplyEventView::Mutated(Ok(_)) => {
                let mutated = RunView { cache: run.cache.remove(task->Carry_1.zone()), ..run };
                order_is_kept(mutated, Seq::empty());
                settle_is_orderly(p, mutated.replace(Seq::empty()));
            },
            ApplyEventView::Noted => {
                order_is_kept(run, Seq::empty());
                settle_is_orderly(p, run.replace(Seq::empty()));
            },
            _ => {},
        }
    }
}

/// What is wrong with an endpoint, if anything is, where these zones are managed.
pub open spec fn fault_among(p: Policy, zones: Seq<Seq<char>>, e: EndpointView) -> Option<
    ErrorView,
> {
    match agenda::shape_fault(e) {
        Some(x) => Some(x),
        None => agenda::place_fault(p, zones, e),
    }
}

/// What is wrong with an endpoint, where the zones are those of a filter.
pub open spec fn fault_of(p: Policy, e: EndpointView) -> Option<ErrorView> {
    fault_among(p, p.filter->0, e)
}

/// Checks of endpoints with which nothing is wrong are worked off without a trace.
proof fn checks_pass(p: Policy, run: RunView, k: int)
    requires
        p.filter is Some,
        0 <= k <= run.agenda.len(),
        forall|i: int|
            0 <= i < k ==> (#[trigger] run.agenda[i]) is Check && fault_of(
                p,
                agenda::endpoint_at(run.changes, run.agenda[i]->Check_0),
            ) is None,
    ensures
        agenda::settle(p, run) == agenda::settle(p, RunView { agenda: run.agenda.skip(k), ..run }),
    decreases k,
{
    if k == 0 {
        assert(run.agenda.skip(0) =~= run.agenda);
    } else {
        let slot = run.agenda[0]->Check_0;
        let located = run.replace(seq![TaskView::Locate(slot)]);
        let passed = located.replace(Seq::empty());
        assert(agenda::advance(p, run) == Advance::Go(seq![TaskView::Locate(slot)]));
        assert(agenda::advance(p, located) == Advance::Go(Seq::empty()));
        assert(agenda::settle(p, run) == agenda::settle(p, located));
        assert(agenda::settle(p, located) == agenda::settle(p, passed));
        assert(passed.agenda =~= run.agenda.drop_first());
        assert forall|i: int| 0 <= i < k - 1 implies (#[trigger] passed.agenda[i]) is Check
            && fault_of(
            p,
            agenda::endpoint_at(passed.changes, passed.agenda[i]->Check_0),
        ) is None by {
            assert(passed.agenda[i] == run.agenda[i + 1]);
        }
        checks_pass(p, passed, k - 1);
        assert(passed.agenda.skip(k - 1) =~= run.agenda.skip(k));
    }
}

/// Where there is a filter, changes with an endpoint that something is wrong with are
/// refused at once with the first fault, in the order in which endpoints are checked, and
/// other changes go on to the work.
pub proof fn faults_are_refused_at_once(p: Policy, c: ChangesView, k: int)
    requires
        p.filter is Some,
        !c.is_empty(),
        c.update_old.len() == c.update_new.len(),
        0 <= k <= agenda::checks(c).len(),
        forall|i: int|
            0 <= i < k ==> fault_of(
                p,
                agenda::endpoint_at(c, (#[trigger] agenda::checks(c)[i])->Check_0),
            ) is None,
    ensures
        k < agenda::checks(c).len() ==> (fault_of(
            p,
            agenda::endpoint_at(c, agenda::checks(c)[k]->Check_0),
        ) matches Some(x) ==> agenda::start(p, c).action == ApplyActionView::Finish(Err(x))),
        k == agenda::checks(c).len() ==> agenda::start(p, c) == agenda::settle(
            p,
            RunView { changes: c, agenda: agenda::works(c), cache: Map::empty() },
        ),
{
    let checks = agenda::checks(c);
    let all = checks + agenda::works(c);
    let run = RunView { changes: c, agenda: all, cache: Map::empty() };
    assert(forall|i: int| 0 <= i < checks.len() ==> (#[trigger] checks[i]) is Check);
    assert forall|i: int| 0 <= i < k implies (#[trigger] run.agenda[i]) is Check && fault_of(
        p,
        agenda::endpoint_at(run.changes, run.agenda[i]->Check_0),
    ) is None by {
        assert(run.agenda[i] == checks[i]);
    }
    checks_pass(p, run, k);
    let left = RunView { agenda: all.skip(k), ..run };
    if k < checks.len() {
        assert(left.agenda[0] == checks[k]);
        let slot = checks[k]->Check_0;
        if agenda::shape_fault(agenda::endpoint_at(c, slot)) is None {
            let located = left.replace(seq![TaskView::Locate(slot)]);
            assert(agenda::advance(p, left) == Advance::Go(seq![TaskView::Locate(slot)]));
            assert(located.agenda[0] == TaskView::Locate(slot));
            assert(agenda::settle(p, left) == agenda::settle(p, located));
        }
    } else {
        assert(all.skip(k) =~= agenda::works(c));
    }
}

/// The measure of the work that is left does not grow while tasks are worked off.
pub proof fn settle_does_not_grow(p: Policy, run: RunView)
    ensures
        ({
            let after = agenda::settle(p, run).run.agenda;
            ||| agenda::load_of(after) < agenda::load_of(run.agenda)
            ||| after.len() == 0
            ||| after == run.agenda
        }),
    decreases agenda::load_of(run.agenda),
{
    agenda::advance_falls(p, run);
    match agenda::advance(p, run) {
        Advance::Go(tasks) => settle_does_not_grow(p, run.replace(tasks)),
        Advance::Stop(step) => {},
    }
}

/// The work goes on for as long as it needs the managed domains, and these are the zones.
pub open spec fn domains_told(p: Policy, zones: Seq<Seq<char>>, step: StepView) -> StepView
    decreases agenda::load_of(step.run.agenda),
    when step.run.waits_for(step.action)
    via domains_told_decreases
{
    if step.action is ManagedDomains {
        domains_told(p, zones, agenda::resume(p, step.run, ApplyEventView::Domains(Ok(zones))))
    } else {
        step
    }
}

#[via_fn]
proof fn domains_told_decreases(p: Policy, zones: Seq<Seq<char>>, step: StepView) {
    if step.action is ManagedDomains {
        telling_lightens(p, zones, step);
    }
}

proof fn telling_lightens(p: Policy, zones: Seq<Seq<char>>, step: StepView)
    requires
        step.run.waits_for(step.action),
        step.action is ManagedDomains,
    ensures
        ({
            let next = agenda::resume(p, step.run, ApplyEventView::Domains(Ok(zones)));
            &&& next.run.waits_for(next.action)
            &&& agenda::load_of(next.run.agenda) < agenda::load_of(step.run.agenda)
        }),
{
    let run = step.run;
    agenda::load_falls(p, run.changes, run.agenda[0]);
    match agenda::with_domains(p, run.changes, run.agenda[0], zones) {
        Err(x) => {
            agenda::load_of_first(run.agenda);
        },
        Ok(tasks) => {
            agenda::reply_lightens(run, tasks);
            settle_is_well_conducted(p, run.replace(tasks));
            settle_does_not_grow(p, run.replace(tasks));
        },
    }
}

proof fn checks_pass_when_told(p: Policy, zones: Seq<Seq<char>>, run: RunView, k: int)
    requires
        p.filter is None,
        0 <= k <= run.agenda.len(),
        forall|i: int|
            0 <= i < k ==> (#[trigger] run.agenda[i]) is Check && fault_among(
                p,
                zones,
                agenda::endpoint_at(run.changes, run.agenda[i]->Check_0),
            ) is None,
    ensures
        domains_told(p, zones, agenda::settle(p, run)) == domains_told(
            p,
            zones,
            agenda::settle(p, RunView { agenda: run.agenda.skip(k), ..run }),
        ),
    decreases k,
{
    if k == 0 {
        assert(run.agenda.skip(0) =~= run.agenda);
    } else {
        let slot = run.agenda[0]->Check_0;
        let located = run.replace(seq![TaskView::Locate(slot)]);
        let passed = located.replace(Seq::empty());
        let waiting = StepView { run: located, action: ApplyActionView::ManagedDomains };
        assert(agenda::advance(p, run) == Advance::Go(seq![TaskView::Locate(slot)]));
        assert(agenda::advance(p, located) == Advance::Stop(waiting));
        assert(agenda::settle(p, run) == agenda::settle(p, located));
        assert(agenda::settle(p, located) == waiting);
        assert(agenda::resume(p, located, ApplyEventView::Domains(Ok(zones))) == agenda::settle(
            p,
            passed,
        ));
        assert(located.agenda[0] == TaskView::Locate(slot));
        telling_lightens(p, zones, waiting);
        assert(domains_told(p, zones, waiting) == domains_told(
            p,
            zones,
            agenda::settle(p, passed),
        ));
        assert(passed.agenda =~= run.agenda.drop_first());
        assert forall|i: int| 0 <= i < k - 1 implies (#[trigger] passed.agenda[i]) is Check
            && fault_among(
            p,
            zones,
            agenda::endpoint_at(passed.changes, passed.agenda[i]->Check_0),
        ) is None by {
            assert(passed.agenda[i] == run.agenda[i + 1]);
        }
        checks_pass_when_told(p, zones, passed, k - 1);
        assert(passed.agenda.skip(k - 1) =~= run.agenda.skip(k));
    }
}

/// Without a filter, changes with an endpoint that something is wrong with are refused with
/// the first fault, in the order in which endpoints are checked, after nothing but the
/// managed domains was asked for, and other changes go on to the work.
pub proof fn faults_are_refused_once_domains_are_told(
    p: Policy,
    zones: Seq<Seq<char>>,
    c: ChangesView,
    k: int,
)
    requires
        p.filter is None,
        !c.is_empty(),
        c.update_old.len() == c.update_new.len(),
        0 <= k <= agenda::checks(c).len(),
        forall|i: int|
            0 <= i < k ==> fault_among(
                p,
                zones,
                agenda::endpoint_at(c, (#[trigger] agenda::checks(c)[i])->Check_0),
            ) is None,
    ensures
        k < agenda::checks(c).len() ==> (fault_among(
            p,
            zones,
            agenda::endpoint_at(c, agenda::checks(c)[k]->Check_0),
        ) matches Some(x) ==> domains_told(p, zones, agenda::start(p, c)).action
            == ApplyActionView::Finish(Err(x))),
        k == agenda::checks(c).len() ==> domains_told(p, zones, agenda::start(p, c))
            == domains_told(
            p,
            zones,
            agenda::settle(
                p,
                RunView { changes: c, agenda: agenda::works(c), cache: Map::empty() },
            ),
        ),
{
    let checks = agenda::checks(c);
    let all = checks + agenda::works(c);
    let run = RunView { changes: c, agenda: all, cache: Map::empty() };
    assert(forall|i: int| 0 <= i < checks.len() ==> (#[trigger] checks[i]) is Check);
    assert forall|i: int| 0 <= i < k implies (#[trigger] run.agenda[i]) is Check && fault_among(
        p,
        zones,
        agenda::endpoint_at(run.changes, run.agenda[i]->Check_0),
    ) is None by {
        assert(run.agenda[i] == checks[i]);
    }
    checks_pass_when_told(p, zones, run, k);
    let left = RunView { agenda: all.skip(k), ..run };
    if k < checks.len() {
        assert(left.agenda[0] == checks[k]);
        let slot = checks[k]->Check_0;
        match agenda::shape_fault(agenda::endpoint_at(c, slot)) {
            Some(x) => {
                assert(agenda::settle(p, left) == left.fail(x));
                assert(domains_told(p, zones, left.fail(x)) == left.fail(x));
            },
            None => {
                let located = left.replace(seq![TaskView::Locate(slot)]);
                let waiting = StepView { run: located, action: ApplyActionView::ManagedDomains };
                assert(agenda::advance(p, left) == Advance::Go(seq![TaskView::Locate(slot)]));
                assert(located.agenda[0] == TaskView::Locate(slot));
                assert(agenda::settle(p, left) == agenda::settle(p, located));
                assert(agenda::settle(p, located) == waiting);
                match agenda::place_fault(p, zones, agenda::endpoint_at(c, slot)) {
                    Some(x) => {
                        let told = agenda::resume(p, located, ApplyEventView::Domains(Ok(zones)));
                        assert(told == located.fail(x));
                        assert(domains_told(p, zones, told) == told);
                    },
                    None => {},
                }
            },
        }
    } else {
        assert(all.skip(k) =~= agenda::works(c));
    }
}

/// The action that a mutation becomes: it is carried out, or only reported in a dry run.
pub open spec fn action_for(p: Policy, m: MutationView) -> ApplyActionView {
    if p.dry_run {
        ApplyActionView::DryRun(m)
    } else {
        ApplyActionView::Mutate(m)
    }
}

/// The mutation was carried out, or reported in a dry run.
pub open spec fn success(p: Policy) -> ApplyEventView {
    if p.dry_run {
        ApplyEventView::Noted
    } else {
        ApplyEventView::Mutated(Ok(()))
    }
}

/// The work goes on after `k` mutations succeeded in turn.
pub open spec fn after_successes(p: Policy, run: RunView, k: int) -> StepView
    decreases k,
{
    if k <= 0 {
        agenda::settle(p, run)
    } else {
        agenda::resume(p, after_successes(p, run, k - 1).run, success(p))
    }
}

/// What is kept of listed records after the first `k` of the mutations: in a dry run all,
/// and otherwise nothing of the zones that were mutated.
pub open spec fn kept_after(
    p: Policy,
    listed: Map<Seq<char>, Seq<RecordView>>,
    mutations: Seq<MutationView>,
    k: int,
) -> Map<Seq<char>, Seq<RecordView>>
    decreases k,
{
    if k <= 0 || p.dry_run {
        listed
    } else {
        kept_after(p, listed, mutations, k - 1).remove(mutations[k - 1].zone())
    }
}

/// A plan is carried out mutation by mutation, in order and whole: after the first `k` of
/// its mutations succeeded the next one is asked for, and after all of them the work goes on
/// with the tasks that followed. Records of a zone that was mutated are listed anew.
pub proof fn plans_are_carried_out(
    p: Policy,
    run: RunView,
    slot: Slot,
    mutations: Seq<MutationView>,
    rest: Seq<TaskView>,
    k: int,
)
    requires
        run.agenda == agenda::carried(slot, mutations) + rest,
        0 <= k <= mutations.len(),
    ensures
        ({
            let left = RunView {
                agenda: agenda::carried(slot, mutations).skip(k) + rest,
                cache: kept_after(p, run.cache, mutations, k),
                ..run
            };
            &&& after_successes(p, run, k) == agenda::settle(p, left)
            &&& k < mutations.len() ==> after_successes(p, run, k) == (StepView {
                run: left,
                action: action_for(p, mutations[k]),
            })
            &&& k == mutations.len() ==> left.agenda == rest
        }),
    decreases k,
{
    let all = agenda::carried(slot, mutations);
    let left = RunView {
        agenda: all.skip(k) + rest,
        cache: kept_after(p, run.cache, mutations, k),
        ..run
    };
    if k == 0 {
        assert(all.skip(0) + rest =~= all + rest);
    } else {
        plans_are_carried_out(p, run, slot, mutations, rest, k - 1);
        let before = RunView {
            agenda: all.skip(k - 1) + rest,
            cache: kept_after(p, run.cache, mutations, k - 1),
            ..run
        };
        assert(before.agenda[0] == TaskView::Carry(slot, mutations[k - 1]));
        assert(before.agenda.drop_first() =~= all.skip(k) + rest);
        assert(Seq::<TaskView>::empty() + before.agenda.drop_first() =~= left.agenda);
    }
    if k < mutations.len() {
        assert(left.agenda[0] == TaskView::Carry(slot, mutations[k]));
    } else {
        assert(left.agenda =~= rest);
    }
}

} // verus!

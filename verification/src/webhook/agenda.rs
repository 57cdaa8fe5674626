//! The work on changes as an agenda of tasks.
//!
//! A task is worked off by other tasks, which take its place at the head of the agenda,
//! until one is met that needs something from outside: the managed domains, the records of
//! a zone, or a mutation. The work then stops with an action that says what is needed, and
//! goes on with the event that reports it.
use crate::config;
use crate::config::Config;
use crate::error::{Error, ErrorView};
use crate::number;
use crate::porkbun::types::{DnsRecord, RecordView};
use crate::text;
use crate::webhook::plan;
use crate::webhook::plan::{Mutation, MutationView};
use crate::webhook::rules;
use crate::webhook::types::{ChangesView, EndpointView};
use vstd::prelude::*;

verus! {

/// The settings that changes are carried out under.
pub struct Policy {
    pub filter: Option<Seq<Seq<char>>>,
    pub dry_run: bool,
}

impl Policy {
    /// The domain may be managed.
    pub open spec fn allows(self, domain: Seq<char>) -> bool {
        match self.filter {
            Some(filter) => config::in_some_zone(text::normalized(domain), filter),
            None => true,
        }
    }
}

/// The settings that a configuration holds.
pub open spec fn policy_of(c: Config) -> Policy {
    Policy { filter: c.domain_filter.deep_view(), dry_run: c.dry_run }
}

/// The place of an endpoint in the changes.
#[derive(Debug, Clone, Copy)]
pub enum Slot {
    Create(usize),
    UpdateOld(usize),
    UpdateNew(usize),
    Delete(usize),
}

/// The endpoint at a place in the changes.
pub open spec fn endpoint_at(c: ChangesView, slot: Slot) -> EndpointView {
    match slot {
        Slot::Create(i) => c.create[i as int],
        Slot::UpdateOld(i) => c.update_old[i as int],
        Slot::UpdateNew(i) => c.update_new[i as int],
        Slot::Delete(i) => c.delete[i as int],
    }
}

/// There is an endpoint at the place.
pub open spec fn has_slot(c: ChangesView, slot: Slot) -> bool {
    match slot {
        Slot::Create(i) => i < c.create.len(),
        Slot::UpdateOld(i) => i < c.update_old.len(),
        Slot::UpdateNew(i) => i < c.update_new.len(),
        Slot::Delete(i) => i < c.delete.len(),
    }
}

/// A step of the work on changes.
#[derive(Debug)]
pub enum Task {
    /// Check the endpoint's type and targets.
    Check(Slot),
    /// Check the endpoint's zone and priority.
    Locate(Slot),
    /// Delete the endpoint.
    Delete(Slot),
    /// Delete the endpoint, whose zone is known.
    DeleteIn(Slot, String),
    /// Create the endpoint.
    Create(Slot),
    /// Create the endpoint, whose zone is known.
    CreateIn(Slot, String),
    /// Carry out the update.
    Update(usize),
    /// Carry out the update; the zone of the old endpoint is known.
    UpdateFrom(usize, String),
    /// Remove the records with targets that the update drops.
    Remove(usize, String),
    /// Edit the records with targets that the update keeps.
    Edit(usize, String),
    /// Add records for the targets that the update adds.
    Add(usize, String),
    /// Carry out the mutation for the endpoint.
    Carry(Slot, Mutation),
}

/// A [`Task`] with its texts as sequences of characters.
pub enum TaskView {
    Check(Slot),
    Locate(Slot),
    Delete(Slot),
    DeleteIn(Slot, Seq<char>),
    Create(Slot),
    CreateIn(Slot, Seq<char>),
    Update(usize),
    UpdateFrom(usize, Seq<char>),
    Remove(usize, Seq<char>),
    Edit(usize, Seq<char>),
    Add(usize, Seq<char>),
    Carry(Slot, MutationView),
}

impl View for Task {
    type V = TaskView;

    open spec fn view(&self) -> TaskView {
        match *self {
            Task::Check(slot) => TaskView::Check(slot),
            Task::Locate(slot) => TaskView::Locate(slot),
            Task::Delete(slot) => TaskView::Delete(slot),
            Task::DeleteIn(slot, zone) => TaskView::DeleteIn(slot, zone@),
            Task::Create(slot) => TaskView::Create(slot),
            Task::CreateIn(slot, zone) => TaskView::CreateIn(slot, zone@),
            Task::Update(i) => TaskView::Update(i),
            Task::UpdateFrom(i, zone) => TaskView::UpdateFrom(i, zone@),
            Task::Remove(i, zone) => TaskView::Remove(i, zone@),
            Task::Edit(i, zone) => TaskView::Edit(i, zone@),
            Task::Add(i, zone) => TaskView::Add(i, zone@),
            Task::Carry(slot, m) => TaskView::Carry(slot, m@),
        }
    }
}

impl DeepView for Task {
    type V = TaskView;

    open spec fn deep_view(&self) -> TaskView {
        self@
    }
}

impl TaskView {
    /// The endpoints that the task is about are there.
    pub open spec fn wf(self, c: ChangesView) -> bool {
        match self {
            TaskView::Check(slot) => has_slot(c, slot),
            TaskView::Locate(slot) => has_slot(c, slot),
            TaskView::Delete(slot) => has_slot(c, slot),
            TaskView::DeleteIn(slot, zone) => has_slot(c, slot),
            TaskView::Create(slot) => has_slot(c, slot),
            TaskView::CreateIn(slot, zone) => has_slot(c, slot),
            TaskView::Update(i) => i < c.update_old.len() && i < c.update_new.len(),
            TaskView::UpdateFrom(i, zone) => i < c.update_old.len() && i < c.update_new.len(),
            TaskView::Remove(i, zone) => i < c.update_old.len() && i < c.update_new.len(),
            TaskView::Edit(i, zone) => i < c.update_old.len() && i < c.update_new.len(),
            TaskView::Add(i, zone) => i < c.update_old.len() && i < c.update_new.len(),
            TaskView::Carry(slot, m) => has_slot(c, slot),
        }
    }

    /// The managed domains are needed to work off the task.
    pub open spec fn needs_domains(self) -> bool {
        self is Locate || self is Delete || self is Create || self is Update || self is UpdateFrom
    }

    /// The records of this zone are needed to work off the task.
    pub open spec fn needs_records(self) -> Option<Seq<char>> {
        match self {
            TaskView::DeleteIn(slot, zone) => Some(zone),
            TaskView::CreateIn(slot, zone) => Some(zone),
            TaskView::Remove(i, zone) => Some(zone),
            TaskView::Edit(i, zone) => Some(zone),
            TaskView::Add(i, zone) => Some(zone),
            _ => None,
        }
    }

    /// How many times tasks can take the task's place before something is needed.
    pub open spec fn load(self) -> nat {
        match self {
            TaskView::Check(slot) => 2,
            TaskView::Locate(slot) => 1,
            TaskView::Delete(slot) => 2,
            TaskView::DeleteIn(slot, zone) => 1,
            TaskView::Create(slot) => 2,
            TaskView::CreateIn(slot, zone) => 1,
            TaskView::Update(i) => 6,
            TaskView::UpdateFrom(i, zone) => 5,
            TaskView::Remove(i, zone) => 2,
            TaskView::Edit(i, zone) => 1,
            TaskView::Add(i, zone) => 0,
            TaskView::Carry(slot, m) => 0,
        }
    }
}

/// The loads of all tasks together.
pub open spec fn load_of(agenda: Seq<TaskView>) -> nat
    decreases agenda.len(),
{
    if agenda.len() == 0 {
        0
    } else {
        agenda[0].load() + load_of(agenda.drop_first())
    }
}

proof fn load_of_sum(a: Seq<TaskView>, b: Seq<TaskView>)
    ensures
        load_of(a + b) == load_of(a) + load_of(b),
    decreases a.len(),
{
    if a.len() == 0 {
        assert(a + b =~= b);
    } else {
        load_of_sum(a.drop_first(), b);
        assert((a + b).drop_first() =~= a.drop_first() + b);
    }
}

/// Makes a task of a mutation for the endpoint at a place.
pub open spec fn carrying(slot: Slot) -> spec_fn(MutationView) -> TaskView {
    |m: MutationView| TaskView::Carry(slot, m)
}

/// The tasks that carry out a plan for the endpoint at a place.
pub open spec fn carried(slot: Slot, mutations: Seq<MutationView>) -> Seq<TaskView> {
    mutations.map_values(carrying(slot))
}

proof fn load_of_carried(slot: Slot, mutations: Seq<MutationView>)
    ensures
        load_of(carried(slot, mutations)) == 0,
    decreases mutations.len(),
{
    if mutations.len() > 0 {
        load_of_carried(slot, mutations.drop_first());
        assert(carried(slot, mutations).drop_first() =~= carried(slot, mutations.drop_first()));
    }
}

/// Some target is blank.
pub open spec fn has_blank(targets: Seq<Seq<char>>) -> bool {
    exists|i: int| 0 <= i < targets.len() && text::trimmed(#[trigger] targets[i]).len() == 0
}

/// What is wrong with the endpoint's type and targets, if anything is.
pub open spec fn shape_fault(e: EndpointView) -> Option<ErrorView> {
    if !rules::supported(e.record_type) {
        Some(ErrorView::InvalidRequest("Unsupported record type: "@ + e.record_type))
    } else if e.targets.len() == 0 {
        Some(ErrorView::InvalidRequest("No targets for endpoint "@ + e.dns_name))
    } else if has_blank(e.targets) {
        Some(ErrorView::InvalidRequest("Blank target in endpoint "@ + e.dns_name))
    } else {
        None
    }
}

/// What is wrong with the endpoint's zone and priority, if anything is.
pub open spec fn place_fault(p: Policy, zones: Seq<Seq<char>>, e: EndpointView) -> Option<
    ErrorView,
> {
    match rules::resolved(p.filter is Some, zones, e.dns_name) {
        Err(x) => Some(x),
        Ok(zone) => if !p.allows(zone) {
            Some(ErrorView::DomainNotAllowed(zone))
        } else {
            match rules::priority_of(e.provider_specific) {
                Err(x) => Some(x),
                Ok(prio) => None,
            }
        },
    }
}

/// An update leaves the zone, the name and the type as they are.
pub open spec fn stays(
    old_zone: Seq<char>,
    new_zone: Seq<char>,
    old_endpoint: EndpointView,
    new_endpoint: EndpointView,
) -> bool {
    &&& old_zone == new_zone
    &&& text::normalized(old_endpoint.dns_name) == text::normalized(new_endpoint.dns_name)
    &&& old_endpoint.record_type == new_endpoint.record_type
}

/// What a task leads to once the managed domains are known: the tasks that take its place,
/// or a failure.
pub open spec fn with_domains(
    p: Policy,
    c: ChangesView,
    task: TaskView,
    zones: Seq<Seq<char>>,
) -> Result<Seq<TaskView>, ErrorView> {
    let filtered = p.filter is Some;
    match task {
        TaskView::Locate(slot) => match place_fault(p, zones, endpoint_at(c, slot)) {
            Some(x) => Err(x),
            None => Ok(Seq::empty()),
        },
        TaskView::Delete(slot) => match rules::resolved(
            filtered,
            zones,
            endpoint_at(c, slot).dns_name,
        ) {
            Err(x) => Err(x),
            Ok(zone) => Ok(seq![TaskView::DeleteIn(slot, zone)]),
        },
        TaskView::Create(slot) => match rules::resolved(
            filtered,
            zones,
            endpoint_at(c, slot).dns_name,
        ) {
            Err(x) => Err(x),
            Ok(zone) => Ok(seq![TaskView::CreateIn(slot, zone)]),
        },
        TaskView::Update(i) => match rules::resolved(
            filtered,
            zones,
            c.update_old[i as int].dns_name,
        ) {
            Err(x) => Err(x),
            Ok(zone) => Ok(seq![TaskView::UpdateFrom(i, zone)]),
        },
        TaskView::UpdateFrom(i, old_zone) => match rules::resolved(
            filtered,
            zones,
            c.update_new[i as int].dns_name,
        ) {
            Err(x) => Err(x),
            Ok(zone) => if stays(old_zone, zone, c.update_old[i as int], c.update_new[i as int]) {
                Ok(seq![TaskView::Remove(i, zone)])
            } else {
                Ok(seq![TaskView::Delete(Slot::UpdateOld(i)), TaskView::Create(Slot::UpdateNew(i))])
            },
        },
        _ => Ok(Seq::empty()),
    }
}

/// What a task leads to once the records of its zone are known: the tasks that take its
/// place, or a failure.
pub open spec fn with_records(c: ChangesView, task: TaskView, records: Seq<RecordView>) -> Result<
    Seq<TaskView>,
    ErrorView,
> {
    match task {
        TaskView::DeleteIn(slot, zone) => Ok(
            carried(slot, plan::deletion(records, zone, endpoint_at(c, slot))),
        ),
        TaskView::CreateIn(slot, zone) => match rules::priority_of(
            endpoint_at(c, slot).provider_specific,
        ) {
            Err(x) => Err(x),
            Ok(prio) => Ok(
                carried(slot, plan::creation(records, zone, endpoint_at(c, slot), prio)),
            ),
        },
        TaskView::Remove(i, zone) => match rules::priority_of(
            c.update_new[i as int].provider_specific,
        ) {
            Err(x) => Err(x),
            Ok(prio) => Ok(
                carried(
                    Slot::UpdateOld(i),
                    plan::update_removals(
                        records,
                        zone,
                        c.update_old[i as int],
                        c.update_new[i as int],
                    ),
                ) + seq![TaskView::Edit(i, zone)],
            ),
        },
        TaskView::Edit(i, zone) => match rules::priority_of(
            c.update_new[i as int].provider_specific,
        ) {
            Err(x) => Err(x),
            Ok(prio) => Ok(
                carried(
                    Slot::UpdateNew(i),
                    plan::update_edits(
                        records,
                        zone,
                        c.update_old[i as int],
                        c.update_new[i as int],
                        prio,
                    ),
                ) + if plan::added_targets(c.update_old[i as int], c.update_new[i as int]).len()
                    == 0 {
                    Seq::empty()
                } else {
                    seq![TaskView::Add(i, zone)]
                },
            ),
        },
        TaskView::Add(i, zone) => match rules::priority_of(
            c.update_new[i as int].provider_specific,
        ) {
            Err(x) => Err(x),
            Ok(prio) => Ok(
                carried(
                    Slot::UpdateNew(i),
                    plan::update_additions(
                        records,
                        zone,
                        c.update_old[i as int],
                        c.update_new[i as int],
                        prio,
                    ),
                ),
            ),
        },
        _ => Ok(Seq::empty()),
    }
}

/// What a run needs next.
#[derive(Debug)]
pub enum ApplyAction {
    /// The domains that are managed.
    ManagedDomains,
    /// The records of the zone, as the service holds them now.
    ListRecords(String),
    /// The mutation is to be carried out.
    Mutate(Mutation),
    /// The mutation is only to be reported.
    DryRun(Mutation),
    /// The run is over; a run that succeeds is answered with the status.
    Finish(Result<u16, Error>),
}

/// An [`ApplyAction`] with its texts as sequences of characters.
pub enum ApplyActionView {
    ManagedDomains,
    ListRecords(Seq<char>),
    Mutate(MutationView),
    DryRun(MutationView),
    Finish(Result<u16, ErrorView>),
}

impl View for ApplyAction {
    type V = ApplyActionView;

    open spec fn view(&self) -> ApplyActionView {
        match *self {
            ApplyAction::ManagedDomains => ApplyActionView::ManagedDomains,
            ApplyAction::ListRecords(zone) => ApplyActionView::ListRecords(zone@),
            ApplyAction::Mutate(m) => ApplyActionView::Mutate(m@),
            ApplyAction::DryRun(m) => ApplyActionView::DryRun(m@),
            ApplyAction::Finish(Ok(status)) => ApplyActionView::Finish(Ok(status)),
            ApplyAction::Finish(Err(e)) => ApplyActionView::Finish(Err(e@)),
        }
    }
}

/// What came of an action.
#[derive(Debug)]
pub enum ApplyEvent {
    /// The managed domains.
    Domains(Result<Vec<String>, Error>),
    /// The records of the zone.
    Records(Result<Vec<DnsRecord>, Error>),
    /// The mutation was carried out, or failed.
    Mutated(Result<(), Error>),
    /// The mutation was reported.
    Noted,
}

/// An [`ApplyEvent`] with its texts as sequences of characters.
pub enum ApplyEventView {
    Domains(Result<Seq<Seq<char>>, ErrorView>),
    Records(Result<Seq<RecordView>, ErrorView>),
    Mutated(Result<(), ErrorView>),
    Noted,
}

impl View for ApplyEvent {
    type V = ApplyEventView;

    open spec fn view(&self) -> ApplyEventView {
        match *self {
            ApplyEvent::Domains(Ok(zones)) => ApplyEventView::Domains(Ok(zones.deep_view())),
            ApplyEvent::Domains(Err(e)) => ApplyEventView::Domains(Err(e@)),
            ApplyEvent::Records(Ok(records)) => ApplyEventView::Records(Ok(records.deep_view())),
            ApplyEvent::Records(Err(e)) => ApplyEventView::Records(Err(e@)),
            ApplyEvent::Mutated(Ok(_)) => ApplyEventView::Mutated(Ok(())),
            ApplyEvent::Mutated(Err(e)) => ApplyEventView::Mutated(Err(e@)),
            ApplyEvent::Noted => ApplyEventView::Noted,
        }
    }
}

/// The state of the work on changes: the tasks that are left, the next one first, and the
/// records that were listed and not changed since.
pub struct RunView {
    pub changes: ChangesView,
    pub agenda: Seq<TaskView>,
    pub cache: Map<Seq<char>, Seq<RecordView>>,
}

/// A state with the action that it waits for.
pub struct StepView {
    pub run: RunView,
    pub action: ApplyActionView,
}

impl RunView {
    /// The endpoints that the tasks are about are there.
    pub open spec fn wf(self) -> bool {
        forall|k: int| 0 <= k < self.agenda.len() ==> (#[trigger] self.agenda[k]).wf(self.changes)
    }

    /// The state after tasks have taken the place of the next one.
    pub open spec fn replace(self, tasks: Seq<TaskView>) -> RunView {
        RunView { agenda: tasks + self.agenda.drop_first(), ..self }
    }

    /// The run ends with a failure; the tasks that are left are dropped.
    pub open spec fn fail(self, e: ErrorView) -> StepView {
        StepView {
            run: RunView { agenda: Seq::empty(), ..self },
            action: ApplyActionView::Finish(Err(e)),
        }
    }

    /// The action is what the next task needs, or there is no task left.
    pub open spec fn waits_for(self, action: ApplyActionView) -> bool {
        match action {
            ApplyActionView::ManagedDomains => self.agenda.len() > 0
                && self.agenda[0].needs_domains(),
            ApplyActionView::ListRecords(zone) => self.agenda.len() > 0
                && self.agenda[0].needs_records() == Some(zone),
            ApplyActionView::Mutate(m) => self.agenda.len() > 0 && self.agenda[0] is Carry
                && self.agenda[0]->Carry_1 == m,
            ApplyActionView::DryRun(m) => self.agenda.len() > 0 && self.agenda[0] is Carry
                && self.agenda[0]->Carry_1 == m,
            ApplyActionView::Finish(_) => self.agenda.len() == 0,
        }
    }

    /// The event reports what the next task needs.
    pub open spec fn awaits(self, event: ApplyEventView) -> bool {
        self.agenda.len() > 0 && match event {
            ApplyEventView::Domains(_) => self.agenda[0].needs_domains(),
            ApplyEventView::Records(_) => self.agenda[0].needs_records() is Some,
            ApplyEventView::Mutated(_) => self.agenda[0] is Carry,
            ApplyEventView::Noted => self.agenda[0] is Carry,
        }
    }
}

/// What the next task leads to without anything from outside.
pub enum Advance {
    /// Something is needed, or the work is over.
    Stop(StepView),
    /// The tasks take the place of the next one.
    Go(Seq<TaskView>),
}

/// The tasks take the place of the next one, or the work fails.
pub open spec fn go_on(run: RunView, led: Result<Seq<TaskView>, ErrorView>) -> Advance {
    match led {
        Ok(tasks) => Advance::Go(tasks),
        Err(x) => Advance::Stop(run.fail(x)),
    }
}

/// What the next task leads to: the filter answers for the managed domains, and the cache
/// for the records of a zone, save where they must be fresh.
pub open spec fn advance(p: Policy, run: RunView) -> Advance {
    if run.agenda.len() == 0 {
        Advance::Stop(StepView { run, action: ApplyActionView::Finish(Ok(204)) })
    } else {
        let task = run.agenda[0];
        match task {
            TaskView::Check(slot) => go_on(
                run,
                match shape_fault(endpoint_at(run.changes, slot)) {
                    Some(x) => Err(x),
                    None => Ok(seq![TaskView::Locate(slot)]),
                },
            ),
            TaskView::Carry(slot, m) => Advance::Stop(
                StepView {
                    run,
                    action: if p.dry_run {
                        ApplyActionView::DryRun(m)
                    } else {
                        ApplyActionView::Mutate(m)
                    },
                },
            ),
            TaskView::Add(i, zone) => Advance::Stop(
                StepView {
                    run: RunView { cache: run.cache.remove(zone), ..run },
                    action: ApplyActionView::ListRecords(zone),
                },
            ),
            _ => match task.needs_records() {
                Some(zone) => if run.cache.dom().contains(zone) {
                    go_on(run, with_records(run.changes, task, run.cache[zone]))
                } else {
                    Advance::Stop(StepView { run, action: ApplyActionView::ListRecords(zone) })
                },
                None => match p.filter {
                    Some(zones) => go_on(run, with_domains(p, run.changes, task, zones)),
                    None => Advance::Stop(
                        StepView { run, action: ApplyActionView::ManagedDomains },
                    ),
                },
            },
        }
    }
}

/// Works off tasks until something is needed.
pub open spec fn settle(p: Policy, run: RunView) -> StepView
    decreases load_of(run.agenda),
    via settle_decreases
{
    match advance(p, run) {
        Advance::Stop(step) => step,
        Advance::Go(tasks) => settle(p, run.replace(tasks)),
    }
}

/// The tasks that take the place of one have a smaller load than it.
pub proof fn load_falls(p: Policy, c: ChangesView, task: TaskView)
    ensures
        task is Check ==> load_of(seq![TaskView::Locate(task->Check_0)]) < task.load(),
        forall|zones: Seq<Seq<char>>| #[trigger]
            with_domains(p, c, task, zones) matches Ok(tasks) ==> task.needs_domains() ==> load_of(
                tasks,
            ) < task.load(),
        forall|records: Seq<RecordView>| #[trigger]
            with_records(c, task, records) matches Ok(tasks) ==> !(task is Add)
                && task.needs_records() is Some ==> load_of(tasks) < task.load(),
{
    reveal_with_fuel(load_of, 3);
    assert forall|zones: Seq<Seq<char>>|
        with_domains(p, c, task, zones) is Ok && task.needs_domains() implies load_of(
        (#[trigger] with_domains(p, c, task, zones))->Ok_0,
    ) < task.load() by {}
    assert forall|records: Seq<RecordView>|
        with_records(c, task, records) is Ok && !(task is Add) && task.needs_records()
            is Some implies load_of((#[trigger] with_records(c, task, records))->Ok_0)
        < task.load() by {
        match task {
            TaskView::DeleteIn(slot, zone) => {
                load_of_carried(slot, plan::deletion(records, zone, endpoint_at(c, slot)));
            },
            TaskView::CreateIn(slot, zone) => {
                let e = endpoint_at(c, slot);
                let prio = rules::priority_of(e.provider_specific)->Ok_0;
                load_of_carried(slot, plan::creation(records, zone, e, prio));
            },
            TaskView::Remove(i, zone) => {
                let ms = plan::update_removals(
                    records,
                    zone,
                    c.update_old[i as int],
                    c.update_new[i as int],
                );
                load_of_carried(Slot::UpdateOld(i), ms);
                load_of_sum(carried(Slot::UpdateOld(i), ms), seq![TaskView::Edit(i, zone)]);
            },
            TaskView::Edit(i, zone) => {
                let prio = rules::priority_of(c.update_new[i as int].provider_specific)->Ok_0;
                let ms = plan::update_edits(
                    records,
                    zone,
                    c.update_old[i as int],
                    c.update_new[i as int],
                    prio,
                );
                load_of_carried(Slot::UpdateNew(i), ms);
                load_of_sum(carried(Slot::UpdateNew(i), ms), seq![TaskView::Add(i, zone)]);
                load_of_sum(carried(Slot::UpdateNew(i), ms), Seq::empty());
            },
            _ => {},
        }
    }
}

/// The load falls where tasks with a smaller load take the place of the next one.
proof fn replace_falls(run: RunView, tasks: Seq<TaskView>)
    requires
        run.agenda.len() > 0,
        load_of(tasks) < run.agenda[0].load(),
    ensures
        load_of(run.replace(tasks).agenda) < load_of(run.agenda),
{
    load_of_sum(tasks, run.agenda.drop_first());
}

/// A task that needs the managed domains has a load.
pub proof fn load_of_first(agenda: Seq<TaskView>)
    requires
        agenda.len() > 0,
        agenda[0].needs_domains(),
    ensures
        load_of(agenda) > 0,
{
}

/// Where one task at most takes the place of one that needed records, the load falls, or
/// stays while the tasks become fewer.
pub proof fn reply_lightens(run: RunView, tasks: Seq<TaskView>)
    requires
        run.agenda.len() > 0,
        load_of(tasks) < run.agenda[0].load() || load_of(tasks) == run.agenda[0].load()
            && tasks.len() == 0,
    ensures
        load_of(run.replace(tasks).agenda) < load_of(run.agenda) || load_of(
            run.replace(tasks).agenda,
        ) == load_of(run.agenda) && run.replace(tasks).agenda.len() < run.agenda.len(),
{
    load_of_sum(tasks, run.agenda.drop_first());
}

/// The load falls with every advance.
pub proof fn advance_falls(p: Policy, run: RunView)
    ensures
        advance(p, run) matches Advance::Go(tasks) ==> run.agenda.len() > 0 && load_of(
            run.replace(tasks).agenda,
        ) < load_of(run.agenda),
{
    match advance(p, run) {
        Advance::Go(tasks) => {
            load_falls(p, run.changes, run.agenda[0]);
            replace_falls(run, tasks);
        },
        Advance::Stop(step) => {},
    }
}

#[via_fn]
proof fn settle_decreases(p: Policy, run: RunView) {
    advance_falls(p, run);
}

/// Goes on with what came of the action that the run waited for.
pub open spec fn resume(p: Policy, run: RunView, event: ApplyEventView) -> StepView {
    let task = run.agenda[0];
    match event {
        ApplyEventView::Domains(Err(x)) => run.fail(x),
        ApplyEventView::Domains(Ok(zones)) => match with_domains(p, run.changes, task, zones) {
            Err(x) => run.fail(x),
            Ok(tasks) => settle(p, run.replace(tasks)),
        },
        ApplyEventView::Records(Err(x)) => run.fail(x),
        ApplyEventView::Records(Ok(records)) => {
            let listed = RunView {
                cache: run.cache.insert(task.needs_records()->0, records),
                ..run
            };
            match with_records(run.changes, task, records) {
                Err(x) => listed.fail(x),
                Ok(tasks) => settle(p, listed.replace(tasks)),
            }
        },
        ApplyEventView::Mutated(Err(x)) => run.fail(x),
        ApplyEventView::Mutated(Ok(_)) => settle(
            p,
            RunView { cache: run.cache.remove(task->Carry_1.zone()), ..run }.replace(Seq::empty()),
        ),
        ApplyEventView::Noted => settle(p, run.replace(Seq::empty())),
    }
}

/// A list of endpoints in the changes.
#[derive(Debug, Clone, Copy)]
pub enum Listing {
    Create,
    UpdateOld,
    UpdateNew,
    Delete,
}

/// A place in a list.
pub open spec fn slot_in(listing: Listing, i: usize) -> Slot {
    match listing {
        Listing::Create => Slot::Create(i),
        Listing::UpdateOld => Slot::UpdateOld(i),
        Listing::UpdateNew => Slot::UpdateNew(i),
        Listing::Delete => Slot::Delete(i),
    }
}

/// The work on an endpoint that is to be created or deleted, or on the update of one.
pub open spec fn work_on(slot: Slot) -> TaskView {
    match slot {
        Slot::Create(i) => TaskView::Create(slot),
        Slot::UpdateOld(i) => TaskView::Update(i),
        Slot::UpdateNew(i) => TaskView::Update(i),
        Slot::Delete(i) => TaskView::Delete(slot),
    }
}

/// The checks of the first `n` endpoints in a list.
pub open spec fn checks_in(listing: Listing, n: nat) -> Seq<TaskView> {
    Seq::new(n, |i: int| TaskView::Check(slot_in(listing, i as usize)))
}

/// The work on the first `n` endpoints in a list.
pub open spec fn works_in(listing: Listing, n: nat) -> Seq<TaskView> {
    Seq::new(n, |i: int| work_on(slot_in(listing, i as usize)))
}

/// The checks of all endpoints: those to create, the new ones of updates, those to delete
/// and the old ones of updates.
pub open spec fn checks(c: ChangesView) -> Seq<TaskView> {
    checks_in(Listing::Create, c.create.len()) + checks_in(Listing::UpdateNew, c.update_new.len())
        + checks_in(Listing::Delete, c.delete.len()) + checks_in(
        Listing::UpdateOld,
        c.update_old.len(),
    )
}

/// The work on the changes once all endpoints are checked: deletions, updates, creations.
pub open spec fn works(c: ChangesView) -> Seq<TaskView> {
    works_in(Listing::Delete, c.delete.len()) + works_in(Listing::UpdateNew, c.update_new.len())
        + works_in(Listing::Create, c.create.len())
}

/// Why an update with `old` old and `new` new endpoints is not carried out.
pub open spec fn unpaired(old_len: nat, new_len: nat) -> ErrorView {
    ErrorView::InvalidRequest(
        "updateOld ("@ + number::decimal(old_len) + ") and updateNew ("@ + number::decimal(new_len)
            + ") must have the same length"@,
    )
}

/// The work on changes begins: all endpoints are checked before any record is touched.
pub open spec fn start(p: Policy, c: ChangesView) -> StepView {
    let run = RunView { changes: c, agenda: Seq::empty(), cache: Map::empty() };
    if c.is_empty() {
        StepView { run, action: ApplyActionView::Finish(Ok(204)) }
    } else if c.update_old.len() != c.update_new.len() {
        run.fail(unpaired(c.update_old.len(), c.update_new.len()))
    } else {
        settle(p, RunView { agenda: checks(c) + works(c), ..run })
    }
}

/// The work on a request begins; one that could not be read is refused with the words of
/// the reader.
pub open spec fn begin(p: Policy, body: Result<ChangesView, Seq<char>>) -> StepView {
    match body {
        Ok(c) => start(p, c),
        Err(words) => StepView {
            run: RunView {
                changes: ChangesView {
                    create: Seq::empty(),
                    update_old: Seq::empty(),
                    update_new: Seq::empty(),
                    delete: Seq::empty(),
                },
                agenda: Seq::empty(),
                cache: Map::empty(),
            },
            action: ApplyActionView::Finish(Err(ErrorView::InvalidRequest(words))),
        },
    }
}

} // verus!

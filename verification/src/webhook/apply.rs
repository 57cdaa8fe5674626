//! The work on changes, carried out.
use crate::config::Config;
use crate::error;
use crate::error::{Error, ErrorView};
use crate::number;
use crate::porkbun::types::{DnsRecord, RecordView};
use crate::text;
use crate::webhook::agenda;
use crate::webhook::agenda::{
    ApplyAction, ApplyEvent, Listing, Policy, RunView, Slot, StepView, Task,
    TaskView,
};
use crate::webhook::cache::ZoneCache;
use crate::webhook::conduct;
use crate::webhook::plan;
use crate::webhook::plan::Mutation;
use crate::webhook::rules;
use crate::webhook::types::{ApplyChangesRequest, Changes, ChangesView, Endpoint};
use vstd::prelude::*;
use vstd::string::StringExecFns;

verus! {

/// The state of the work on changes.
#[derive(Debug)]
pub struct ApplyRun {
    changes: Changes,
    /// The tasks that are left, the next one last.
    stack: Vec<Task>,
    cache: ZoneCache,
}

impl View for ApplyRun {
    type V = RunView;

    closed spec fn view(&self) -> RunView {
        RunView {
            changes: self.changes@,
            agenda: self.stack.deep_view().reverse(),
            cache: self.cache@,
        }
    }
}

impl Task {
    /// The zone whose records are needed to work off the task, if they are.
    fn zone_to_list(&self) -> (r: Option<&str>)
        ensures
            r.deep_view() == self@.needs_records(),
    {
        match self {
            Task::DeleteIn(_, zone) => Some(zone.as_str()),
            Task::CreateIn(_, zone) => Some(zone.as_str()),
            Task::Remove(_, zone) => Some(zone.as_str()),
            Task::Edit(_, zone) => Some(zone.as_str()),
            Task::Add(_, zone) => Some(zone.as_str()),
            _ => None,
        }
    }
}

/// A result with its tasks and its failure as views.
pub open spec fn tasks_result(r: Result<Vec<Task>, Error>) -> Result<Seq<TaskView>, ErrorView> {
    match r {
        Ok(tasks) => Ok(tasks.deep_view()),
        Err(e) => Err(e@),
    }
}

/// The endpoint at a place in the changes.
fn get_endpoint(changes: &Changes, slot: Slot) -> (r: &Endpoint)
    requires
        agenda::has_slot(changes@, slot),
    ensures
        r@ == agenda::endpoint_at(changes@, slot),
{
    match slot {
        Slot::Create(i) => &changes.create[i],
        Slot::UpdateOld(i) => &changes.update_old[i],
        Slot::UpdateNew(i) => &changes.update_new[i],
        Slot::Delete(i) => &changes.delete[i],
    }
}

/// Whether some target is blank.
fn has_blank_target(targets: &Vec<String>) -> (r: bool)
    ensures
        r == agenda::has_blank(targets.deep_view()),
{
    let ghost all = targets.deep_view();
    for i in 0..targets.len()
        invariant
            all == targets.deep_view(),
            forall|j: int| 0 <= j < i ==> text::trimmed(#[trigger] all[j]).len() != 0,
    {
        assert(all[i as int] == targets[i as int]@);
        if text::trim(&targets[i]).is_empty() {
            return true;
        }
    }
    false
}

/// What is wrong with the endpoint's type and targets, if anything is.
pub fn find_shape_fault(endpoint: &Endpoint) -> (r: Option<Error>)
    ensures
        error::failure_view(r) == agenda::shape_fault(endpoint@),
{
    if !rules::is_supported(&endpoint.record_type) {
        Some(
            Error::InvalidRequest(
                "Unsupported record type: ".to_owned().concat(&endpoint.record_type),
            ),
        )
    } else if endpoint.targets.is_empty() {
        Some(
            Error::InvalidRequest("No targets for endpoint ".to_owned().concat(&endpoint.dns_name)),
        )
    } else if has_blank_target(&endpoint.targets) {
        Some(
            Error::InvalidRequest(
                "Blank target in endpoint ".to_owned().concat(&endpoint.dns_name),
            ),
        )
    } else {
        None
    }
}

/// What is wrong with the endpoint's zone and priority, if anything is.
pub fn find_place_fault(config: &Config, zones: &Vec<String>, endpoint: &Endpoint) -> (r: Option<
    Error,
>)
    ensures
        error::failure_view(r) == agenda::place_fault(
            agenda::policy_of(*config),
            zones.deep_view(),
            endpoint@,
        ),
{
    match rules::resolve_in(config.domain_filter.is_some(), zones, &endpoint.dns_name) {
        Err(e) => Some(e),
        Ok(zone) => if !config.is_domain_allowed(&zone) {
            Some(Error::DomainNotAllowed(zone))
        } else {
            match rules::endpoint_priority(endpoint) {
                Err(e) => Some(e),
                Ok(_) => None,
            }
        },
    }
}

/// An empty list of tasks.
fn none() -> (r: Vec<Task>)
    ensures
        r.deep_view() == Seq::<TaskView>::empty(),
{
    let tasks: Vec<Task> = Vec::new();
    assert(tasks.deep_view() =~= Seq::empty());
    tasks
}

/// Makes a place in a list.
fn make_slot(listing: Listing, i: usize) -> (r: Slot)
    ensures
        r == agenda::slot_in(listing, i),
{
    match listing {
        Listing::Create => Slot::Create(i),
        Listing::UpdateOld => Slot::UpdateOld(i),
        Listing::UpdateNew => Slot::UpdateNew(i),
        Listing::Delete => Slot::Delete(i),
    }
}

/// Appends the checks of the first `n` endpoints in a list.
fn push_checks(tasks: &mut Vec<Task>, listing: Listing, n: usize)
    ensures
        final(tasks).deep_view() == old(tasks).deep_view() + agenda::checks_in(listing, n as nat),
{
    let ghost start = tasks.deep_view();
    for i in 0..n
        invariant
            tasks.deep_view() =~= start + agenda::checks_in(listing, i as nat),
    {
        let ghost before = tasks.deep_view();
        tasks.push(Task::Check(make_slot(listing, i)));
        assert(tasks.deep_view() =~= before.push(TaskView::Check(agenda::slot_in(listing, i))));
    }
}

/// Appends the work on the first `n` endpoints in a list.
fn push_works(tasks: &mut Vec<Task>, listing: Listing, n: usize)
    ensures
        final(tasks).deep_view() == old(tasks).deep_view() + agenda::works_in(listing, n as nat),
{
    let ghost start = tasks.deep_view();
    for i in 0..n
        invariant
            tasks.deep_view() =~= start + agenda::works_in(listing, i as nat),
    {
        let ghost before = tasks.deep_view();
        let task = match listing {
            Listing::Create => Task::Create(Slot::Create(i)),
            Listing::UpdateOld => Task::Update(i),
            Listing::UpdateNew => Task::Update(i),
            Listing::Delete => Task::Delete(Slot::Delete(i)),
        };
        tasks.push(task);
        assert(tasks.deep_view() =~= before.push(agenda::work_on(agenda::slot_in(listing, i))));
    }
}

/// The tasks that the work on changes begins with.
fn list_tasks(changes: &Changes) -> (r: Vec<Task>)
    ensures
        r.deep_view() == agenda::checks(changes@) + agenda::works(changes@),
{
    let mut tasks = none();
    push_checks(&mut tasks, Listing::Create, changes.create.len());
    push_checks(&mut tasks, Listing::UpdateNew, changes.update_new.len());
    push_checks(&mut tasks, Listing::Delete, changes.delete.len());
    push_checks(&mut tasks, Listing::UpdateOld, changes.update_old.len());
    assert(tasks.deep_view() =~= agenda::checks(changes@));
    push_works(&mut tasks, Listing::Delete, changes.delete.len());
    push_works(&mut tasks, Listing::UpdateNew, changes.update_new.len());
    push_works(&mut tasks, Listing::Create, changes.create.len());
    assert(tasks.deep_view() =~= agenda::checks(changes@) + agenda::works(changes@));
    tasks
}

/// Makes a list of a task.
fn one(task: Task) -> (r: Vec<Task>)
    ensures
        r.deep_view() == seq![task@],
{
    let mut tasks: Vec<Task> = Vec::new();
    tasks.push(task);
    assert(tasks.deep_view() =~= seq![task@]);
    tasks
}

/// What a task leads to once the managed domains are known.
fn work_with_domains(config: &Config, changes: &Changes, task: &Task, zones: &Vec<String>) -> (r:
    Result<Vec<Task>, Error>)
    requires
        task@.wf(changes@),
        task@.needs_domains(),
    ensures
        tasks_result(r) == agenda::with_domains(
            agenda::policy_of(*config),
            changes@,
            task@,
            zones.deep_view(),
        ),
{
    let filtered = config.domain_filter.is_some();
    match task {
        Task::Locate(slot) => match find_place_fault(config, zones, get_endpoint(changes, *slot)) {
            Some(e) => Err(e),
            None => Ok(none()),
        },
        Task::Delete(slot) => match rules::resolve_in(
            filtered,
            zones,
            &get_endpoint(changes, *slot).dns_name,
        ) {
            Err(e) => Err(e),
            Ok(zone) => Ok(one(Task::DeleteIn(*slot, zone))),
        },
        Task::Create(slot) => match rules::resolve_in(
            filtered,
            zones,
            &get_endpoint(changes, *slot).dns_name,
        ) {
            Err(e) => Err(e),
            Ok(zone) => Ok(one(Task::CreateIn(*slot, zone))),
        },
        Task::Update(i) => match rules::resolve_in(
            filtered,
            zones,
            &changes.update_old[*i].dns_name,
        ) {
            Err(e) => Err(e),
            Ok(zone) => Ok(one(Task::UpdateFrom(*i, zone))),
        },
        Task::UpdateFrom(i, old_zone) => {
            let old_endpoint = &changes.update_old[*i];
            let new_endpoint = &changes.update_new[*i];
            match rules::resolve_in(filtered, zones, &new_endpoint.dns_name) {
                Err(e) => Err(e),
                Ok(zone) => {
                    let old_name = rules::normalize_fqdn(&old_endpoint.dns_name);
                    let new_name = rules::normalize_fqdn(&new_endpoint.dns_name);
                    if *old_zone == zone && old_name == new_name && old_endpoint.record_type
                        == new_endpoint.record_type {
                        Ok(one(Task::Remove(*i, zone)))
                    } else {
                        let mut tasks = one(Task::Delete(Slot::UpdateOld(*i)));
                        let ghost before = tasks.deep_view();
                        tasks.push(Task::Create(Slot::UpdateNew(*i)));
                        proof {
                            let next = TaskView::Create(Slot::UpdateNew(*i));
                            assert(tasks.deep_view() =~= before.push(next));
                            assert(before.push(next) =~= seq![before[0], next]);
                        }
                        Ok(tasks)
                    }
                },
            }
        },
        _ => Ok(none()),
    }
}

/// The tasks that carry out a plan for the endpoint at a place.
fn carry(slot: Slot, mutations: Vec<Mutation>) -> (r: Vec<Task>)
    ensures
        r.deep_view() == agenda::carried(slot, mutations.deep_view()),
{
    let ghost all = mutations.deep_view();
    let mut tasks: Vec<Task> = Vec::new();
    for m in it: mutations
        invariant
            all == mutations.deep_view(),
            it.seq() == mutations@,
            tasks.len() == it.index(),
            tasks.deep_view() == agenda::carried(slot, all.take(it.index())),
    {
        let ghost done = tasks.deep_view();
        assert(m@ == all[it.index()]);
        tasks.push(Task::Carry(slot, m));
        assert(tasks.deep_view() =~= done.push(TaskView::Carry(slot, m@)));
        assert(tasks.deep_view() =~= agenda::carried(slot, all.take(it.index() + 1)));
    }
    assert(all.take(tasks.len() as int) =~= all);
    tasks
}

/// What a task leads to once the records of its zone are known.
fn work_with_records(changes: &Changes, task: &Task, records: &Vec<DnsRecord>) -> (r: Result<
    Vec<Task>,
    Error,
>)
    requires
        task@.wf(changes@),
        task@.needs_records() is Some,
    ensures
        tasks_result(r) == agenda::with_records(changes@, task@, records.deep_view()),
{
    match task {
        Task::DeleteIn(slot, zone) => {
            let mutations = plan::plan_deletion(records, zone, get_endpoint(changes, *slot));
            Ok(carry(*slot, mutations))
        },
        Task::CreateIn(slot, zone) => {
            let endpoint = get_endpoint(changes, *slot);
            match rules::endpoint_priority(endpoint) {
                Err(e) => Err(e),
                Ok(prio) => Ok(carry(*slot, plan::plan_creation(records, zone, endpoint, prio))),
            }
        },
        Task::Remove(i, zone) => {
            let old_endpoint = &changes.update_old[*i];
            let new_endpoint = &changes.update_new[*i];
            match rules::endpoint_priority(new_endpoint) {
                Err(e) => Err(e),
                Ok(_) => {
                    let mutations = plan::plan_update_removals(
                        records,
                        zone,
                        old_endpoint,
                        new_endpoint,
                    );
                    let mut tasks = carry(Slot::UpdateOld(*i), mutations);
                    let ghost before = tasks.deep_view();
                    tasks.push(Task::Edit(*i, zone.clone()));
                    assert(tasks.deep_view() =~= before + seq![TaskView::Edit(*i, zone@)]);
                    Ok(tasks)
                },
            }
        },
        Task::Edit(i, zone) => {
            let old_endpoint = &changes.update_old[*i];
            let new_endpoint = &changes.update_new[*i];
            match rules::endpoint_priority(new_endpoint) {
                Err(e) => Err(e),
                Ok(prio) => {
                    let mutations = plan::plan_update_edits(
                        records,
                        zone,
                        old_endpoint,
                        new_endpoint,
                        prio,
                    );
                    let mut tasks = carry(Slot::UpdateNew(*i), mutations);
                    let ghost before = tasks.deep_view();
                    let added = plan::list_added_targets(old_endpoint, new_endpoint);
                    if !added.is_empty() {
                        tasks.push(Task::Add(*i, zone.clone()));
                        assert(tasks.deep_view() =~= before + seq![TaskView::Add(*i, zone@)]);
                    }
                    Ok(tasks)
                },
            }
        },
        Task::Add(i, zone) => {
            let old_endpoint = &changes.update_old[*i];
            let new_endpoint = &changes.update_new[*i];
            match rules::endpoint_priority(new_endpoint) {
                Err(e) => Err(e),
                Ok(prio) => {
                    let mutations = plan::plan_update_additions(
                        records,
                        zone,
                        old_endpoint,
                        new_endpoint,
                        prio,
                    );
                    Ok(carry(Slot::UpdateNew(*i), mutations))
                },
            }
        },
        _ => Ok(none()),
    }
}

/// The tasks that take the place of a task are about endpoints that are there.
proof fn wf_kept(p: Policy, c: ChangesView, task: TaskView)
    requires
        task.wf(c),
    ensures
        forall|zones: Seq<Seq<char>>, k: int|
            #![trigger agenda::with_domains(p, c, task, zones)->Ok_0[k]]
            agenda::with_domains(p, c, task, zones) matches Ok(tasks) ==> 0 <= k < tasks.len()
                ==> tasks[k].wf(c),
        forall|records: Seq<RecordView>, k: int|
            #![trigger agenda::with_records(c, task, records)->Ok_0[k]]
            agenda::with_records(c, task, records) matches Ok(tasks) ==> 0 <= k < tasks.len()
                ==> tasks[k].wf(c),
{
}

impl ApplyRun {
    /// Lets tasks take the place of the one that was taken from the agenda.
    fn put(&mut self, tasks: Vec<Task>)
        ensures
            final(self)@ == (RunView {
                agenda: tasks.deep_view() + old(self)@.agenda,
                ..old(self)@
            }),
    {
        let ghost all = tasks.deep_view();
        let ghost start = self@;
        let mut rest = tasks;
        while rest.len() > 0
            invariant
                rest.len() <= all.len(),
                rest.deep_view() == all.take(rest.len() as int),
                self@ == (RunView { agenda: all.skip(rest.len() as int) + start.agenda, ..start }),
            decreases rest.len(),
        {
            let ghost before = self@.agenda;
            let ghost stack = self.stack.deep_view();
            let ghost left = rest.deep_view();
            match rest.pop() {
                Some(task) => {
                    assert(task@ == left.last());
                    assert(rest.deep_view() =~= left.drop_last());
                    self.stack.push(task);
                    assert(self.stack.deep_view() =~= stack.push(task@));
                    assert(self@.agenda =~= seq![task@] + before);
                    assert(self@.agenda =~= all.skip(rest.len() as int) + start.agenda);
                },
                None => {},
            }
        }
        assert(self@.agenda =~= all + start.agenda);
    }

    /// Takes the next task from the agenda.
    fn take(&mut self) -> (r: Option<Task>)
        ensures
            match r {
                Some(task) => {
                    &&& old(self)@.agenda.len() > 0
                    &&& task@ == old(self)@.agenda[0]
                    &&& final(self)@ == (RunView {
                        agenda: old(self)@.agenda.drop_first(),
                        ..old(self)@
                    })
                },
                None => old(self)@.agenda.len() == 0 && final(self)@ == old(self)@,
            },
    {
        let ghost stack = self.stack.deep_view();
        let task = self.stack.pop();
        proof {
            if task is Some {
                assert(self.stack.deep_view() =~= stack.drop_last());
                assert(self@.agenda =~= stack.reverse().drop_first());
            }
        }
        task
    }

    /// Ends the run with a failure.
    fn fail(&mut self, e: Error) -> (r: ApplyAction)
        ensures
            (StepView { run: final(self)@, action: r@ }) == (RunView {
                agenda: Seq::empty(),
                ..old(self)@
            }).fail(e@),
    {
        self.stack = Vec::new();
        assert(self@.agenda =~= Seq::empty());
        ApplyAction::Finish(Err(e))
    }

    /// Works off tasks until something is needed.
    fn settle(&mut self, config: &Config) -> (r: ApplyAction)
        requires
            old(self)@.wf(),
        ensures
            (StepView { run: final(self)@, action: r@ }) == agenda::settle(
                agenda::policy_of(*config),
                old(self)@,
            ),
            final(self)@.wf(),
            final(self)@.waits_for(r@),
    {
        let ghost p = agenda::policy_of(*config);
        proof {
            conduct::settle_is_well_conducted(p, self@);
        }
        loop
            invariant
                p == agenda::policy_of(*config),
                self@.wf(),
                agenda::settle(p, self@) == agenda::settle(p, old(self)@),
                conduct::well_conducted(p, agenda::settle(p, self@)),
            decreases agenda::load_of(self@.agenda),
        {
            let ghost run = self@;
            proof {
                agenda::advance_falls(p, run);
                if run.agenda.len() > 0 {
                    wf_kept(p, run.changes, run.agenda[0]);
                }
            }
            match self.take() {
                None => {
                    return ApplyAction::Finish(Ok(204));
                },
                Some(Task::Check(slot)) => match find_shape_fault(
                    get_endpoint(&self.changes, slot),
                ) {
                    Some(e) => {
                        return self.fail(e);
                    },
                    None => {
                        self.put(one(Task::Locate(slot)));
                    },
                },
                Some(Task::Carry(slot, m)) => {
                    let named = m.clone();
                    self.put(one(Task::Carry(slot, m)));
                    assert(self@.agenda =~= run.agenda);
                    return if config.dry_run {
                        ApplyAction::DryRun(named)
                    } else {
                        ApplyAction::Mutate(named)
                    };
                },
                Some(Task::Add(i, zone)) => {
                    self.cache.remove(&zone);
                    let action = ApplyAction::ListRecords(zone.clone());
                    self.put(one(Task::Add(i, zone)));
                    assert(self@.agenda =~= run.agenda);
                    return action;
                },
                Some(task) => {
                    let led = match task.zone_to_list() {
                        Some(zone) => match self.cache.get(zone) {
                            Some(records) => work_with_records(&self.changes, &task, records),
                            None => {
                                let action = ApplyAction::ListRecords(zone.to_owned());
                                self.put(one(task));
                                assert(self@.agenda =~= run.agenda);
                                return action;
                            },
                        },
                        None => match &config.domain_filter {
                            Some(zones) => work_with_domains(config, &self.changes, &task, zones),
                            None => {
                                self.put(one(task));
                                assert(self@.agenda =~= run.agenda);
                                return ApplyAction::ManagedDomains;
                            },
                        },
                    };
                    match led {
                        Err(e) => {
                            return self.fail(e);
                        },
                        Ok(tasks) => {
                            self.put(tasks);
                        },
                    }
                },
            }
        }
    }

    /// Goes on with what came of the action that the run waited for.
    pub fn resume(&mut self, config: &Config, event: ApplyEvent) -> (r: ApplyAction)
        requires
            old(self)@.wf(),
            old(self)@.awaits(event@),
        ensures
            (StepView { run: final(self)@, action: r@ }) == agenda::resume(
                agenda::policy_of(*config),
                old(self)@,
                event@,
            ),
            final(self)@.wf(),
            final(self)@.waits_for(r@),
    {
        let ghost p = agenda::policy_of(*config);
        let ghost run = self@;
        proof {
            wf_kept(p, run.changes, run.agenda[0]);
        }
        let led = match (self.take(), event) {
            (Some(task), ApplyEvent::Domains(Ok(zones))) => work_with_domains(
                config,
                &self.changes,
                &task,
                &zones,
            ),
            (Some(task), ApplyEvent::Records(Ok(records))) => {
                let led = work_with_records(&self.changes, &task, &records);
                match task.zone_to_list() {
                    Some(zone) => self.cache.insert(zone.to_owned(), records),
                    None => {},
                }
                led
            },
            (Some(Task::Carry(_, m)), ApplyEvent::Mutated(Ok(_))) => {
                self.cache.remove(m.zone());
                Ok(none())
            },
            (_, ApplyEvent::Domains(Err(e))) => Err(e),
            (_, ApplyEvent::Records(Err(e))) => Err(e),
            (_, ApplyEvent::Mutated(Err(e))) => Err(e),
            _ => Ok(none()),
        };
        match led {
            Err(e) => self.fail(e),
            Ok(tasks) => {
                self.put(tasks);
                self.settle(config)
            },
        }
    }

    /// A run without tasks.
    fn idle(changes: Changes) -> (r: ApplyRun)
        ensures
            r@ == (RunView { changes: changes@, agenda: Seq::empty(), cache: Map::empty() }),
    {
        let run = ApplyRun { changes, stack: Vec::new(), cache: ZoneCache::new() };
        assert(run@.agenda =~= Seq::empty());
        run
    }

    /// Begins the work on changes.
    pub fn start(config: &Config, changes: Changes) -> (r: (ApplyRun, ApplyAction))
        ensures
            (StepView { run: r.0@, action: r.1@ }) == agenda::start(
                agenda::policy_of(*config),
                changes@,
            ),
            r.0@.wf(),
            r.0@.waits_for(r.1@),
    {
        let nothing = changes.is_empty();
        let old_len: usize = changes.update_old.len();
        let new_len: usize = changes.update_new.len();
        let tasks = list_tasks(&changes);
        let mut run = ApplyRun::idle(changes);
        let action = if nothing {
            ApplyAction::Finish(Ok(204))
        } else if old_len != new_len {
            let words = "updateOld (".to_owned().concat(
                &number::decimal_text(old_len as u64),
            ).concat(") and updateNew (").concat(&number::decimal_text(new_len as u64)).concat(
                ") must have the same length",
            );
            run.fail(Error::InvalidRequest(words))
        } else {
            run.put(tasks);
            assert(run@.agenda =~= agenda::checks(changes@) + agenda::works(changes@));
            run.settle(config)
        };
        (run, action)
    }

    /// Begins the work on a request; `Err` holds the words of the reader that could not
    /// read it.
    pub fn begin(config: &Config, body: Result<ApplyChangesRequest, String>) -> (r: (
        ApplyRun,
        ApplyAction,
    ))
        ensures
            (StepView { run: r.0@, action: r.1@ }) == agenda::begin(
                agenda::policy_of(*config),
                match body {
                    Ok(request) => Ok(request@),
                    Err(words) => Err(words@),
                },
            ),
            r.0@.wf(),
            r.0@.waits_for(r.1@),
    {
        match body {
            Ok(request) => ApplyRun::start(config, request.into_changes()),
            Err(words) => {
                let changes: Changes = Default::default();
                let run = ApplyRun::idle(changes);
                proof {
                    let c = run@.changes;
                    assert(c.create =~= Seq::empty());
                    assert(c.update_old =~= Seq::empty());
                    assert(c.update_new =~= Seq::empty());
                    assert(c.delete =~= Seq::empty());
                }
                (run, ApplyAction::Finish(Err(Error::InvalidRequest(words))))
            },
        }
    }
}

} // verus!

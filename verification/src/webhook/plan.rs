//! Plans: the mutations that bring the records of a zone in line with an endpoint.
use crate::porkbun::types::{CreateDnsParams, DnsRecord, EditDnsParams, ParamsView, RecordView};
use crate::webhook::rules;
use crate::webhook::types::{Endpoint, EndpointView};
use vstd::prelude::*;

verus! {

/// One change to the records of a zone.
#[derive(Debug)]
#[allow(inconsistent_fields)]
pub enum Mutation {
    Add { zone: String, params: CreateDnsParams },
    Edit { zone: String, id: String, params: EditDnsParams },
    Remove { zone: String, id: String },
}

impl Clone for Mutation {
    fn clone(&self) -> (r: Self)
        ensures
            r == *self,
    {
        match self {
            Mutation::Add { zone, params } => Mutation::Add {
                zone: zone.clone(),
                params: params.clone(),
            },
            Mutation::Edit { zone, id, params } => Mutation::Edit {
                zone: zone.clone(),
                id: id.clone(),
                params: params.clone(),
            },
            Mutation::Remove { zone, id } => Mutation::Remove {
                zone: zone.clone(),
                id: id.clone(),
            },
        }
    }
}

/// A [`Mutation`] with its texts as sequences of characters.
pub enum MutationView {
    Add { zone: Seq<char>, params: ParamsView },
    Edit { zone: Seq<char>, id: Seq<char>, params: ParamsView },
    Remove { zone: Seq<char>, id: Seq<char> },
}

impl View for Mutation {
    type V = MutationView;

    open spec fn view(&self) -> MutationView {
        match *self {
            Mutation::Add { zone, params } => MutationView::Add { zone: zone@, params: params@ },
            Mutation::Edit { zone, id, params } => MutationView::Edit {
                zone: zone@,
                id: id@,
                params: params@,
            },
            Mutation::Remove { zone, id } => MutationView::Remove { zone: zone@, id: id@ },
        }
    }
}

impl DeepView for Mutation {
    type V = MutationView;

    open spec fn deep_view(&self) -> MutationView {
        self@
    }
}

impl MutationView {
    /// The zone whose records are changed.
    pub open spec fn zone(self) -> Seq<char> {
        match self {
            MutationView::Add { zone, params } => zone,
            MutationView::Edit { zone, id, params } => zone,
            MutationView::Remove { zone, id } => zone,
        }
    }
}

impl Mutation {
    /// The zone whose records are changed.
    pub fn zone(&self) -> (r: &str)
        ensures
            r@ == self@.zone(),
    {
        match self {
            Mutation::Add { zone, .. } => zone.as_str(),
            Mutation::Edit { zone, .. } => zone.as_str(),
            Mutation::Remove { zone, .. } => zone.as_str(),
        }
    }
}

/// Tells the records of `zone` that belong to the endpoint from the others.
pub open spec fn belonging(zone: Seq<char>, e: EndpointView) -> spec_fn(RecordView) -> bool {
    |r: RecordView| rules::belongs(zone, e, r)
}

/// The records of `zone` that belong to the endpoint.
pub open spec fn matching(
    records: Seq<RecordView>,
    zone: Seq<char>,
    e: EndpointView,
) -> Seq<RecordView> {
    records.filter(belonging(zone, e))
}

/// The records of `zone` that belong to the endpoint, in their order.
pub fn list_matching_records<'a>(
    zone: &str,
    endpoint: &Endpoint,
    records: &'a Vec<DnsRecord>,
) -> (r: Vec<&'a DnsRecord>)
    ensures
        r.deep_view() == matching(records.deep_view(), zone@, endpoint@),
{
    let ghost all = records.deep_view();
    let ghost pred = belonging(zone@, endpoint@);
    let mut found: Vec<&'a DnsRecord> = Vec::new();
    proof {
        reveal(Seq::filter);
        assert(found.deep_view() =~= all.take(0).filter(pred));
    }
    for i in 0..records.len()
        invariant
            all == records.deep_view(),
            pred == belonging(zone@, endpoint@),
            found.deep_view() == all.take(i as int).filter(pred),
    {
        let ghost before = found.deep_view();
        proof {
            assert(all.take(i + 1) =~= all.take(i as int).push(all[i as int]));
            all.take(i as int).lemma_filter_push(all[i as int], pred);
        }
        if rules::record_belongs(zone, endpoint, &records[i]) {
            found.push(&records[i]);
            assert(found.deep_view() =~= before.push(records[i as int]@));
        }
    }
    assert(all.take(all.len() as int) =~= all);
    found
}

/// Some target in `targets` is the same as `t`.
pub open spec fn listed(targets: Seq<Seq<char>>, t: Seq<char>, record_type: Seq<char>) -> bool {
    exists|i: int|
        0 <= i < targets.len() && #[trigger] rules::same_target(targets[i], t, record_type)
}

/// Whether some target in `targets` is the same as `t`.
pub fn is_listed(targets: &Vec<String>, t: &str, record_type: &str) -> (r: bool)
    ensures
        r == listed(targets.deep_view(), t@, record_type@),
{
    let ghost all = targets.deep_view();
    for i in 0..targets.len()
        invariant
            all == targets.deep_view(),
            forall|j: int| 0 <= j < i ==> !#[trigger] rules::same_target(all[j], t@, record_type@),
    {
        assert(all[i as int] == targets[i as int]@);
        if rules::targets_match(&targets[i], t, record_type) {
            return true;
        }
    }
    false
}

/// The targets with all but the first of each set of same ones left out.
pub open spec fn distinct(targets: Seq<Seq<char>>, record_type: Seq<char>) -> Seq<Seq<char>>
    decreases targets.len(),
{
    if targets.len() == 0 {
        targets
    } else {
        let before = targets.drop_last();
        let kept = distinct(before, record_type);
        if listed(before, targets.last(), record_type) {
            kept
        } else {
            kept.push(targets.last())
        }
    }
}

/// A target is listed among the distinct ones exactly where it is listed at all.
pub proof fn distinct_lists_all(targets: Seq<Seq<char>>, t: Seq<char>, record_type: Seq<char>)
    ensures
        listed(distinct(targets, record_type), t, record_type) <==> listed(targets, t, record_type),
    decreases targets.len(),
{
    if targets.len() > 0 {
        let before = targets.drop_last();
        let last = targets.last();
        let kept = distinct(before, record_type);
        let all = distinct(targets, record_type);
        distinct_lists_all(before, t, record_type);
        if listed(all, t, record_type) {
            let i = choose|i: int|
                0 <= i < all.len() && #[trigger] rules::same_target(all[i], t, record_type);
            if i < kept.len() {
                assert(rules::same_target(kept[i], t, record_type));
                let j = choose|j: int|
                    0 <= j < before.len() && #[trigger] rules::same_target(before[j], t, record_type);
                assert(rules::same_target(targets[j], t, record_type));
            } else {
                assert(rules::same_target(targets[targets.len() - 1], t, record_type));
            }
        }
        if listed(targets, t, record_type) {
            let i = choose|i: int|
                0 <= i < targets.len() && #[trigger] rules::same_target(targets[i], t, record_type);
            if i == targets.len() - 1 && !listed(before, last, record_type) {
                assert(rules::same_target(all[all.len() - 1], t, record_type));
            } else {
                if i < targets.len() - 1 {
                    assert(rules::same_target(before[i], t, record_type));
                } else {
                    let j = choose|j: int|
                        0 <= j < before.len() && #[trigger] rules::same_target(
                            before[j],
                            last,
                            record_type,
                        );
                    assert(rules::same_target(before[j], t, record_type));
                }
                let k = choose|k: int|
                    0 <= k < kept.len() && #[trigger] rules::same_target(kept[k], t, record_type);
                assert(rules::same_target(all[k], t, record_type));
            }
        }
    }
}

/// The targets, each once.
pub fn unique_targets(targets: &Vec<String>, record_type: &str) -> (r: Vec<String>)
    ensures
        r.deep_view() == distinct(targets.deep_view(), record_type@),
{
    let ghost all = targets.deep_view();
    let mut kept: Vec<String> = Vec::new();
    assert(kept.deep_view() =~= all.take(0));
    for i in 0..targets.len()
        invariant
            all == targets.deep_view(),
            kept.deep_view() == distinct(all.take(i as int), record_type@),
    {
        let ghost before = kept.deep_view();
        proof {
            assert(all.take(i + 1).drop_last() =~= all.take(i as int));
            distinct_lists_all(all.take(i as int), all[i as int], record_type@);
        }
        if !is_listed(&kept, &targets[i], record_type) {
            kept.push(targets[i].clone());
            assert(kept.deep_view() =~= before.push(all[i as int]));
        }
    }
    assert(all.take(all.len() as int) =~= all);
    kept
}

/// Tells the targets that are in `others` from those that are not.
pub open spec fn in_common(
    others: Seq<Seq<char>>,
    record_type: Seq<char>,
    common: bool,
) -> spec_fn(Seq<char>) -> bool {
    |t: Seq<char>| listed(others, t, record_type) == common
}

/// The targets that are in `others` too, or those that are not, each once.
pub open spec fn compared(
    targets: Seq<Seq<char>>,
    others: Seq<Seq<char>>,
    record_type: Seq<char>,
    common: bool,
) -> Seq<Seq<char>> {
    distinct(targets.filter(in_common(others, record_type, common)), record_type)
}

/// The targets that are in `others` too, or those that are not, each once.
pub fn compare_targets(
    targets: &Vec<String>,
    others: &Vec<String>,
    record_type: &str,
    common: bool,
) -> (r: Vec<String>)
    ensures
        r.deep_view() == compared(targets.deep_view(), others.deep_view(), record_type@, common),
{
    let ghost all = targets.deep_view();
    let ghost pred = in_common(others.deep_view(), record_type@, common);
    let mut chosen: Vec<String> = Vec::new();
    proof {
        reveal(Seq::filter);
        assert(chosen.deep_view() =~= all.take(0).filter(pred));
    }
    for i in 0..targets.len()
        invariant
            all == targets.deep_view(),
            pred == in_common(others.deep_view(), record_type@, common),
            chosen.deep_view() == all.take(i as int).filter(pred),
    {
        let ghost before = chosen.deep_view();
        proof {
            assert(all.take(i + 1) =~= all.take(i as int).push(all[i as int]));
            all.take(i as int).lemma_filter_push(all[i as int], pred);
        }
        if is_listed(others, &targets[i], record_type) == common {
            chosen.push(targets[i].clone());
            assert(chosen.deep_view() =~= before.push(all[i as int]));
        }
    }
    assert(all.take(all.len() as int) =~= all);
    unique_targets(&chosen, record_type)
}

/// What the endpoint wants a record with the target `t` in `zone` to hold.
pub open spec fn wanted(
    zone: Seq<char>,
    e: EndpointView,
    prio: Option<u32>,
    t: Seq<char>,
) -> ParamsView {
    ParamsView {
        subdomain: rules::subdomain_of(e.dns_name, zone),
        record_type: e.record_type,
        content: t,
        ttl: rules::ttl_of(e.record_ttl),
        prio,
    }
}

/// The settings of the record agree with those that the endpoint asks for.
pub open spec fn settled(e: EndpointView, prio: Option<u32>, r: RecordView) -> bool {
    rules::agree(r.ttl_u32(), rules::ttl_of(e.record_ttl)) && rules::agree(r.prio_u32(), prio)
}

/// Whether the settings of the record agree with those that the endpoint asks for.
pub fn is_settled(endpoint: &Endpoint, prio: Option<u32>, record: &DnsRecord) -> (r: bool)
    ensures
        r == settled(endpoint@, prio, record@),
{
    rules::ttl_effectively_equal(record.ttl_u32(), rules::endpoint_ttl(endpoint))
        && rules::prio_effectively_equal(record.prio_u32(), prio)
}

/// The record provides what the endpoint wants for the target `t`.
pub open spec fn provides(e: EndpointView, prio: Option<u32>, r: RecordView, t: Seq<char>) -> bool {
    rules::same_target(r.content, t, e.record_type) && settled(e, prio, r)
}

/// Some record provides what the endpoint wants for the target `t`.
pub open spec fn provided(
    existing: Seq<RecordView>,
    e: EndpointView,
    prio: Option<u32>,
    t: Seq<char>,
) -> bool {
    exists|i: int| 0 <= i < existing.len() && #[trigger] provides(e, prio, existing[i], t)
}

/// Whether some record provides what the endpoint wants for the target.
pub fn is_provided(
    existing: &Vec<&DnsRecord>,
    endpoint: &Endpoint,
    prio: Option<u32>,
    target: &str,
) -> (r: bool)
    ensures
        r == provided(existing.deep_view(), endpoint@, prio, target@),
{
    let ghost all = existing.deep_view();
    for i in 0..existing.len()
        invariant
            all == existing.deep_view(),
            forall|j: int| 0 <= j < i ==> !#[trigger] provides(endpoint@, prio, all[j], target@),
    {
        let record: &DnsRecord = existing[i];
        assert(all[i as int] == record@);
        if rules::targets_match(&record.content, target, &endpoint.record_type) && is_settled(
            endpoint,
            prio,
            record,
        ) {
            assert(provides(endpoint@, prio, all[i as int], target@));
            return true;
        }
    }
    false
}

/// The addition that a target calls for: none where a record provides for it.
pub open spec fn addition(
    existing: Seq<RecordView>,
    zone: Seq<char>,
    e: EndpointView,
    prio: Option<u32>,
) -> spec_fn(Seq<char>) -> Option<MutationView> {
    |t: Seq<char>|
        if provided(existing, e, prio, t) {
            None
        } else {
            Some(MutationView::Add { zone, params: wanted(zone, e, prio, t) })
        }
}

/// The additions that `targets` call for where the zone holds `records`.
pub open spec fn additions(
    records: Seq<RecordView>,
    zone: Seq<char>,
    e: EndpointView,
    prio: Option<u32>,
    targets: Seq<Seq<char>>,
) -> Seq<MutationView> {
    targets.filter_map(addition(matching(records, zone, e), zone, e, prio))
}

/// The additions that `targets` call for where the zone holds `records`.
pub fn plan_additions(
    records: &Vec<DnsRecord>,
    zone: &str,
    endpoint: &Endpoint,
    prio: Option<u32>,
    targets: &Vec<String>,
) -> (r: Vec<Mutation>)
    ensures
        r.deep_view() == additions(
            records.deep_view(),
            zone@,
            endpoint@,
            prio,
            targets.deep_view(),
        ),
{
    let existing = list_matching_records(zone, endpoint, records);
    let subdomain = rules::to_porkbun_subdomain(&endpoint.dns_name, zone);
    let ttl = rules::endpoint_ttl(endpoint);
    let ghost all = targets.deep_view();
    let ghost f = addition(existing.deep_view(), zone@, endpoint@, prio);
    let mut plan: Vec<Mutation> = Vec::new();
    assert(plan.deep_view() =~= all.take(0).filter_map(f));
    for i in 0..targets.len()
        invariant
            all == targets.deep_view(),
            f == addition(existing.deep_view(), zone@, endpoint@, prio),
            subdomain@ == rules::subdomain_of(endpoint@.dns_name, zone@),
            ttl == rules::ttl_of(endpoint@.record_ttl),
            plan.deep_view() == all.take(i as int).filter_map(f),
    {
        let ghost before = plan.deep_view();
        proof {
            all.lemma_filter_map_take_succ(f, i as int);
            assert(all[i as int] == targets[i as int]@);
        }
        if !is_provided(&existing, endpoint, prio, &targets[i]) {
            let mutation = Mutation::Add {
                zone: zone.to_owned(),
                params: CreateDnsParams {
                    subdomain: subdomain.clone(),
                    record_type: endpoint.record_type.clone(),
                    content: targets[i].clone(),
                    ttl,
                    prio,
                },
            };
            assert(Some(mutation@) == f(all[i as int]));
            plan.push(mutation);
            assert(plan.deep_view() =~= before.push(mutation@));
        }
    }
    assert(all.take(all.len() as int) =~= all);
    plan
}

/// The mutations that create the endpoint: one addition for each of its targets that no
/// record provides for.
pub open spec fn creation(
    records: Seq<RecordView>,
    zone: Seq<char>,
    e: EndpointView,
    prio: Option<u32>,
) -> Seq<MutationView> {
    additions(records, zone, e, prio, distinct(e.targets, e.record_type))
}

/// The mutations that create the endpoint.
pub fn plan_creation(
    records: &Vec<DnsRecord>,
    zone: &str,
    endpoint: &Endpoint,
    prio: Option<u32>,
) -> (r: Vec<Mutation>)
    ensures
        r.deep_view() == creation(records.deep_view(), zone@, endpoint@, prio),
{
    let targets = unique_targets(&endpoint.targets, &endpoint.record_type);
    plan_additions(records, zone, endpoint, prio, &targets)
}

/// The removal that a record calls for where all records with a target in `targets` go.
pub open spec fn removal(
    zone: Seq<char>,
    targets: Seq<Seq<char>>,
    record_type: Seq<char>,
) -> spec_fn(RecordView) -> Option<MutationView> {
    |r: RecordView|
        if listed(targets, r.content, record_type) {
            Some(MutationView::Remove { zone, id: r.id })
        } else {
            None
        }
}

/// The mutations that delete the endpoint: one removal for each of its records that has
/// one of its targets.
pub open spec fn deletion(
    records: Seq<RecordView>,
    zone: Seq<char>,
    e: EndpointView,
) -> Seq<MutationView> {
    matching(records, zone, e).filter_map(removal(zone, e.targets, e.record_type))
}

/// The mutations that delete the endpoint.
pub fn plan_deletion(records: &Vec<DnsRecord>, zone: &str, endpoint: &Endpoint) -> (r: Vec<
    Mutation,
>)
    ensures
        r.deep_view() == deletion(records.deep_view(), zone@, endpoint@),
{
    let existing = list_matching_records(zone, endpoint, records);
    let ghost all = existing.deep_view();
    let ghost f = removal(zone@, endpoint@.targets, endpoint@.record_type);
    let mut plan: Vec<Mutation> = Vec::new();
    assert(plan.deep_view() =~= all.take(0).filter_map(f));
    for i in 0..existing.len()
        invariant
            all == existing.deep_view(),
            f == removal(zone@, endpoint@.targets, endpoint@.record_type),
            plan.deep_view() == all.take(i as int).filter_map(f),
    {
        let ghost before = plan.deep_view();
        let record: &DnsRecord = existing[i];
        proof {
            all.lemma_filter_map_take_succ(f, i as int);
            assert(all[i as int] == record@);
        }
        if is_listed(&endpoint.targets, &record.content, &endpoint.record_type) {
            let mutation = Mutation::Remove { zone: zone.to_owned(), id: record.id.clone() };
            assert(Some(mutation@) == f(all[i as int]));
            plan.push(mutation);
            assert(plan.deep_view() =~= before.push(mutation@));
        }
    }
    assert(all.take(all.len() as int) =~= all);
    plan
}

/// The removals of the records of `existing` with the target.
pub open spec fn removals_of(
    existing: Seq<RecordView>,
    zone: Seq<char>,
    record_type: Seq<char>,
) -> spec_fn(Seq<char>) -> Seq<MutationView> {
    |t: Seq<char>| existing.filter_map(removal(zone, seq![t], record_type))
}

/// The removals with which an update from `old` to `new` begins: the records with a target
/// that is in `old` but not in `new`.
pub open spec fn update_removals(
    records: Seq<RecordView>,
    zone: Seq<char>,
    old: EndpointView,
    new: EndpointView,
) -> Seq<MutationView> {
    compared(old.targets, new.targets, new.record_type, false).flat_map(
        removals_of(matching(records, zone, old), zone, new.record_type),
    )
}

/// The edit that a record with the target `t` calls for: none where its settings agree
/// with those that the endpoint asks for.
pub open spec fn edit(
    zone: Seq<char>,
    e: EndpointView,
    prio: Option<u32>,
    t: Seq<char>,
) -> spec_fn(RecordView) -> Option<MutationView> {
    |r: RecordView|
        if rules::same_target(r.content, t, e.record_type) && !settled(e, prio, r) {
            Some(MutationView::Edit { zone, id: r.id, params: wanted(zone, e, prio, t) })
        } else {
            None
        }
}

/// The edits of the records of `existing` with the target.
pub open spec fn edits_of(
    existing: Seq<RecordView>,
    zone: Seq<char>,
    e: EndpointView,
    prio: Option<u32>,
) -> spec_fn(Seq<char>) -> Seq<MutationView> {
    |t: Seq<char>| existing.filter_map(edit(zone, e, prio, t))
}

/// The edits that follow the removals in an update from `old` to `new`: the records with a
/// target of both whose settings do not agree with those that `new` asks for.
pub open spec fn update_edits(
    records: Seq<RecordView>,
    zone: Seq<char>,
    old: EndpointView,
    new: EndpointView,
    prio: Option<u32>,
) -> Seq<MutationView> {
    compared(new.targets, old.targets, new.record_type, true).flat_map(
        edits_of(matching(records, zone, old), zone, new, prio),
    )
}

/// The targets that an update from `old` to `new` adds: those in `new` but not in `old`.
pub open spec fn added_targets(old: EndpointView, new: EndpointView) -> Seq<Seq<char>> {
    compared(new.targets, old.targets, new.record_type, false)
}

/// The additions with which an update from `old` to `new` ends.
pub open spec fn update_additions(
    records: Seq<RecordView>,
    zone: Seq<char>,
    old: EndpointView,
    new: EndpointView,
    prio: Option<u32>,
) -> Seq<MutationView> {
    additions(records, zone, new, prio, added_targets(old, new))
}

/// Appends the removals of the records with the target.
fn push_removals(
    existing: &Vec<&DnsRecord>,
    zone: &str,
    record_type: &str,
    target: &str,
    plan: &mut Vec<Mutation>,
)
    ensures
        final(plan).deep_view() == old(plan).deep_view() + removals_of(
            existing.deep_view(),
            zone@,
            record_type@,
        )(target@),
{
    let ghost all = existing.deep_view();
    let ghost f = removal(zone@, seq![target@], record_type@);
    let ghost start = plan.deep_view();
    assert(start =~= start + all.take(0).filter_map(f));
    for i in 0..existing.len()
        invariant
            all == existing.deep_view(),
            f == removal(zone@, seq![target@], record_type@),
            plan.deep_view() == start + all.take(i as int).filter_map(f),
    {
        let ghost before = plan.deep_view();
        let record: &DnsRecord = existing[i];
        proof {
            all.lemma_filter_map_take_succ(f, i as int);
            assert(all[i as int] == record@);
            assert(seq![target@][0] == target@);
        }
        if rules::targets_match(&record.content, target, record_type) {
            let mutation = Mutation::Remove { zone: zone.to_owned(), id: record.id.clone() };
            assert(rules::same_target(seq![target@][0], record@.content, record_type@));
            assert(Some(mutation@) == f(all[i as int]));
            plan.push(mutation);
            assert(plan.deep_view() =~= before.push(mutation@));
        }
        assert(plan.deep_view() =~= start + all.take(i + 1).filter_map(f));
    }
    assert(all.take(all.len() as int) =~= all);
}

/// The removals with which an update from `old` to `new` begins.
pub fn plan_update_removals(
    records: &Vec<DnsRecord>,
    zone: &str,
    old_endpoint: &Endpoint,
    new_endpoint: &Endpoint,
) -> (r: Vec<Mutation>)
    ensures
        r.deep_view() == update_removals(
            records.deep_view(),
            zone@,
            old_endpoint@,
            new_endpoint@,
        ),
{
    let existing = list_matching_records(zone, old_endpoint, records);
    let record_type: &str = new_endpoint.record_type.as_str();
    let targets = compare_targets(&old_endpoint.targets, &new_endpoint.targets, record_type, false);
    let ghost all = targets.deep_view();
    let ghost f = removals_of(existing.deep_view(), zone@, record_type@);
    let mut plan: Vec<Mutation> = Vec::new();
    assert(plan.deep_view() =~= all.take(0).flat_map(f));
    for i in 0..targets.len()
        invariant
            all == targets.deep_view(),
            f == removals_of(existing.deep_view(), zone@, record_type@),
            plan.deep_view() == all.take(i as int).flat_map(f),
    {
        proof {
            all.lemma_flat_map_take_append(f, i as int);
            assert(all[i as int] == targets[i as int]@);
        }
        push_removals(&existing, zone, record_type, &targets[i], &mut plan);
    }
    assert(all.take(all.len() as int) =~= all);
    plan
}

/// Appends the edits of the records with the target.
fn push_edits(
    existing: &Vec<&DnsRecord>,
    zone: &str,
    endpoint: &Endpoint,
    prio: Option<u32>,
    target: &str,
    plan: &mut Vec<Mutation>,
)
    ensures
        final(plan).deep_view() == old(plan).deep_view() + edits_of(
            existing.deep_view(),
            zone@,
            endpoint@,
            prio,
        )(target@),
{
    let ghost all = existing.deep_view();
    let ghost f = edit(zone@, endpoint@, prio, target@);
    let ghost start = plan.deep_view();
    assert(start =~= start + all.take(0).filter_map(f));
    for i in 0..existing.len()
        invariant
            all == existing.deep_view(),
            f == edit(zone@, endpoint@, prio, target@),
            plan.deep_view() == start + all.take(i as int).filter_map(f),
    {
        let ghost before = plan.deep_view();
        let record: &DnsRecord = existing[i];
        proof {
            all.lemma_filter_map_take_succ(f, i as int);
            assert(all[i as int] == record@);
        }
        if rules::targets_match(&record.content, target, &endpoint.record_type) && !is_settled(
            endpoint,
            prio,
            record,
        ) {
            let mutation = Mutation::Edit {
                zone: zone.to_owned(),
                id: record.id.clone(),
                params: EditDnsParams {
                    subdomain: rules::to_porkbun_subdomain(&endpoint.dns_name, zone),
                    record_type: endpoint.record_type.clone(),
                    content: target.to_owned(),
                    ttl: rules::endpoint_ttl(endpoint),
                    prio,
                },
            };
            assert(Some(mutation@) == f(all[i as int]));
            plan.push(mutation);
            assert(plan.deep_view() =~= before.push(mutation@));
        }
        assert(plan.deep_view() =~= start + all.take(i + 1).filter_map(f));
    }
    assert(all.take(all.len() as int) =~= all);
}

/// The edits that follow the removals in an update from `old` to `new`.
pub fn plan_update_edits(
    records: &Vec<DnsRecord>,
    zone: &str,
    old_endpoint: &Endpoint,
    new_endpoint: &Endpoint,
    prio: Option<u32>,
) -> (r: Vec<Mutation>)
    ensures
        r.deep_view() == update_edits(
            records.deep_view(),
            zone@,
            old_endpoint@,
            new_endpoint@,
            prio,
        ),
{
    let existing = list_matching_records(zone, old_endpoint, records);
    let targets = compare_targets(
        &new_endpoint.targets,
        &old_endpoint.targets,
        &new_endpoint.record_type,
        true,
    );
    let ghost all = targets.deep_view();
    let ghost f = edits_of(existing.deep_view(), zone@, new_endpoint@, prio);
    let mut plan: Vec<Mutation> = Vec::new();
    assert(plan.deep_view() =~= all.take(0).flat_map(f));
    for i in 0..targets.len()
        invariant
            all == targets.deep_view(),
            f == edits_of(existing.deep_view(), zone@, new_endpoint@, prio),
            plan.deep_view() == all.take(i as int).flat_map(f),
    {
        proof {
            all.lemma_flat_map_take_append(f, i as int);
            assert(all[i as int] == targets[i as int]@);
        }
        push_edits(&existing, zone, new_endpoint, prio, &targets[i], &mut plan);
    }
    assert(all.take(all.len() as int) =~= all);
    plan
}

/// The targets that an update from `old` to `new` adds.
pub fn list_added_targets(old_endpoint: &Endpoint, new_endpoint: &Endpoint) -> (r: Vec<String>)
    ensures
        r.deep_view() == added_targets(old_endpoint@, new_endpoint@),
{
    compare_targets(
        &new_endpoint.targets,
        &old_endpoint.targets,
        &new_endpoint.record_type,
        false,
    )
}

/// The additions with which an update from `old` to `new` ends.
pub fn plan_update_additions(
    records: &Vec<DnsRecord>,
    zone: &str,
    old_endpoint: &Endpoint,
    new_endpoint: &Endpoint,
    prio: Option<u32>,
) -> (r: Vec<Mutation>)
    ensures
        r.deep_view() == update_additions(
            records.deep_view(),
            zone@,
            old_endpoint@,
            new_endpoint@,
            prio,
        ),
{
    let targets = list_added_targets(old_endpoint, new_endpoint);
    plan_additions(records, zone, new_endpoint, prio, &targets)
}

} // verus!

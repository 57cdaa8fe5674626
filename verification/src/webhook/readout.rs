//! What reading shows, told by the records themselves.
use crate::error::ErrorView;
use crate::number;
use crate::porkbun::types::RecordView;
use crate::text;
use crate::webhook::outcome;
use crate::webhook::records;
use crate::webhook::records::{ReadActionView, ReadingView};
use crate::webhook::types;
use crate::webhook::types::EndpointView;
use vstd::prelude::*;

verus! {

/// The full name of a record of the zone: that of the zone where it has none or that of the
/// zone, its own where it ends with a dot and that of the zone, and otherwise both with a
/// dot between them.
pub open spec fn listed_name(name: Seq<char>, zone: Seq<char>) -> Seq<char> {
    if name.len() == 0 {
        text::lower(zone)
    } else if outcome::lies_in(text::lower(name), text::lower(zone)) {
        text::lower(name)
    } else {
        text::lower(name) + seq!['.'] + text::lower(zone)
    }
}

/// The endpoint shows the record: its full name and its type, its content among the targets,
/// and its time to live and priority, where it tells them.
pub open spec fn shows_record(e: EndpointView, zone: Seq<char>, r: RecordView) -> bool {
    &&& e.dns_name == listed_name(r.name, zone)
    &&& e.record_type == r.record_type
    &&& e.targets.contains(r.content)
    &&& forall|n: u32| #[trigger] outcome::gives(r.ttl, n) <==> e.record_ttl == Some(n as i64)
    &&& e.record_ttl is Some ==> 0 <= e.record_ttl->0 <= u32::MAX
    &&& forall|n: u32| #[trigger] outcome::gives(r.prio, n) <==> outcome::asks_prio(e, n)
    &&& e.provider_specific.len() <= 1
    &&& e.set_identifier is None
    &&& e.labels == Map::<String, String>::empty()
}

/// Records are listed under their full names.
pub proof fn full_names_are_listed(name: Seq<char>, zone: Seq<char>)
    ensures
        types::full_name(name, zone) == listed_name(name, zone),
{
    let n = text::lower(name);
    let z = text::lower(zone);
    text::under_is_below_a_dot(n, z);
    if outcome::lies_in(n, z) && n != z {
        let front = n.take(n.len() - z.len() - 1);
        text::under_is_below_a_dot(front, z);
        assert(n =~= front + seq!['.'] + n.skip(n.len() - z.len()));
    }
    if text::has_suffix(n, seq!['.'] + z) && n != z {
        let front = n.take(n.len() - z.len() - 1);
        assert(n == front + seq!['.'] + z);
        assert(n[n.len() - z.len() - 1] == (front + seq!['.'] + z)[front.len() as int]);
        assert(n.skip(n.len() - z.len()) =~= z);
    }
    assert(n + (seq!['.'] + z) =~= n + seq!['.'] + z);
}

proof fn priority_is_shown(prio: Option<u32>, e: EndpointView, n: u32)
    requires
        e.provider_specific == types::priority_property(prio),
    ensures
        outcome::asks_prio(e, n) <==> prio == Some(n),
{
    let all = e.provider_specific;
    match prio {
        Some(p) => {
            number::decimal_is_worth_number(p as nat);
            assert(outcome::is_priority(all, 0));
            outcome::priority_is_what_is_asked_for(e, n);
            outcome::priority_is_what_is_asked_for(e, p);
            assert(outcome::asks_prio(e, p));
        },
        None => {},
    }
}

proof fn record_is_shown(e: EndpointView, zone: Seq<char>, r: RecordView)
    requires
        e == (EndpointView { targets: e.targets, ..types::endpoint_of(r, zone) }),
        e.targets.contains(r.content),
    ensures
        shows_record(e, zone, r),
{
    full_names_are_listed(r.name, zone);
    assert forall|n: u32| #[trigger] outcome::gives(r.ttl, n) <==> e.record_ttl == Some(
        n as i64,
    ) by {
        if r.ttl is Some {
            number::u32_is_read_as_written(r.ttl->0, n);
        }
    }
    assert forall|n: u32| #[trigger] outcome::gives(r.prio, n) <==> outcome::asks_prio(e, n) by {
        if r.prio is Some {
            number::u32_is_read_as_written(r.prio->0, n);
        }
        priority_is_shown(r.prio_u32(), e, n);
    }
}

/// Of the records of a zone there is something to show.
pub proof fn endpoints_are_shown(reading: Seq<RecordView>, zone: Seq<char>)
    ensures
        records::shows(reading, zone, records::endpoints_of(reading, zone)),
{
    types::grouping_exists(reading.filter(records::managed()), zone);
    let shown = choose|shown: Seq<EndpointView>|
        types::grouped(reading.filter(records::managed()), zone, shown);
    assert(records::shows(reading, zone, shown));
}

/// The same group is shown by the same endpoint.
proof fn group_shows_record(
    some: Seq<RecordView>,
    zone: Seq<char>,
    firsts: Seq<int>,
    shown: Seq<EndpointView>,
    k: int,
    j: int,
)
    requires
        types::shows_groups(some, zone, firsts, shown),
        0 <= k < shown.len(),
        0 <= j < some.len(),
        types::key_of(some[j], zone) == types::key_of(some[firsts[k]], zone),
    ensures
        shows_record(shown[k], zone, some[j]),
{
    let f = firsts[k];
    assert(types::shows_group(some, zone, firsts[k], shown[k]));
    let key = types::key_of(some[f], zone);
    assert(types::group_holds(some, zone, key, some[j].content));
    assert(shown[k].targets.contains(some[j].content));
    record_is_shown(shown[k], zone, some[j]);
}

/// Every record of a documented type is shown by some endpoint.
pub proof fn every_record_is_shown(reading: Seq<RecordView>, zone: Seq<char>, i: int)
    requires
        0 <= i < reading.len(),
        outcome::documented_type(reading[i].record_type),
    ensures
        exists|k: int|
            0 <= k < records::endpoints_of(reading, zone).len() && shows_record(
                #[trigger] records::endpoints_of(reading, zone)[k],
                zone,
                reading[i],
            ),
{
    let shown = records::endpoints_of(reading, zone);
    let some = reading.filter(records::managed());
    endpoints_are_shown(reading, zone);
    outcome::managed_types_are_documented(reading[i].record_type);
    reading.lemma_filter_contains(records::managed(), i);
    let j = choose|j: int| 0 <= j < some.len() && some[j] == reading[i];
    let firsts = choose|firsts: Seq<int>| types::shows_groups(some, zone, firsts, shown);
    let f = types::lemma_first_exists(some, zone, j);
    assert(firsts.contains(f));
    let k = choose|k: int| 0 <= k < firsts.len() && firsts[k] == f;
    group_shows_record(some, zone, firsts, shown, k, j);
}

/// Every target that is shown is the content of a record of a documented type that the
/// endpoint shows.
pub proof fn nothing_else_is_shown(reading: Seq<RecordView>, zone: Seq<char>, k: int, t: Seq<char>)
    requires
        0 <= k < records::endpoints_of(reading, zone).len(),
        records::endpoints_of(reading, zone)[k].targets.contains(t),
    ensures
        exists|i: int|
            0 <= i < reading.len() && shows_record(
                records::endpoints_of(reading, zone)[k],
                zone,
                #[trigger] reading[i],
            ) && reading[i].content == t && outcome::documented_type(reading[i].record_type),
{
    let shown = records::endpoints_of(reading, zone);
    let some = reading.filter(records::managed());
    endpoints_are_shown(reading, zone);
    let firsts = choose|firsts: Seq<int>| types::shows_groups(some, zone, firsts, shown);
    assert(types::shows_group(some, zone, firsts[k], shown[k]));
    let key = types::key_of(some[firsts[k]], zone);
    assert(types::group_holds(some, zone, key, t));
    let j = choose|j: int|
        0 <= j < some.len() && types::key_of(#[trigger] some[j], zone) == key && some[j].content
            == t;
    group_shows_record(some, zone, firsts, shown, k, j);
    assert(some.contains(some[j]));
    reading.lemma_filter_contains_rev(records::managed(), some[j]);
    reading.lemma_filter_pred(records::managed(), j);
    outcome::managed_types_are_documented(some[j].record_type);
    let i = choose|i: int| 0 <= i < reading.len() && reading[i] == some[j];
    assert(shows_record(shown[k], zone, reading[i]));
}

/// Endpoints are shown by name and then by type, with a target at least and their targets in
/// order, and no two of them have all of name, type, time to live and priority in common.
pub proof fn endpoints_are_shown_in_order(reading: Seq<RecordView>, zone: Seq<char>, k: int, l: int)
    requires
        0 <= k < l < records::endpoints_of(reading, zone).len(),
    ensures
        ({
            let a = records::endpoints_of(reading, zone)[k];
            let b = records::endpoints_of(reading, zone)[l];
            &&& text::text_before(a.dns_name, b.dns_name) || a.dns_name == b.dns_name && (
            text::text_before(a.record_type, b.record_type) || a.record_type == b.record_type)
            &&& !(a.dns_name == b.dns_name && a.record_type == b.record_type && a.record_ttl
                == b.record_ttl && a.provider_specific == b.provider_specific)
            &&& a.targets.len() > 0 && b.targets.len() > 0
            &&& forall|i: int, j: int|
                0 <= i < j < a.targets.len() ==> text::text_before(
                    #[trigger] a.targets[i],
                    #[trigger] a.targets[j],
                )
            &&& forall|i: int, j: int|
                0 <= i < j < b.targets.len() ==> text::text_before(
                    #[trigger] b.targets[i],
                    #[trigger] b.targets[j],
                )
        }),
{
    let shown = records::endpoints_of(reading, zone);
    let some = reading.filter(records::managed());
    endpoints_are_shown(reading, zone);
    let firsts = choose|firsts: Seq<int>| types::shows_groups(some, zone, firsts, shown);
    assert(types::shows_group(some, zone, firsts[k], shown[k]));
    assert(types::shows_group(some, zone, firsts[l], shown[l]));
    assert(types::first_of_group(some, zone, firsts[k]));
    assert(types::first_of_group(some, zone, firsts[l]));
    assert(types::group_before(some, zone, firsts[k], firsts[l]));
    types::lemma_first_distinct(some, zone, firsts, shown, k, l);
    let a = some[firsts[k]];
    let b = some[firsts[l]];
    group_shows_record(some, zone, firsts, shown, k, firsts[k]);
    group_shows_record(some, zone, firsts, shown, l, firsts[l]);
    if shown[k].provider_specific == shown[l].provider_specific {
        if a.prio_u32() is Some {
            priority_is_shown(a.prio_u32(), shown[k], a.prio_u32()->0);
            priority_is_shown(b.prio_u32(), shown[l], a.prio_u32()->0);
            assert(outcome::asks_prio(shown[k], a.prio_u32()->0) == outcome::asks_prio(
                shown[l],
                a.prio_u32()->0,
            ));
        } else {
            assert(shown[k].provider_specific.len() == 0);
        }
        assert(a.prio_u32() == b.prio_u32());
    }
}

/// The failure concerns one zone alone: the service would not do it, or does not let the zone
/// be managed.
pub open spec fn of_one_zone(e: ErrorView) -> bool {
    e is PorkbunApi || e is DomainNotAllowed
}

/// Reading one zone returns what its reply shows, and fails with any failure of the reply,
/// also one that would only skip the zone where all zones are read.
pub proof fn one_zone_is_read_or_fails(
    zone: Seq<char>,
    reply: Result<Seq<RecordView>, ErrorView>,
)
    ensures
        reply matches Err(e) ==> records::read_records(ReadingView::One(zone), reply).action
            == ReadActionView::Finish(Err(e)),
        reply matches Ok(reading) ==> records::read_records(ReadingView::One(zone), reply).action
            == ReadActionView::Finish(Ok(records::endpoints_of(reading, zone))),
        records::read_records(ReadingView::One(zone), reply).reading is Over,
{
}

/// Reading begins with the zone that is asked for, which must be managed, or with the first
/// of all zones; without a filter, with the managed domains.
pub proof fn reading_begins(name: Seq<char>, zones: Seq<Seq<char>>)
    ensures
        zones.contains(text::normalized(name)) ==> records::read_start(
            Some(zones),
            Some(name),
        ).action == ReadActionView::ListRecords(text::normalized(name)) && records::read_start(
            Some(zones),
            Some(name),
        ).reading == ReadingView::One(text::normalized(name)),
        !zones.contains(text::normalized(name)) ==> records::read_start(
            Some(zones),
            Some(name),
        ).action == ReadActionView::Finish(
            Err(
                ErrorView::DomainNotAllowed(text::normalized(name) + " is not a managed zone"@),
            ),
        ),
        zones.len() > 0 ==> records::read_start(Some(zones), None).action
            == ReadActionView::ListRecords(zones[0]),
        zones.len() == 0 ==> records::read_start(Some(zones), None).action
            == ReadActionView::Finish(Ok(Seq::empty())),
        records::read_start(None, Some(name)).action is ManagedDomains,
        records::read_start(None, None).action is ManagedDomains,
        records::read_domains(records::read_start(None, Some(name)).reading, Ok(zones))
            == records::read_start(Some(zones), Some(name)),
        records::read_domains(records::read_start(None, None).reading, Ok(zones))
            == records::read_start(Some(zones), None),
{
}

/// Where the managed domains cannot be told, reading fails with the failure.
pub proof fn failure_of_domains_ends_reading(reading: ReadingView, e: ErrorView)
    ensures
        records::read_domains(reading, Err(e)).action == ReadActionView::Finish(Err(e)),
        records::read_domains(reading, Err(e)).reading is Over,
{
}

proof fn along_goes_on(
    zones: Seq<Seq<char>>,
    replies: Seq<Result<Seq<RecordView>, ErrorView>>,
    k: int,
)
    requires
        0 <= k < zones.len() == replies.len(),
        forall|j: int| 0 <= j < k ==> (#[trigger] replies[j] matches Err(e) ==> of_one_zone(e)),
    ensures
        ({
            let step = records::read_along(zones, replies, k);
            &&& step.reading is All
            &&& step.reading->All_zones == zones
            &&& step.reading->All_done == k
            &&& step.reading->All_endpoints == records::all_read(zones, replies, k)
            &&& step.reading->All_skipped == records::skipped_in(replies, k)
            &&& step.action == ReadActionView::ListRecords(zones[k])
        }),
    decreases k,
{
    if k > 0 {
        along_goes_on(zones, replies, k - 1);
        assert(replies[k - 1] matches Err(e) ==> of_one_zone(e));
        if replies[k - 1] is Err {
            assert(records::all_read(zones, replies, k) =~= records::all_read(
                zones,
                replies,
                k - 1,
            ));
        }
    }
}

/// All zones are read one after the other: each is listed in turn, as long as no failure but
/// one that concerns a zone alone is met, and the first other failure ends reading.
pub proof fn zones_are_read_in_turn(
    zones: Seq<Seq<char>>,
    replies: Seq<Result<Seq<RecordView>, ErrorView>>,
    k: int,
)
    requires
        0 <= k < zones.len() == replies.len(),
        forall|j: int| 0 <= j < k ==> (#[trigger] replies[j] matches Err(e) ==> of_one_zone(e)),
    ensures
        records::read_along(zones, replies, k).action == ReadActionView::ListRecords(zones[k]),
        replies[k] matches Err(e) ==> !of_one_zone(e) ==> records::read_along(
            zones,
            replies,
            k + 1,
        ).action == ReadActionView::Finish(Err(e)),
{
    along_goes_on(zones, replies, k);
}

/// Where all zones are replied for and no failure but such that concern a zone alone is met,
/// reading returns the endpoints of the zones that could be read, in the order of the zones;
/// it fails where there are zones and none of them could be read.
pub proof fn all_zones_are_read_or_none(
    zones: Seq<Seq<char>>,
    replies: Seq<Result<Seq<RecordView>, ErrorView>>,
)
    requires
        zones.len() == replies.len(),
        forall|j: int|
            0 <= j < replies.len() ==> (#[trigger] replies[j] matches Err(e) ==> of_one_zone(e)),
    ensures
        (exists|k: int| 0 <= k < replies.len() && (#[trigger] replies[k]) is Ok)
            ==> records::read_along(zones, replies, zones.len() as int).action
            == ReadActionView::Finish(
            Ok(records::all_read(zones, replies, zones.len() as int)),
        ),
        zones.len() > 0 && (forall|k: int|
            0 <= k < replies.len() ==> (#[trigger] replies[k]) is Err) ==> records::read_along(
            zones,
            replies,
            zones.len() as int,
        ).action == ReadActionView::Finish(
            Err(
                ErrorView::PorkbunApi(
                    "All "@ + number::decimal(zones.len())
                        + " zones failed during record retrieval ("@ + number::decimal(zones.len())
                        + " skipped)"@,
                ),
            ),
        ),
{
    let n = zones.len() as int;
    assert forall|j: int| 0 <= j < replies.len() implies (#[trigger] replies[j] matches Err(e)
        ==> records::skippable(e)) by {
        assert(replies[j] matches Err(e) ==> of_one_zone(e));
    }
    if exists|k: int| 0 <= k < replies.len() && (#[trigger] replies[k]) is Ok {
        records::all_zones_are_read(zones, replies);
    }
    if n > 0 && (forall|k: int| 0 <= k < replies.len() ==> (#[trigger] replies[k]) is Err) {
        assert forall|k: int| 0 <= k < replies.len() implies (#[trigger] replies[k] matches Err(e)
            && records::skippable(e)) by {
            assert(replies[k] is Err);
        }
        records::no_zone_read_is_failure(zones, replies);
    }
}



} // verus!

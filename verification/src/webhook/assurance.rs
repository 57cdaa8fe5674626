//! What is promised of a whole request for changes, told by its endpoints themselves.
use crate::config::Config;
use crate::error::ErrorView;
use crate::number;
use crate::porkbun::types::RecordView;
use crate::text;
use crate::webhook::agenda;
use crate::webhook::agenda::{
    Advance, ApplyActionView, ApplyEventView, Policy, RunView, Slot, StepView, TaskView,
};
use crate::webhook::conduct;
use crate::webhook::laws;
use crate::webhook::outcome;
use crate::webhook::plan;
use crate::webhook::request;
use crate::webhook::request::Moment;
use crate::webhook::retry;
use crate::webhook::rules;
use crate::webhook::types::{ChangesView, EndpointView};
use vstd::prelude::*;

verus! {

/// The text shows nothing.
pub open spec fn blank(t: Seq<char>) -> bool {
    forall|i: int| 0 <= i < t.len() ==> text::unseen(#[trigger] t[i] as int)
}

/// The endpoint has a documented type and targets, none of which is blank.
pub open spec fn well_formed(e: EndpointView) -> bool {
    &&& outcome::documented_type(e.record_type)
    &&& e.targets.len() > 0
    &&& forall|i: int| 0 <= i < e.targets.len() ==> !blank(#[trigger] e.targets[i])
}

/// The endpoint's name lies in one of the zones, and a priority that it has is a number.
pub open spec fn placed(zones: Seq<Seq<char>>, e: EndpointView) -> bool {
    &&& exists|i: int|
        0 <= i < zones.len() && outcome::lies_in(
            text::normalized(e.dns_name),
            #[trigger] zones[i],
        )
    &&& forall|i: int| #[trigger]
        outcome::is_priority(e.provider_specific, i) ==> exists|n: u32| #[trigger]
            number::writes(e.provider_specific[i].value, n as nat)
}

/// Nothing is wrong with the endpoint where these zones are managed.
pub open spec fn acceptable(zones: Seq<Seq<char>>, e: EndpointView) -> bool {
    well_formed(e) && placed(zones, e)
}

/// Nothing is wrong with any endpoint of the changes.
pub open spec fn all_acceptable(zones: Seq<Seq<char>>, c: ChangesView) -> bool {
    &&& forall|i: int| 0 <= i < c.create.len() ==> acceptable(zones, #[trigger] c.create[i])
    &&& forall|i: int|
        0 <= i < c.update_old.len() ==> acceptable(zones, #[trigger] c.update_old[i])
    &&& forall|i: int|
        0 <= i < c.update_new.len() ==> acceptable(zones, #[trigger] c.update_new[i])
    &&& forall|i: int| 0 <= i < c.delete.len() ==> acceptable(zones, #[trigger] c.delete[i])
}

/// All zones are canonical domain names.
pub open spec fn all_canonical(zones: Seq<Seq<char>>) -> bool {
    forall|i: int| 0 <= i < zones.len() ==> laws::canonical(#[trigger] zones[i])
}

/// The lists of the changes are no longer than a list can be.
pub open spec fn fits(c: ChangesView) -> bool {
    &&& c.create.len() <= usize::MAX
    &&& c.update_old.len() <= usize::MAX
    &&& c.update_new.len() <= usize::MAX
    &&& c.delete.len() <= usize::MAX
}

proof fn blank_is_trimmed_away(t: Seq<char>)
    ensures
        text::trimmed(t).len() == 0 <==> blank(t),
    decreases t.len(),
{
    if t.len() > 0 {
        let last = t.last();
        let front = t.drop_last();
        assert(t =~= front.push(last));
        assert(forall|i: int| 0 <= i < front.len() ==> #[trigger] front[i] == t[i]);
        if text::unseen(last as int) {
            blank_is_trimmed_away(front);
            text::unseen_ends_do_not_count(front, last);
            if blank(front) {
                assert forall|i: int| 0 <= i < t.len() implies text::unseen(
                    #[trigger] t[i] as int,
                ) by {
                    if i < front.len() {
                        assert(front[i] == t[i]);
                    }
                }
            }
        } else {
            assert(text::unseen(t[t.len() - 1] as int) == false);
            seen_is_kept(t);
        }
    }
}

/// What is shown last is not trimmed away.
proof fn seen_is_kept(t: Seq<char>)
    requires
        t.len() > 0,
        !text::unseen(t.last() as int),
    ensures
        text::trimmed(t).len() > 0,
    decreases t.len(),
{
    let first = t[0];
    if text::unseen(first as int) {
        let rest = t.drop_first();
        assert(t =~= seq![first] + rest);
        assert(rest.len() > 0);
        assert(rest.last() == t.last());
        seen_is_kept(rest);
        text::unseen_ends_do_not_count(rest, first);
    } else {
        text::seen_ends_are_kept(t);
    }
}

/// An endpoint of any of the documented types with targets that show something is well
/// formed, and no other is; the refusal of another tells what is wrong with it.
pub proof fn just_well_formed_endpoints_pass(e: EndpointView)
    ensures
        agenda::shape_fault(e) is None <==> well_formed(e),
        !outcome::documented_type(e.record_type) ==> agenda::shape_fault(e) == Some(
            ErrorView::InvalidRequest("Unsupported record type: "@ + e.record_type),
        ),
        outcome::documented_type(e.record_type) && e.targets.len() == 0 ==> agenda::shape_fault(e)
            == Some(ErrorView::InvalidRequest("No targets for endpoint "@ + e.dns_name)),
        outcome::documented_type(e.record_type) && e.targets.len() > 0 && !well_formed(e)
            ==> agenda::shape_fault(e) == Some(
            ErrorView::InvalidRequest("Blank target in endpoint "@ + e.dns_name),
        ),
{
    outcome::managed_types_are_documented(e.record_type);
    assert forall|i: int| 0 <= i < e.targets.len() implies blank(#[trigger] e.targets[i]) == (
    text::trimmed(e.targets[i]).len() == 0) by {
        blank_is_trimmed_away(e.targets[i]);
    }
    if agenda::has_blank(e.targets) {
        let i = choose|i: int|
            0 <= i < e.targets.len() && text::trimmed(#[trigger] e.targets[i]).len() == 0;
        assert(blank(e.targets[i]));
    }
}

proof fn canonical_zone_is_allowed(p: Policy, zones: Seq<Seq<char>>, zone: Seq<char>)
    requires
        retry::manages(p, zones),
        all_canonical(zones),
        zones.contains(zone),
    ensures
        p.allows(zone),
{
    let i = choose|i: int| 0 <= i < zones.len() && zones[i] == zone;
    assert(laws::canonical(zones[i]));
    assert(text::under(text::normalized(zone), zones[i]));
}

/// An endpoint is in place where its name lies in a managed zone and a priority that it has
/// is a number, and nowhere else; the refusal of another tells what is wrong with it.
pub proof fn just_placed_endpoints_pass(p: Policy, zones: Seq<Seq<char>>, e: EndpointView)
    requires
        retry::manages(p, zones),
        all_canonical(zones),
    ensures
        agenda::place_fault(p, zones, e) is None <==> placed(zones, e),
        !(exists|i: int|
            0 <= i < zones.len() && outcome::lies_in(
                text::normalized(e.dns_name),
                #[trigger] zones[i],
            )) ==> agenda::place_fault(p, zones, e) == Some(
            if p.filter is Some {
                ErrorView::DomainNotAllowed("No configured zone matches "@ + e.dns_name)
            } else {
                ErrorView::InvalidRequest("No owned domain matches "@ + e.dns_name)
            },
        ),
        forall|i: int|
            (exists|j: int|
                0 <= j < zones.len() && outcome::lies_in(
                    text::normalized(e.dns_name),
                    #[trigger] zones[j],
                )) && #[trigger] outcome::is_priority(e.provider_specific, i) && !placed(zones, e)
                ==> agenda::place_fault(p, zones, e) == Some(
                ErrorView::InvalidRequest(
                    "Invalid priority value: "@ + e.provider_specific[i].value,
                ),
            ),
{
    let all = e.provider_specific;
    outcome::names_without_zone_are_refused(p.filter is Some, zones, e.dns_name);
    let found = rules::resolved(p.filter is Some, zones, e.dns_name);
    if found is Ok {
        canonical_zone_is_allowed(p, zones, found->Ok_0);
        if forall|j: int| 0 <= j < all.len() ==> (#[trigger] all[j]).name != "priority"@ {
            outcome::priority_is_first_property(e, 0, 0);
            assert(placed(zones, e));
        } else {
            let k = choose|k: int| 0 <= k < all.len() && (#[trigger] all[k]).name == "priority"@;
            let i = outcome::first_priority_exists(all, k);
            assert forall|j: int| #[trigger] outcome::is_priority(all, j) implies j == i by {
                if j < i {
                    assert(all[j].name != "priority"@);
                } else if i < j {
                    assert(all[i].name != "priority"@);
                }
            }
            if exists|n: u32| #[trigger] number::writes(all[i].value, n as nat) {
                let n = choose|n: u32| #[trigger] number::writes(all[i].value, n as nat);
                outcome::priority_is_first_property(e, i, n);
                assert(placed(zones, e));
            } else {
                outcome::priority_is_first_property(e, i, 0);
                assert(outcome::is_priority(all, i));
                assert(!placed(zones, e));
            }
        }
    }
}

/// Just acceptable endpoints pass the checks.
pub proof fn just_acceptable_endpoints_pass(p: Policy, zones: Seq<Seq<char>>, e: EndpointView)
    requires
        retry::manages(p, zones),
        all_canonical(zones),
    ensures
        conduct::fault_among(p, zones, e) is None <==> acceptable(zones, e),
{
    just_well_formed_endpoints_pass(e);
    just_placed_endpoints_pass(p, zones, e);
}

/// The first check that finds something wrong, up to one that does.
proof fn first_fault(p: Policy, zones: Seq<Seq<char>>, c: ChangesView, n: int) -> (k: int)
    requires
        0 <= n < agenda::checks(c).len(),
        conduct::fault_among(
            p,
            zones,
            agenda::endpoint_at(c, agenda::checks(c)[n]->Check_0),
        ) is Some,
    ensures
        0 <= k < agenda::checks(c).len(),
        conduct::fault_among(
            p,
            zones,
            agenda::endpoint_at(c, agenda::checks(c)[k]->Check_0),
        ) is Some,
        forall|i: int|
            0 <= i < k ==> conduct::fault_among(
                p,
                zones,
                agenda::endpoint_at(c, (#[trigger] agenda::checks(c)[i])->Check_0),
            ) is None,
    decreases n,
{
    if forall|i: int|
        0 <= i < n ==> conduct::fault_among(
            p,
            zones,
            agenda::endpoint_at(c, (#[trigger] agenda::checks(c)[i])->Check_0),
        ) is None {
        n
    } else {
        let i = choose|i: int|
            0 <= i < n && conduct::fault_among(
                p,
                zones,
                agenda::endpoint_at(c, (#[trigger] agenda::checks(c)[i])->Check_0),
            ) is Some;
        first_fault(p, zones, c, i)
    }
}

/// The endpoint at the place is checked.
pub open spec fn is_checked(c: ChangesView, slot: Slot) -> bool {
    agenda::checks(c).contains(TaskView::Check(slot))
}

/// Every endpoint of the changes is checked, and nothing else is.
pub proof fn every_endpoint_is_checked(c: ChangesView)
    requires
        fits(c),
    ensures
        forall|i: usize| i < c.create.len() ==> #[trigger] is_checked(c, Slot::Create(i)),
        forall|i: usize| i < c.update_new.len() ==> #[trigger] is_checked(c, Slot::UpdateNew(i)),
        forall|i: usize| i < c.delete.len() ==> #[trigger] is_checked(c, Slot::Delete(i)),
        forall|i: usize| i < c.update_old.len() ==> #[trigger] is_checked(c, Slot::UpdateOld(i)),
        agenda::checks(c).len() == c.create.len() + c.update_new.len() + c.delete.len()
            + c.update_old.len(),
{
    let all = agenda::checks(c);
    let a = c.create.len();
    let b = c.update_new.len();
    let d = c.delete.len();
    assert forall|i: usize| i < a implies #[trigger] is_checked(c, Slot::Create(i)) by {
        assert(all[i as int] == TaskView::Check(Slot::Create(i)));
    }
    assert forall|i: usize| i < b implies #[trigger] is_checked(c, Slot::UpdateNew(i)) by {
        assert(all[a + i] == TaskView::Check(Slot::UpdateNew(i)));
    }
    assert forall|i: usize| i < d implies #[trigger] is_checked(c, Slot::Delete(i)) by {
        assert(all[a + b + i] == TaskView::Check(Slot::Delete(i)));
    }
    assert forall|i: usize| i < c.update_old.len() implies #[trigger] is_checked(
        c,
        Slot::UpdateOld(i),
    ) by {
        assert(all[a + b + d + i] == TaskView::Check(Slot::UpdateOld(i)));
    }
}

/// Some check finds something wrong exactly where some endpoint is not acceptable.
proof fn fault_is_met(p: Policy, zones: Seq<Seq<char>>, c: ChangesView) -> (n: int)
    requires
        retry::manages(p, zones),
        all_canonical(zones),
        fits(c),
        !all_acceptable(zones, c),
    ensures
        0 <= n < agenda::checks(c).len(),
        conduct::fault_among(
            p,
            zones,
            agenda::endpoint_at(c, agenda::checks(c)[n]->Check_0),
        ) is Some,
{
    let all = agenda::checks(c);
    every_endpoint_is_checked(c);
    let slot = if exists|i: int|
        0 <= i < c.create.len() && !acceptable(zones, #[trigger] c.create[i]) {
        let i = choose|i: int|
            0 <= i < c.create.len() && !acceptable(zones, #[trigger] c.create[i]);
        just_acceptable_endpoints_pass(p, zones, c.create[i]);
        assert(agenda::endpoint_at(c, Slot::Create(i as usize)) == c.create[i]);
        Slot::Create(i as usize)
    } else if exists|i: int|
        0 <= i < c.update_old.len() && !acceptable(zones, #[trigger] c.update_old[i]) {
        let i = choose|i: int|
            0 <= i < c.update_old.len() && !acceptable(zones, #[trigger] c.update_old[i]);
        just_acceptable_endpoints_pass(p, zones, c.update_old[i]);
        assert(agenda::endpoint_at(c, Slot::UpdateOld(i as usize)) == c.update_old[i]);
        Slot::UpdateOld(i as usize)
    } else if exists|i: int|
        0 <= i < c.update_new.len() && !acceptable(zones, #[trigger] c.update_new[i]) {
        let i = choose|i: int|
            0 <= i < c.update_new.len() && !acceptable(zones, #[trigger] c.update_new[i]);
        just_acceptable_endpoints_pass(p, zones, c.update_new[i]);
        assert(agenda::endpoint_at(c, Slot::UpdateNew(i as usize)) == c.update_new[i]);
        Slot::UpdateNew(i as usize)
    } else {
        let i = choose|i: int|
            0 <= i < c.delete.len() && !acceptable(zones, #[trigger] c.delete[i]);
        just_acceptable_endpoints_pass(p, zones, c.delete[i]);
        assert(agenda::endpoint_at(c, Slot::Delete(i as usize)) == c.delete[i]);
        Slot::Delete(i as usize)
    };
    assert(is_checked(c, slot));
    choose|n: int| 0 <= n < all.len() && all[n] == TaskView::Check(slot)
}

/// A request with an endpoint that is not acceptable, wherever in the request it stands, is
/// refused before anything is listed or mutated: with a filter at once, and without one once
/// the managed domains, the only thing that is asked for, are told.
pub proof fn request_with_fault_is_refused(p: Policy, zones: Seq<Seq<char>>, c: ChangesView)
    requires
        retry::manages(p, zones),
        all_canonical(zones),
        fits(c),
        !all_acceptable(zones, c),
    ensures
        p.filter is Some ==> agenda::start(p, c).action is Finish
            && agenda::start(p, c).action->Finish_0 is Err,
        p.filter is None ==> conduct::domains_told(p, zones, agenda::start(p, c)).action is Finish
            && conduct::domains_told(p, zones, agenda::start(p, c)).action->Finish_0 is Err,
{
    assert(!c.is_empty()) by {
        if c.is_empty() {
            assert(all_acceptable(zones, c));
        }
    }
    if c.update_old.len() == c.update_new.len() {
        let n = fault_is_met(p, zones, c);
        let k = first_fault(p, zones, c, n);
        if p.filter is Some {
            conduct::faults_are_refused_at_once(p, c, k);
        } else {
            conduct::faults_are_refused_once_domains_are_told(p, zones, c, k);
        }
    } else {
        let step = agenda::start(p, c);
        assert(conduct::domains_told(p, zones, step) == step);
    }
}

/// A request that could not be read is refused with the reader's words; one without changes
/// succeeds without more; one whose updates are not paired is refused. Nothing is asked for.
pub proof fn odd_requests_are_answered_at_once(p: Policy, words: Seq<char>, c: ChangesView)
    ensures
        agenda::begin(p, Err(words)).action == ApplyActionView::Finish(
            Err(ErrorView::InvalidRequest(words)),
        ),
        c.create.len() == 0 && c.update_old.len() == 0 && c.update_new.len() == 0
            && c.delete.len() == 0 ==> agenda::begin(p, Ok(c)).action == ApplyActionView::Finish(
            Ok(204),
        ),
        c.update_old.len() != c.update_new.len() ==> agenda::begin(p, Ok(c)).action
            == ApplyActionView::Finish(
            Err(
                ErrorView::InvalidRequest(
                    "updateOld ("@ + number::decimal(c.update_old.len()) + ") and updateNew ("@
                        + number::decimal(c.update_new.len()) + ") must have the same length"@,
                ),
            ),
        ),
{
}

/// The zone is the one that the endpoint's name lies in: the longest, where there are more.
pub open spec fn home(zones: Seq<Seq<char>>, e: EndpointView, zone: Seq<char>) -> bool {
    &&& zones.contains(zone)
    &&& outcome::lies_in(text::normalized(e.dns_name), zone)
    &&& forall|i: int|
        0 <= i < zones.len() && outcome::lies_in(text::normalized(e.dns_name), #[trigger] zones[i])
            ==> zones[i].len() <= zone.len()
}

/// The record lives as long as the endpoint asks and has the priority that it asks for, as
/// far as the record tells and the endpoint asks.
pub open spec fn suits(e: EndpointView, r: RecordView) -> bool {
    &&& forall|a: u32, b: u32| #[trigger]
        outcome::gives(r.ttl, a) && #[trigger] outcome::asks_ttl(e, b) ==> a == b
    &&& forall|a: u32, b: u32| #[trigger]
        outcome::gives(r.prio, a) && #[trigger] outcome::asks_prio(e, b) ==> a == b
}

/// Some record has the name and the type of the endpoint and the target, and suits it.
pub open spec fn shown_by(
    records: Seq<RecordView>,
    zone: Seq<char>,
    e: EndpointView,
    t: Seq<char>,
) -> bool {
    exists|i: int|
        0 <= i < records.len() && outcome::is_of(zone, e, #[trigger] records[i]) && outcome::alike(
            records[i].content,
            t,
            e.record_type,
        ) && suits(e, records[i])
}

/// No record has the name, the type and a target of the endpoint.
pub open spec fn gone(records: Seq<RecordView>, zone: Seq<char>, e: EndpointView) -> bool {
    forall|i: int|
        0 <= i < records.len() ==> !(outcome::is_of(zone, e, #[trigger] records[i])
            && outcome::has_target(e, records[i].content))
}

/// Every target of the endpoint has a record that suits it.
pub open spec fn there(records: Seq<RecordView>, zone: Seq<char>, e: EndpointView) -> bool {
    forall|i: int|
        0 <= i < e.targets.len() ==> shown_by(records, zone, e, #[trigger] e.targets[i])
}

/// The new endpoint has taken the place of the old one, which has its name and its type: no
/// record has a target that only the old one has, every record with a target of both suits
/// the new one, and every target that only the new one has has a record that suits it.
pub open spec fn replaced(
    records: Seq<RecordView>,
    zone: Seq<char>,
    old_endpoint: EndpointView,
    new_endpoint: EndpointView,
) -> bool {
    &&& forall|i: int|
        0 <= i < records.len() && outcome::is_of(zone, new_endpoint, #[trigger] records[i])
            && outcome::has_target(old_endpoint, records[i].content) ==> outcome::has_target(
            new_endpoint,
            records[i].content,
        ) && suits(new_endpoint, records[i])
    &&& forall|i: int|
        0 <= i < new_endpoint.targets.len() && !outcome::has_target(
            old_endpoint,
            #[trigger] new_endpoint.targets[i],
        ) ==> shown_by(records, zone, new_endpoint, new_endpoint.targets[i])
}

/// What the changes ask for is brought about.
pub open spec fn brought_about(
    zones: Seq<Seq<char>>,
    held: Map<Seq<char>, Seq<RecordView>>,
    c: ChangesView,
) -> bool {
    &&& forall|i: int, zone: Seq<char>|
        0 <= i < c.delete.len() && #[trigger] home(zones, c.delete[i], zone) ==> gone(
            held[zone],
            zone,
            c.delete[i],
        )
    &&& forall|i: int, old_zone: Seq<char>, zone: Seq<char>|
        0 <= i < c.update_new.len() && #[trigger] home(zones, c.update_old[i], old_zone)
            && #[trigger] home(zones, c.update_new[i], zone) ==> if text::normalized(
            c.update_old[i].dns_name,
        ) == text::normalized(c.update_new[i].dns_name) && c.update_old[i].record_type
            == c.update_new[i].record_type {
            replaced(held[zone], zone, c.update_old[i], c.update_new[i])
        } else {
            gone(held[old_zone], old_zone, c.update_old[i]) && there(
                held[zone],
                zone,
                c.update_new[i],
            )
        }
    &&& forall|i: int, zone: Seq<char>|
        0 <= i < c.create.len() && #[trigger] home(zones, c.create[i], zone) ==> there(
            held[zone],
            zone,
            c.create[i],
        )
}

/// No name of an endpoint that is to come about is that of a zone with nothing but a dot
/// before it.
pub open spec fn properly_named(zones: Seq<Seq<char>>, c: ChangesView) -> bool {
    &&& forall|i: int, j: int|
        0 <= i < c.create.len() && 0 <= j < zones.len() ==> text::normalized(
            (#[trigger] c.create[i]).dns_name,
        ) != seq!['.'] + #[trigger] zones[j]
    &&& forall|i: int, j: int|
        0 <= i < c.update_new.len() && 0 <= j < zones.len() ==> text::normalized(
            (#[trigger] c.update_new[i]).dns_name,
        ) != seq!['.'] + #[trigger] zones[j]
}

/// The request is one that can be carried out: its endpoints are acceptable, and no two of
/// its changes touch the same records.
pub open spec fn sound_request(p: Policy, zones: Seq<Seq<char>>, c: ChangesView) -> bool {
    &&& !p.dry_run
    &&& retry::manages(p, zones)
    &&& all_canonical(zones)
    &&& fits(c)
    &&& c.update_old.len() == c.update_new.len()
    &&& all_acceptable(zones, c)
    &&& properly_named(zones, c)
    &&& request::changes_apart(c)
}

proof fn home_is_found(zones: Seq<Seq<char>>, e: EndpointView, zone: Seq<char>)
    requires
        home(zones, e, zone),
    ensures
        rules::zone_of(text::normalized(e.dns_name), zones) == Some(zone),
{
    let name = text::normalized(e.dns_name);
    outcome::longest_zone_is_found(name, zones);
    let i = choose|i: int| 0 <= i < zones.len() && zones[i] == zone;
    assert(outcome::lies_in(name, zones[i]));
    let z = rules::zone_of(name, zones)->0;
    let j = choose|j: int| 0 <= j < zones.len() && zones[j] == z;
    assert(zones[j].len() <= zone.len());
}

proof fn sound_endpoint(
    p: Policy,
    zones: Seq<Seq<char>>,
    c: ChangesView,
    slot: Slot,
)
    requires
        sound_request(p, zones, c),
        agenda::has_slot(c, slot),
    ensures
        acceptable(zones, agenda::endpoint_at(c, slot)),
        slot is Create || slot is UpdateNew ==> laws::well_named(
            agenda::endpoint_at(c, slot).dns_name,
            request::zone_for(zones, agenda::endpoint_at(c, slot)),
        ),
{
    let e = agenda::endpoint_at(c, slot);
    let name = text::normalized(e.dns_name);
    match slot {
        Slot::Create(i) => {
            assert(acceptable(zones, c.create[i as int]));
        },
        Slot::UpdateOld(i) => {
            assert(acceptable(zones, c.update_old[i as int]));
        },
        Slot::UpdateNew(i) => {
            assert(acceptable(zones, c.update_new[i as int]));
        },
        Slot::Delete(i) => {
            assert(acceptable(zones, c.delete[i as int]));
        },
    }
    rules::zone_of_is_longest(name, zones);
    outcome::longest_zone_is_found(name, zones);
    let zone = request::zone_for(zones, e);
    let j = choose|j: int| 0 <= j < zones.len() && zones[j] == zone;
    match slot {
        Slot::Create(i) => {
            assert(text::normalized(c.create[i as int].dns_name) != seq!['.'] + zones[j]);
        },
        Slot::UpdateNew(i) => {
            assert(text::normalized(c.update_new[i as int].dns_name) != seq!['.'] + zones[j]);
        },
        _ => {},
    }
}

/// A sound request is feasible.
pub proof fn sound_request_is_feasible(p: Policy, zones: Seq<Seq<char>>, c: ChangesView)
    requires
        sound_request(p, zones, c),
    ensures
        request::feasible(p, zones, c),
{
    assert forall|slot: Slot| #[trigger] agenda::has_slot(c, slot) implies conduct::fault_among(
        p,
        zones,
        agenda::endpoint_at(c, slot),
    ) is None by {
        sound_endpoint(p, zones, c, slot);
        just_acceptable_endpoints_pass(p, zones, agenda::endpoint_at(c, slot));
    }
    assert forall|slot: Slot| #[trigger]
        agenda::has_slot(c, slot) && (slot is Create || slot is UpdateNew) implies laws::well_named(
        agenda::endpoint_at(c, slot).dns_name,
        request::zone_for(zones, agenda::endpoint_at(c, slot)),
    ) by {
        sound_endpoint(p, zones, c, slot);
    }
}

proof fn line_suits(e: EndpointView, prio: Option<u32>, r: RecordView)
    requires
        rules::priority_of(e.provider_specific) == Ok::<Option<u32>, ErrorView>(prio),
        outcome::in_line(e, prio, r),
    ensures
        suits(e, r),
{
    assert forall|a: u32, b: u32| #[trigger]
        outcome::gives(r.prio, a) && #[trigger] outcome::asks_prio(e, b) implies a == b by {
        outcome::priority_is_what_is_asked_for(e, b);
    }
}

proof fn record_shows(
    records: Seq<RecordView>,
    zone: Seq<char>,
    e: EndpointView,
    prio: Option<u32>,
    t: Seq<char>,
)
    requires
        rules::priority_of(e.provider_specific) == Ok::<Option<u32>, ErrorView>(prio),
        outcome::has_record(records, zone, e, prio, t),
    ensures
        shown_by(records, zone, e, t),
{
    let i = choose|i: int|
        0 <= i < records.len() && outcome::is_of(zone, e, #[trigger] records[i]) && outcome::alike(
            records[i].content,
            t,
            e.record_type,
        ) && outcome::in_line(e, prio, records[i]);
    line_suits(e, prio, records[i]);
    assert(outcome::is_of(zone, e, records[i]));
}

proof fn deleted_is_gone(records: Seq<RecordView>, zone: Seq<char>, e: EndpointView)
    requires
        plan::deletion(records, zone, e).len() == 0,
    ensures
        gone(records, zone, e),
{
    outcome::deletion_removes_just_its_records(records, zone, e);
}

proof fn created_is_there(records: Seq<RecordView>, zone: Seq<char>, e: EndpointView)
    requires
        retry::created_already(records, zone, e),
    ensures
        there(records, zone, e),
{
    let prio = rules::priority_of(e.provider_specific)->Ok_0;
    outcome::creation_is_complete(records, zone, e, prio);
    assert forall|i: int| 0 <= i < e.targets.len() implies shown_by(
        records,
        zone,
        e,
        #[trigger] e.targets[i],
    ) by {
        assert(outcome::has_record(records, zone, e, prio, e.targets[i]));
        record_shows(records, zone, e, prio, e.targets[i]);
    }
}

proof fn updated_is_replaced(
    records: Seq<RecordView>,
    zone: Seq<char>,
    old_endpoint: EndpointView,
    new_endpoint: EndpointView,
)
    requires
        text::normalized(old_endpoint.dns_name) == text::normalized(new_endpoint.dns_name),
        old_endpoint.record_type == new_endpoint.record_type,
        retry::updated_already(records, zone, old_endpoint, new_endpoint),
    ensures
        replaced(records, zone, old_endpoint, new_endpoint),
{
    let prio = rules::priority_of(new_endpoint.provider_specific)->Ok_0;
    outcome::update_removes_just_what_it_drops(records, zone, old_endpoint, new_endpoint);
    outcome::update_edits_just_what_is_not_in_line(
        records,
        zone,
        old_endpoint,
        new_endpoint,
        prio,
    );
    outcome::update_additions_are_complete(records, zone, old_endpoint, new_endpoint, prio);
    assert forall|i: int|
        0 <= i < records.len() && outcome::is_of(zone, new_endpoint, #[trigger] records[i])
            && outcome::has_target(old_endpoint, records[i].content) implies outcome::has_target(
        new_endpoint,
        records[i].content,
    ) && suits(new_endpoint, records[i]) by {
        assert(outcome::is_of(zone, old_endpoint, records[i]));
        assert(!outcome::strays(zone, old_endpoint, new_endpoint, prio, records[i]));
        line_suits(new_endpoint, prio, records[i]);
    }
    assert forall|i: int|
        0 <= i < new_endpoint.targets.len() && !outcome::has_target(
            old_endpoint,
            #[trigger] new_endpoint.targets[i],
        ) implies shown_by(records, zone, new_endpoint, new_endpoint.targets[i]) by {
        assert(outcome::has_record(records, zone, new_endpoint, prio, new_endpoint.targets[i]));
        record_shows(records, zone, new_endpoint, prio, new_endpoint.targets[i]);
    }
}

/// Changes that call for nothing are brought about.
pub proof fn done_is_brought_about(
    zones: Seq<Seq<char>>,
    held: Map<Seq<char>, Seq<RecordView>>,
    c: ChangesView,
)
    requires
        c.update_old.len() == c.update_new.len(),
        retry::all_done(zones, held, c),
    ensures
        brought_about(zones, held, c),
{
    assert forall|i: int, zone: Seq<char>|
        0 <= i < c.delete.len() && #[trigger] home(zones, c.delete[i], zone) implies gone(
        held[zone],
        zone,
        c.delete[i],
    ) by {
        home_is_found(zones, c.delete[i], zone);
        assert(retry::deletion_done(zones, held, c.delete[i]));
        deleted_is_gone(held[zone], zone, c.delete[i]);
    }
    assert forall|i: int, old_zone: Seq<char>, zone: Seq<char>|
        0 <= i < c.update_new.len() && #[trigger] home(zones, c.update_old[i], old_zone)
            && #[trigger] home(zones, c.update_new[i], zone) implies if text::normalized(
        c.update_old[i].dns_name,
    ) == text::normalized(c.update_new[i].dns_name) && c.update_old[i].record_type
        == c.update_new[i].record_type {
        replaced(held[zone], zone, c.update_old[i], c.update_new[i])
    } else {
        gone(held[old_zone], old_zone, c.update_old[i]) && there(
            held[zone],
            zone,
            c.update_new[i],
        )
    } by {
        home_is_found(zones, c.update_old[i], old_zone);
        home_is_found(zones, c.update_new[i], zone);
        assert(retry::update_done(zones, held, c.update_old[i], c.update_new[i]));
        if text::normalized(c.update_old[i].dns_name) == text::normalized(c.update_new[i].dns_name)
            && c.update_old[i].record_type == c.update_new[i].record_type {
            updated_is_replaced(held[zone], zone, c.update_old[i], c.update_new[i]);
        } else {
            deleted_is_gone(held[old_zone], old_zone, c.update_old[i]);
            created_is_there(held[zone], zone, c.update_new[i]);
        }
    }
    assert forall|i: int, zone: Seq<char>|
        0 <= i < c.create.len() && #[trigger] home(zones, c.create[i], zone) implies there(
        held[zone],
        zone,
        c.create[i],
    ) by {
        home_is_found(zones, c.create[i], zone);
        assert(retry::creation_done(zones, held, c.create[i]));
        created_is_there(held[zone], zone, c.create[i]);
    }
}

/// A sound request that is carried out brings about what it asks for, and succeeds: what is
/// to be deleted is gone, what is to be created is there, and what is to be updated is
/// replaced, all in the zones that the names lie in.
pub proof fn carried_out_request_is_brought_about(
    p: Policy,
    zones: Seq<Seq<char>>,
    c: ChangesView,
    moments: Seq<Moment>,
)
    requires
        sound_request(p, zones, c),
        request::course(p, zones, c, moments),
        moments.last().step.action is Finish,
    ensures
        moments.last().step.action == ApplyActionView::Finish(Ok(204)),
        brought_about(zones, moments.last().held, c),
{
    sound_request_is_feasible(p, zones, c);
    request::carried_out_request_is_done(p, zones, c, moments);
    done_is_brought_about(zones, moments.last().held, c);
}

/// The record has the name, the type and a target of some endpoint of the list.
pub open spec fn named_by(
    zone: Seq<char>,
    endpoints: Seq<EndpointView>,
    r: RecordView,
) -> bool {
    exists|i: int|
        0 <= i < endpoints.len() && outcome::is_of(zone, #[trigger] endpoints[i], r)
            && outcome::has_target(endpoints[i], r.content)
}

/// A record that has not the name, the type and a target of any endpoint of the request is
/// left as it is while the request is carried out, and none like it comes about.
pub proof fn other_records_are_left(
    p: Policy,
    zones: Seq<Seq<char>>,
    c: ChangesView,
    moments: Seq<Moment>,
    k: int,
    zone: Seq<char>,
    r: RecordView,
)
    requires
        sound_request(p, zones, c),
        request::course(p, zones, c, moments),
        0 <= k < moments.len(),
        !named_by(zone, c.create, r),
        !named_by(zone, c.update_old, r),
        !named_by(zone, c.update_new, r),
        !named_by(zone, c.delete, r),
    ensures
        moments[k].held[zone].contains(r) <==> moments[0].held[zone].contains(r),
{
    sound_request_is_feasible(p, zones, c);
    assert forall|slot: Slot| #[trigger] agenda::has_slot(c, slot) implies !request::claims(
        zone,
        agenda::endpoint_at(c, slot),
        r,
    ) by {
        let e = agenda::endpoint_at(c, slot);
        outcome::records_belong_by_name_and_type(zone, e, r);
        outcome::listed_where_alike(e.targets, r.content, e.record_type);
        match slot {
            Slot::Create(i) => assert(!(outcome::is_of(zone, c.create[i as int], r)
                && outcome::has_target(c.create[i as int], r.content))),
            Slot::UpdateOld(i) => assert(!(outcome::is_of(zone, c.update_old[i as int], r)
                && outcome::has_target(c.update_old[i as int], r.content))),
            Slot::UpdateNew(i) => assert(!(outcome::is_of(zone, c.update_new[i as int], r)
                && outcome::has_target(c.update_new[i as int], r.content))),
            Slot::Delete(i) => assert(!(outcome::is_of(zone, c.delete[i as int], r)
                && outcome::has_target(c.delete[i as int], r.content))),
        }
    }
    request::bystanders_are_left(p, zones, c, moments, k, zone, r);
}

/// The same step, with mutations reported in place of being carried out.
pub open spec fn reported(step: StepView) -> StepView {
    match step.action {
        ApplyActionView::Mutate(m) => StepView { action: ApplyActionView::DryRun(m), ..step },
        _ => step,
    }
}

/// A dry run comes to the same steps as another run, save that mutations are reported.
pub proof fn dry_run_reports_what_would_be_done(filter: Option<Seq<Seq<char>>>, run: RunView)
    ensures
        agenda::settle(Policy { filter, dry_run: true }, run) == reported(
            agenda::settle(Policy { filter, dry_run: false }, run),
        ),
        !(agenda::settle(Policy { filter, dry_run: true }, run).action is Mutate),
        !(agenda::settle(Policy { filter, dry_run: false }, run).action is DryRun),
    decreases agenda::load_of(run.agenda),
{
    let dry = Policy { filter, dry_run: true };
    let wet = Policy { filter, dry_run: false };
    agenda::advance_falls(dry, run);
    agenda::advance_falls(wet, run);
    if run.agenda.len() > 0 {
        assert forall|zones: Seq<Seq<char>>|
            agenda::with_domains(dry, run.changes, run.agenda[0], zones) == #[trigger]
            agenda::with_domains(wet, run.changes, run.agenda[0], zones) by {}
    }
    match agenda::advance(wet, run) {
        Advance::Go(tasks) => {
            assert(agenda::advance(dry, run) == Advance::Go(tasks));
            dry_run_reports_what_would_be_done(filter, run.replace(tasks));
        },
        Advance::Stop(step) => {},
    }
}

proof fn kept_lists_only_shrink(p: Policy, run: RunView, zone: Seq<char>)
    ensures
        agenda::settle(p, run).run.cache.dom().contains(zone) ==> run.cache.dom().contains(zone)
            && agenda::settle(p, run).run.cache[zone] == run.cache[zone],
    decreases agenda::load_of(run.agenda),
{
    agenda::advance_falls(p, run);
    match agenda::advance(p, run) {
        Advance::Go(tasks) => kept_lists_only_shrink(p, run.replace(tasks), zone),
        Advance::Stop(step) => {},
    }
}

/// A zone is listed only where no list of it is kept; the additions of an update are always
/// planned from a list that is made anew.
pub proof fn zones_are_listed_where_needed(p: Policy, run: RunView)
    ensures
        agenda::settle(p, run).action matches ApplyActionView::ListRecords(zone)
            ==> !agenda::settle(p, run).run.cache.dom().contains(zone),
        run.agenda.len() > 0 && run.agenda[0] is Add ==> agenda::settle(p, run).action
            == ApplyActionView::ListRecords(run.agenda[0]->Add_1),
    decreases agenda::load_of(run.agenda),
{
    agenda::advance_falls(p, run);
    match agenda::advance(p, run) {
        Advance::Go(tasks) => zones_are_listed_where_needed(p, run.replace(tasks)),
        Advance::Stop(step) => {},
    }
}

/// A list of a zone's records is not used any more once the zone was mutated.
pub proof fn lists_of_mutated_zones_are_dropped(p: Policy, run: RunView)
    requires
        run.agenda.len() > 0,
        run.agenda[0] is Carry,
    ensures
        !agenda::resume(p, run, ApplyEventView::Mutated(Ok(()))).run.cache.dom().contains(
            run.agenda[0]->Carry_1.zone(),
        ),
{
    let zone = run.agenda[0]->Carry_1.zone();
    let left = RunView { cache: run.cache.remove(zone), ..run }.replace(Seq::empty());
    kept_lists_only_shrink(p, left, zone);
}

/// A domain may be managed where it lies in a zone of the filter, or there is no filter; the
/// settings that changes are carried out under are those of the configuration.
pub proof fn filter_says_what_may_be_managed(c: Config, domain: Seq<char>)
    ensures
        c.domain_filter is None ==> c.allows(domain) && agenda::policy_of(c).filter is None,
        c.domain_filter matches Some(zones) ==> {
            &&& agenda::policy_of(c).filter == Some(zones.deep_view())
            &&& c.allows(domain) <==> exists|i: int|
                0 <= i < zones@.len() && outcome::lies_in(
                    text::normalized(domain),
                    #[trigger] zones@[i]@,
                )
        },
        agenda::policy_of(c).allows(domain) == c.allows(domain),
        agenda::policy_of(c).dry_run == c.dry_run,
{
    if c.domain_filter is Some {
        let zones = c.domain_filter->0.deep_view();
        let name = text::normalized(domain);
        assert forall|i: int| 0 <= i < zones.len() implies outcome::lies_in(
            name,
            #[trigger] zones[i],
        ) == text::under(name, zones[i]) by {
            outcome::lying_in_is_being_under(name, zones[i]);
        }
        assert forall|i: int| 0 <= i < zones.len() implies zones[i] == #[trigger] (
        c.domain_filter->0)@[i]@ by {}
        if c.allows(domain) {
            let i = choose|i: int| 0 <= i < zones.len() && text::under(name, #[trigger] zones[i]);
            assert(outcome::lies_in(name, (c.domain_filter->0)@[i]@));
        }
        if exists|i: int|
            0 <= i < zones.len() && outcome::lies_in(
                name,
                #[trigger] (c.domain_filter->0)@[i]@,
            ) {
            let i = choose|i: int|
                0 <= i < zones.len() && outcome::lies_in(
                    name,
                    #[trigger] (c.domain_filter->0)@[i]@,
                );
            assert(text::under(name, zones[i]));
        }
    }
}

/// A failure that is reported ends the work: the failure is the result, and no task is left.
pub proof fn failure_leaves_nothing_to_do(p: Policy, run: RunView, x: ErrorView)
    ensures
        agenda::resume(p, run, ApplyEventView::Domains(Err(x))).action == ApplyActionView::Finish(
            Err(x),
        ),
        agenda::resume(p, run, ApplyEventView::Records(Err(x))).action == ApplyActionView::Finish(
            Err(x),
        ),
        agenda::resume(p, run, ApplyEventView::Mutated(Err(x))).action == ApplyActionView::Finish(
            Err(x),
        ),
        agenda::resume(p, run, ApplyEventView::Domains(Err(x))).run.agenda.len() == 0,
        agenda::resume(p, run, ApplyEventView::Records(Err(x))).run.agenda.len() == 0,
        agenda::resume(p, run, ApplyEventView::Mutated(Err(x))).run.agenda.len() == 0,
{
}

/// With a filter, the work on changes whose endpoints are acceptable begins with a list of
/// the zone of the first endpoint to delete, or else of the first to update, or else of the
/// first to create.
pub proof fn acceptable_changes_are_begun(p: Policy, zones: Seq<Seq<char>>, c: ChangesView)
    requires
        p.filter == Some(zones),
        all_canonical(zones),
        fits(c),
        c.update_old.len() == c.update_new.len(),
        all_acceptable(zones, c),
        !(c.delete.len() == 0 && c.update_new.len() == 0 && c.create.len() == 0),
    ensures
        agenda::start(p, c).action is ListRecords,
        home(
            zones,
            if c.delete.len() > 0 {
                c.delete[0]
            } else if c.update_new.len() > 0 {
                c.update_old[0]
            } else {
                c.create[0]
            },
            agenda::start(p, c).action->ListRecords_0,
        ),
{
    let checks = agenda::checks(c);
    let works = agenda::works(c);
    let run = RunView { changes: c, agenda: works, cache: Map::empty() };
    assert forall|i: int| 0 <= i < checks.len() implies conduct::fault_of(
        p,
        agenda::endpoint_at(c, (#[trigger] checks[i])->Check_0),
    ) is None by {
        checked_is_acceptable(zones, c, i);
        just_acceptable_endpoints_pass(
            p,
            zones,
            agenda::endpoint_at(c, checks[i]->Check_0),
        );
    }
    conduct::faults_are_refused_at_once(p, c, checks.len() as int);
    let first = if c.delete.len() > 0 {
        c.delete[0]
    } else if c.update_new.len() > 0 {
        c.update_old[0]
    } else {
        c.create[0]
    };
    assert(acceptable(zones, first));
    let name = text::normalized(first.dns_name);
    outcome::longest_zone_is_found(name, zones);
    let zone = rules::zone_of(name, zones)->0;
    assert(home(zones, first, zone));
    assert(rules::resolved(true, zones, first.dns_name) == Ok::<Seq<char>, ErrorView>(zone));
    if c.delete.len() > 0 {
        assert(works[0] == TaskView::Delete(Slot::Delete(0)));
        list_follows(p, run, seq![TaskView::DeleteIn(Slot::Delete(0), zone)], zone);
    } else if c.update_new.len() > 0 {
        assert(works[0] == TaskView::Update(0));
        assert(acceptable(zones, c.update_new[0]));
        update_begins(p, zones, run, zone);
    } else {
        assert(works[0] == TaskView::Create(Slot::Create(0)));
        list_follows(p, run, seq![TaskView::CreateIn(Slot::Create(0), zone)], zone);
    }
}

/// Where a task takes the place of the next one that needs the records of a zone, and no list
/// is kept, the zone is listed.
proof fn list_follows(p: Policy, run: RunView, next: Seq<TaskView>, zone: Seq<char>)
    requires
        run.agenda.len() > 0,
        run.cache == Map::<Seq<char>, Seq<RecordView>>::empty(),
        agenda::advance(p, run) == Advance::Go(next),
        next.len() > 0,
        next[0].needs_records() == Some(zone),
    ensures
        agenda::settle(p, run).action == ApplyActionView::ListRecords(zone),
{
    let on = run.replace(next);
    agenda::advance_falls(p, run);
    assert(on.agenda[0] == next[0]);
    assert(agenda::settle(p, run) == agenda::settle(p, on));
    assert(agenda::advance(p, on) is Stop);
}

/// The first update begins with a list of the zone of the old endpoint.
proof fn update_begins(p: Policy, zones: Seq<Seq<char>>, run: RunView, zone: Seq<char>)
    requires
        p.filter == Some(zones),
        run.agenda.len() > 0,
        run.agenda[0] == TaskView::Update(0),
        run.cache == Map::<Seq<char>, Seq<RecordView>>::empty(),
        rules::resolved(true, zones, run.changes.update_old[0].dns_name) == Ok::<
            Seq<char>,
            ErrorView,
        >(zone),
        acceptable(zones, run.changes.update_new[0]),
    ensures
        agenda::settle(p, run).action == ApplyActionView::ListRecords(zone),
{
    let first = run.changes.update_old[0];
    let new_endpoint = run.changes.update_new[0];
    outcome::names_without_zone_are_refused(true, zones, new_endpoint.dns_name);
    let new_zone = rules::resolved(true, zones, new_endpoint.dns_name)->Ok_0;
    let next = seq![TaskView::UpdateFrom(0, zone)];
    let on = run.replace(next);
    assert(agenda::advance(p, run) == Advance::Go(next));
    agenda::advance_falls(p, run);
    assert(agenda::settle(p, run) == agenda::settle(p, on));
    assert(on.agenda[0] == next[0]);
    if agenda::stays(zone, new_zone, first, new_endpoint) {
        list_follows(p, on, seq![TaskView::Remove(0, new_zone)], zone);
    } else {
        let moved = seq![
            TaskView::Delete(Slot::UpdateOld(0)),
            TaskView::Create(Slot::UpdateNew(0)),
        ];
        let last = on.replace(moved);
        assert(agenda::advance(p, on) == Advance::Go(moved));
        agenda::advance_falls(p, on);
        assert(last.agenda[0] == moved[0]);
        assert(agenda::settle(p, on) == agenda::settle(p, last));
        list_follows(p, last, seq![TaskView::DeleteIn(Slot::UpdateOld(0), zone)], zone);
    }
}

proof fn checked_is_acceptable(zones: Seq<Seq<char>>, c: ChangesView, i: int)
    requires
        fits(c),
        all_acceptable(zones, c),
        0 <= i < agenda::checks(c).len(),
    ensures
        acceptable(zones, agenda::endpoint_at(c, agenda::checks(c)[i]->Check_0)),
{
    let a = c.create.len();
    let b = c.update_new.len();
    let d = c.delete.len();
    if i < a {
        assert(acceptable(zones, c.create[i]));
    } else if i < a + b {
        assert(acceptable(zones, c.update_new[i - a]));
    } else if i < a + b + d {
        assert(acceptable(zones, c.delete[i - a - b]));
    } else {
        assert(acceptable(zones, c.update_old[i - a - b - d]));
    }
}

/// All endpoints of the changes, in the order in which they are checked.
pub open spec fn in_checking_order(c: ChangesView) -> Seq<EndpointView> {
    c.create + c.update_new + c.delete + c.update_old
}

/// Of the endpoints that are not acceptable the first is told: those to create come before
/// the new ones of updates, those before the ones to delete, and the old ones of updates come
/// last.
pub proof fn first_fault_is_told(p: Policy, zones: Seq<Seq<char>>, c: ChangesView, k: int)
    requires
        retry::manages(p, zones),
        all_canonical(zones),
        fits(c),
        c.update_old.len() == c.update_new.len(),
        0 <= k < in_checking_order(c).len(),
        forall|i: int| 0 <= i < k ==> acceptable(zones, #[trigger] in_checking_order(c)[i]),
        !acceptable(zones, in_checking_order(c)[k]),
    ensures
        conduct::fault_among(p, zones, in_checking_order(c)[k]) is Some,
        p.filter is Some ==> agenda::start(p, c).action == ApplyActionView::Finish(
            Err(conduct::fault_among(p, zones, in_checking_order(c)[k])->0),
        ),
        p.filter is None ==> conduct::domains_told(p, zones, agenda::start(p, c)).action
            == ApplyActionView::Finish(
            Err(conduct::fault_among(p, zones, in_checking_order(c)[k])->0),
        ),
{
    let all = in_checking_order(c);
    let checks = agenda::checks(c);
    assert forall|i: int| 0 <= i < all.len() implies agenda::endpoint_at(
        c,
        (#[trigger] checks[i])->Check_0,
    ) == all[i] by {}
    assert(checks.len() == all.len());
    assert forall|i: int| 0 <= i < k implies conduct::fault_among(
        p,
        zones,
        agenda::endpoint_at(c, (#[trigger] checks[i])->Check_0),
    ) is None by {
        assert(acceptable(zones, all[i]));
        just_acceptable_endpoints_pass(p, zones, all[i]);
    }
    just_acceptable_endpoints_pass(p, zones, all[k]);
    assert(agenda::endpoint_at(c, checks[k]->Check_0) == all[k]);
    if p.filter is Some {
        conduct::faults_are_refused_at_once(p, c, k);
    } else {
        conduct::faults_are_refused_once_domains_are_told(p, zones, c, k);
    }
}

/// Of what is wrong with an endpoint its type and its targets are told before its zone and
/// its priority.
pub proof fn shape_is_told_before_place(p: Policy, zones: Seq<Seq<char>>, e: EndpointView)
    ensures
        !well_formed(e) ==> conduct::fault_among(p, zones, e) == agenda::shape_fault(e),
        well_formed(e) ==> conduct::fault_among(p, zones, e) == agenda::place_fault(p, zones, e),
{
    just_well_formed_endpoints_pass(e);
}

/// Each endpoint is worked on in the zone that its name lies in, whatever else is asked for.
pub proof fn work_is_done_in_home_zone(
    p: Policy,
    zones: Seq<Seq<char>>,
    c: ChangesView,
    slot: Slot,
    i: usize,
    zone: Seq<char>,
)
    ensures
        home(zones, agenda::endpoint_at(c, slot), zone) ==> agenda::with_domains(
            p,
            c,
            TaskView::Delete(slot),
            zones,
        ) == Ok::<Seq<TaskView>, ErrorView>(seq![TaskView::DeleteIn(slot, zone)])
            && agenda::with_domains(p, c, TaskView::Create(slot), zones) == Ok::<
            Seq<TaskView>,
            ErrorView,
        >(seq![TaskView::CreateIn(slot, zone)]),
        home(zones, c.update_old[i as int], zone) ==> agenda::with_domains(
            p,
            c,
            TaskView::Update(i),
            zones,
        ) == Ok::<Seq<TaskView>, ErrorView>(seq![TaskView::UpdateFrom(i, zone)]),
        forall|old_zone: Seq<char>|
            home(zones, c.update_new[i as int], zone) && old_zone == zone && text::normalized(
                c.update_old[i as int].dns_name,
            ) == text::normalized(c.update_new[i as int].dns_name)
                && c.update_old[i as int].record_type == c.update_new[i as int].record_type
                ==> #[trigger] agenda::with_domains(
                p,
                c,
                TaskView::UpdateFrom(i, old_zone),
                zones,
            ) == Ok::<Seq<TaskView>, ErrorView>(seq![TaskView::Remove(i, zone)]),
        forall|old_zone: Seq<char>|
            home(zones, c.update_new[i as int], zone) && !(old_zone == zone && text::normalized(
                c.update_old[i as int].dns_name,
            ) == text::normalized(c.update_new[i as int].dns_name)
                && c.update_old[i as int].record_type == c.update_new[i as int].record_type)
                ==> #[trigger] agenda::with_domains(
                p,
                c,
                TaskView::UpdateFrom(i, old_zone),
                zones,
            ) == Ok::<Seq<TaskView>, ErrorView>(
                seq![TaskView::Delete(Slot::UpdateOld(i)), TaskView::Create(Slot::UpdateNew(i))],
            ),
{
    if home(zones, agenda::endpoint_at(c, slot), zone) {
        home_is_found(zones, agenda::endpoint_at(c, slot), zone);
    }
    if home(zones, c.update_old[i as int], zone) {
        home_is_found(zones, c.update_old[i as int], zone);
    }
    if home(zones, c.update_new[i as int], zone) {
        home_is_found(zones, c.update_new[i as int], zone);
    }
}

/// Each deletion, creation and part of an update becomes its plan for the records of the
/// zone, whatever else is asked for; an update removes, then edits, then adds.
pub proof fn work_becomes_plans(
    c: ChangesView,
    slot: Slot,
    i: usize,
    zone: Seq<char>,
    records: Seq<RecordView>,
    prio: Option<u32>,
)
    ensures
        agenda::with_records(c, TaskView::DeleteIn(slot, zone), records) == Ok::<
            Seq<TaskView>,
            ErrorView,
        >(agenda::carried(slot, plan::deletion(records, zone, agenda::endpoint_at(c, slot)))),
        rules::priority_of(agenda::endpoint_at(c, slot).provider_specific) == Ok::<
            Option<u32>,
            ErrorView,
        >(prio) ==> agenda::with_records(c, TaskView::CreateIn(slot, zone), records) == Ok::<
            Seq<TaskView>,
            ErrorView,
        >(agenda::carried(slot, plan::creation(records, zone, agenda::endpoint_at(c, slot), prio))),
        rules::priority_of(c.update_new[i as int].provider_specific) == Ok::<
            Option<u32>,
            ErrorView,
        >(prio) ==> {
            let old_endpoint = c.update_old[i as int];
            let new_endpoint = c.update_new[i as int];
            &&& agenda::with_records(c, TaskView::Remove(i, zone), records) == Ok::<
                Seq<TaskView>,
                ErrorView,
            >(
                agenda::carried(
                    Slot::UpdateOld(i),
                    plan::update_removals(records, zone, old_endpoint, new_endpoint),
                ).push(TaskView::Edit(i, zone)),
            )
            &&& (exists|k: int|
                0 <= k < new_endpoint.targets.len() && !outcome::has_target(
                    old_endpoint,
                    #[trigger] new_endpoint.targets[k],
                )) && old_endpoint.record_type == new_endpoint.record_type ==> agenda::with_records(
                c,
                TaskView::Edit(i, zone),
                records,
            ) == Ok::<Seq<TaskView>, ErrorView>(
                agenda::carried(
                    Slot::UpdateNew(i),
                    plan::update_edits(records, zone, old_endpoint, new_endpoint, prio),
                ).push(TaskView::Add(i, zone)),
            )
            &&& (forall|k: int|
                0 <= k < new_endpoint.targets.len() ==> outcome::has_target(
                    old_endpoint,
                    #[trigger] new_endpoint.targets[k],
                )) && old_endpoint.record_type == new_endpoint.record_type ==> agenda::with_records(
                c,
                TaskView::Edit(i, zone),
                records,
            ) == Ok::<Seq<TaskView>, ErrorView>(
                agenda::carried(
                    Slot::UpdateNew(i),
                    plan::update_edits(records, zone, old_endpoint, new_endpoint, prio),
                ),
            )
            &&& agenda::with_records(c, TaskView::Add(i, zone), records) == Ok::<
                Seq<TaskView>,
                ErrorView,
            >(
                agenda::carried(
                    Slot::UpdateNew(i),
                    plan::update_additions(records, zone, old_endpoint, new_endpoint, prio),
                ),
            )
        },
{
    let old_endpoint = c.update_old[i as int];
    let new_endpoint = c.update_new[i as int];
    let kind = new_endpoint.record_type;
    if rules::priority_of(new_endpoint.provider_specific) == Ok::<Option<u32>, ErrorView>(prio) {
        let removals = agenda::carried(
            Slot::UpdateOld(i),
            plan::update_removals(records, zone, old_endpoint, new_endpoint),
        );
        assert(removals + seq![TaskView::Edit(i, zone)] =~= removals.push(TaskView::Edit(i, zone)));
        if (exists|k: int|
            0 <= k < new_endpoint.targets.len() && !outcome::has_target(
                old_endpoint,
                #[trigger] new_endpoint.targets[k],
            )) && old_endpoint.record_type == kind {
            let k = choose|k: int|
                0 <= k < new_endpoint.targets.len() && !outcome::has_target(
                    old_endpoint,
                    #[trigger] new_endpoint.targets[k],
                );
            let t = new_endpoint.targets[k];
            outcome::listed_where_alike(old_endpoint.targets, t, kind);
            assert(rules::same_target(new_endpoint.targets[k], t, kind));
            laws::compared_lists(new_endpoint.targets, old_endpoint.targets, kind, false, t);
            assert(plan::added_targets(old_endpoint, new_endpoint).len() > 0);
            let edits = agenda::carried(
                Slot::UpdateNew(i),
                plan::update_edits(records, zone, old_endpoint, new_endpoint, prio),
            );
            assert(edits + seq![TaskView::Add(i, zone)] =~= edits.push(TaskView::Add(i, zone)));
        }
        if (forall|k: int|
            0 <= k < new_endpoint.targets.len() ==> outcome::has_target(
                old_endpoint,
                #[trigger] new_endpoint.targets[k],
            )) && old_endpoint.record_type == kind {
            let added = plan::added_targets(old_endpoint, new_endpoint);
            let pred = plan::in_common(old_endpoint.targets, kind, false);
            if added.len() > 0 {
                laws::distinct_stems(new_endpoint.targets.filter(pred), kind, 0);
                let some = new_endpoint.targets.filter(pred);
                let j = choose|j: int| 0 <= j < some.len() && some[j] == added[0];
                new_endpoint.targets.lemma_filter_contains_rev(pred, added[0]);
                new_endpoint.targets.lemma_filter_pred(pred, j);
                outcome::listed_where_alike(old_endpoint.targets, added[0], kind);
                let k = choose|k: int|
                    0 <= k < new_endpoint.targets.len() && new_endpoint.targets[k] == added[0];
                assert(outcome::has_target(old_endpoint, new_endpoint.targets[k]));
            }
            let edits = agenda::carried(
                Slot::UpdateNew(i),
                plan::update_edits(records, zone, old_endpoint, new_endpoint, prio),
            );
            assert(edits + Seq::<TaskView>::empty() =~= edits);
        }
    }
}

/// A task to carry out a mutation stands for just that mutation, in its place in the plan.
pub proof fn plans_are_carried_in_place(
    slot: Slot,
    mutations: Seq<plan::MutationView>,
    k: int,
)
    requires
        0 <= k < mutations.len(),
    ensures
        agenda::carried(slot, mutations).len() == mutations.len(),
        agenda::carried(slot, mutations)[k] == TaskView::Carry(slot, mutations[k]),
{
}

/// Endpoints stand in their lists at their places.
pub proof fn endpoints_stand_in_place(c: ChangesView, i: usize)
    ensures
        agenda::endpoint_at(c, Slot::Create(i)) == c.create[i as int],
        agenda::endpoint_at(c, Slot::UpdateOld(i)) == c.update_old[i as int],
        agenda::endpoint_at(c, Slot::UpdateNew(i)) == c.update_new[i as int],
        agenda::endpoint_at(c, Slot::Delete(i)) == c.delete[i as int],
{
}

/// How many parts of updates are left that add records.
pub open spec fn additions_left(tasks: Seq<TaskView>) -> nat
    decreases tasks.len(),
{
    if tasks.len() == 0 {
        0
    } else {
        additions_left(tasks.drop_first()) + if tasks[0] is Add {
            1nat
        } else {
            0
        }
    }
}

proof fn additions_left_of_both(a: Seq<TaskView>, b: Seq<TaskView>)
    ensures
        additions_left(a + b) == additions_left(a) + additions_left(b),
    decreases a.len(),
{
    if a.len() == 0 {
        assert(a + b =~= b);
    } else {
        additions_left_of_both(a.drop_first(), b);
        assert((a + b).drop_first() =~= a.drop_first() + b);
    }
}

proof fn carried_has_no_additions(slot: Slot, mutations: Seq<plan::MutationView>)
    ensures
        additions_left(agenda::carried(slot, mutations)) == 0,
        agenda::load_of(agenda::carried(slot, mutations)) == 0,
    decreases mutations.len(),
{
    let tasks = agenda::carried(slot, mutations);
    if mutations.len() > 0 {
        carried_has_no_additions(slot, mutations.drop_first());
        assert(tasks.drop_first() =~= agenda::carried(slot, mutations.drop_first()));
    }
}

/// There is less left to do: fewer times tasks can take the place of others, or as many and
/// fewer additions of updates to plan, or as many of both and fewer tasks.
pub open spec fn less_left(after: Seq<TaskView>, before: Seq<TaskView>) -> bool {
    ||| agenda::load_of(after) < agenda::load_of(before)
    ||| agenda::load_of(after) == agenda::load_of(before) && additions_left(after)
        < additions_left(before)
    ||| agenda::load_of(after) == agenda::load_of(before) && additions_left(after)
        == additions_left(before) && after.len() < before.len()
}

proof fn settling_keeps_less_left(p: Policy, run: RunView, before: Seq<TaskView>)
    requires
        less_left(run.agenda, before),
    ensures
        less_left(agenda::settle(p, run).run.agenda, before),
{
    conduct::settle_does_not_grow(p, run);
    let after = agenda::settle(p, run).run.agenda;
    if after.len() == 0 {
        assert(additions_left(after) == 0);
        assert(agenda::load_of(after) == 0);
    }
}

proof fn load_of_both(a: Seq<TaskView>, b: Seq<TaskView>)
    ensures
        agenda::load_of(a + b) == agenda::load_of(a) + agenda::load_of(b),
    decreases a.len(),
{
    if a.len() == 0 {
        assert(a + b =~= b);
    } else {
        load_of_both(a.drop_first(), b);
        assert((a + b).drop_first() =~= a.drop_first() + b);
    }
}

/// Every reply brings the work forward: after it there is less left to do, so that the work
/// comes to an end.
pub proof fn every_reply_brings_work_forward(p: Policy, run: RunView, event: ApplyEventView)
    requires
        run.awaits(event),
    ensures
        less_left(agenda::resume(p, run, event).run.agenda, run.agenda),
{
    let task = run.agenda[0];
    let rest = run.agenda.drop_first();
    let none = Seq::<TaskView>::empty();
    assert(additions_left(none) == 0 && agenda::load_of(none) == 0);
    assert(agenda::load_of(run.agenda) == task.load() + agenda::load_of(rest));
    agenda::load_falls(p, run.changes, task);
    match event {
        ApplyEventView::Domains(Ok(zones)) => match agenda::with_domains(
            p,
            run.changes,
            task,
            zones,
        ) {
            Ok(tasks) => {
                load_of_both(tasks, rest);
                settling_keeps_less_left(p, run.replace(tasks), run.agenda);
            },
            Err(x) => {},
        },
        ApplyEventView::Records(Ok(records)) => match agenda::with_records(
            run.changes,
            task,
            records,
        ) {
            Ok(tasks) => {
                let listed = RunView {
                    cache: run.cache.insert(task.needs_records()->0, records),
                    ..run
                };
                load_of_both(tasks, rest);
                additions_left_of_both(tasks, rest);
                if task is Add {
                    let i = task->Add_0;
                    let old_endpoint = run.changes.update_old[i as int];
                    let new_endpoint = run.changes.update_new[i as int];
                    carried_has_no_additions(
                        Slot::UpdateNew(i),
                        plan::update_additions(
                            records,
                            task->Add_1,
                            old_endpoint,
                            new_endpoint,
                            rules::priority_of(new_endpoint.provider_specific)->Ok_0,
                        ),
                    );
                }
                settling_keeps_less_left(p, listed.replace(tasks), run.agenda);
            },
            Err(x) => {},
        },
        ApplyEventView::Mutated(Ok(_)) => {
            assert(none + rest =~= rest);
            let left = RunView { cache: run.cache.remove(task->Carry_1.zone()), ..run }.replace(
                none,
            );
            settling_keeps_less_left(p, left, run.agenda);
        },
        ApplyEventView::Noted => {
            assert(none + rest =~= rest);
            settling_keeps_less_left(p, run.replace(none), run.agenda);
        },
        _ => {},
    }
}

} // verus!

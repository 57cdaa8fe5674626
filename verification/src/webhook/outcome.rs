//! What the webhook brings about, told by the names, types, targets and numbers themselves.
use crate::error::ErrorView;
use crate::number;
use crate::porkbun::types::{ParamsView, RecordView};
use crate::text;
use crate::webhook::laws;
use crate::webhook::plan;
use crate::webhook::plan::{Mutation, MutationView};
use crate::webhook::rules;
use crate::webhook::types::{EndpointView, PropertyView};
use vstd::prelude::*;

verus! {

/// The two targets of records of this type are the same: hosts by their canonical names,
/// and anything else letter by letter.
pub open spec fn alike(a: Seq<char>, b: Seq<char>, record_type: Seq<char>) -> bool {
    if record_type == "CNAME"@ || record_type == "MX"@ || record_type == "SRV"@ {
        text::normalized(a) == text::normalized(b)
    } else {
        a == b
    }
}

/// The endpoint has the target.
pub open spec fn has_target(e: EndpointView, t: Seq<char>) -> bool {
    exists|i: int| 0 <= i < e.targets.len() && #[trigger] alike(e.targets[i], t, e.record_type)
}

/// The record of the zone has the name and the type of the endpoint; one without a name is
/// that of the zone itself.
pub open spec fn is_of(zone: Seq<char>, e: EndpointView, r: RecordView) -> bool {
    &&& r.record_type == e.record_type
    &&& text::normalized(e.dns_name) == if text::normalized(r.name).len() == 0 {
        zone
    } else {
        text::normalized(r.name)
    }
}

/// The name is that of the zone, or ends with a dot and that of the zone.
pub open spec fn lies_in(name: Seq<char>, zone: Seq<char>) -> bool {
    ||| name == zone
    ||| name.len() > zone.len() && name[name.len() - zone.len() - 1] == '.' && name.skip(
        name.len() - zone.len(),
    ) == zone
}

/// The setting is there and writes the number.
pub open spec fn gives(setting: Option<Seq<char>>, n: u32) -> bool {
    setting is Some && number::writes(setting->0, n as nat)
}

/// The endpoint asks for records to live this long.
pub open spec fn asks_ttl(e: EndpointView, n: u32) -> bool {
    n > 0 && e.record_ttl == Some(n as i64)
}

/// The property is the first that is called `priority`.
pub open spec fn is_priority(properties: Seq<PropertyView>, i: int) -> bool {
    &&& 0 <= i < properties.len()
    &&& properties[i].name == "priority"@
    &&& forall|j: int| 0 <= j < i ==> (#[trigger] properties[j]).name != "priority"@
}

/// The endpoint asks for this priority.
pub open spec fn asks_prio(e: EndpointView, n: u32) -> bool {
    exists|i: int| #[trigger]
        is_priority(e.provider_specific, i) && number::writes(
            e.provider_specific[i].value,
            n as nat,
        )
}

/// The record lives as long as is asked for and has the priority that is asked for, as far
/// as the record tells and the endpoint asks.
pub open spec fn in_line(e: EndpointView, prio: Option<u32>, r: RecordView) -> bool {
    &&& forall|a: u32, b: u32| #[trigger] gives(r.ttl, a) && #[trigger] asks_ttl(e, b) ==> a == b
    &&& forall|a: u32| #[trigger] gives(r.prio, a) && prio is Some ==> prio == Some(a)
}

/// The type is one of those that are managed.
pub open spec fn documented_type(record_type: Seq<char>) -> bool {
    ||| record_type == "A"@
    ||| record_type == "AAAA"@
    ||| record_type == "CNAME"@
    ||| record_type == "TXT"@
    ||| record_type == "MX"@
    ||| record_type == "SRV"@
}

/// Hosts are compared by their canonical names, other targets letter by letter.
pub proof fn targets_are_the_same_where_alike(
    a: Seq<char>,
    b: Seq<char>,
    record_type: Seq<char>,
)
    ensures
        rules::same_target(a, b, record_type) <==> alike(a, b, record_type),
{
    rules::targets_are_compared(a, b, record_type);
}

/// A list of targets holds one that is the same exactly where it holds one that is alike.
pub proof fn listed_where_alike(targets: Seq<Seq<char>>, t: Seq<char>, record_type: Seq<char>)
    ensures
        plan::listed(targets, t, record_type) <==> exists|i: int|
            0 <= i < targets.len() && #[trigger] alike(targets[i], t, record_type),
{
    assert forall|i: int| 0 <= i < targets.len() implies #[trigger] alike(
        targets[i],
        t,
        record_type,
    ) == rules::same_target(targets[i], t, record_type) by {
        targets_are_the_same_where_alike(targets[i], t, record_type);
    }
    if plan::listed(targets, t, record_type) {
        let i = choose|i: int|
            0 <= i < targets.len() && #[trigger] rules::same_target(targets[i], t, record_type);
        assert(alike(targets[i], t, record_type));
    }
    if exists|i: int| 0 <= i < targets.len() && #[trigger] alike(targets[i], t, record_type) {
        let i = choose|i: int|
            0 <= i < targets.len() && #[trigger] alike(targets[i], t, record_type);
        assert(rules::same_target(targets[i], t, record_type));
    }
}

/// Records belong to endpoints by name and type.
pub proof fn records_belong_by_name_and_type(zone: Seq<char>, e: EndpointView, r: RecordView)
    ensures
        rules::belongs(zone, e, r) <==> is_of(zone, e, r),
{
}

/// A name lies in a zone exactly where it is under it.
pub proof fn lying_in_is_being_under(name: Seq<char>, zone: Seq<char>)
    ensures
        text::under(name, zone) <==> lies_in(name, zone),
{
    text::under_is_below_a_dot(name, zone);
    if lies_in(name, zone) && name != zone {
        let front = name.take(name.len() - zone.len() - 1);
        text::under_is_below_a_dot(front, zone);
        assert(name =~= front + seq!['.'] + name.skip(name.len() - zone.len()));
    }
    if text::under(name, zone) && name != zone {
        let front = name.take(name.len() - zone.len() - 1);
        assert(name == front + seq!['.'] + zone);
        assert(name[name.len() - zone.len() - 1] == (front + seq!['.'] + zone)[front.len() as int]);
        assert(name.skip(name.len() - zone.len()) =~= zone);
    }
}

/// The zone of a name is the longest of the zones that the name lies in; a name that lies in
/// none has no zone.
pub proof fn longest_zone_is_found(name: Seq<char>, zones: Seq<Seq<char>>)
    ensures
        match rules::zone_of(name, zones) {
            Some(z) => {
                &&& zones.contains(z)
                &&& lies_in(name, z)
                &&& forall|i: int|
                    0 <= i < zones.len() && lies_in(name, #[trigger] zones[i]) ==> zones[i] == z
                        || zones[i].len() < z.len()
            },
            None => forall|i: int| 0 <= i < zones.len() ==> !lies_in(name, #[trigger] zones[i]),
        },
{
    rules::zone_of_is_longest(name, zones);
    assert forall|z: Seq<char>| #[trigger] lies_in(name, z) == text::under(name, z) by {
        lying_in_is_being_under(name, z);
    }
    if rules::zone_of(name, zones) is Some {
        let z = rules::zone_of(name, zones)->0;
        assert(lies_in(name, z));
        assert forall|i: int|
            0 <= i < zones.len() && lies_in(name, #[trigger] zones[i]) implies zones[i] == z
            || zones[i].len() < z.len() by {
            assert(text::under(name, zones[i]));
            if zones[i].len() == z.len() && name.len() > z.len() {
                assert(name.skip(name.len() - z.len()) == zones[i]);
            }
        }
    } else {
        assert forall|i: int| 0 <= i < zones.len() implies !lies_in(name, #[trigger] zones[i]) by {
            assert(!text::under(name, zones[i]));
        }
    }
}

/// The name that the service keeps is what stands before the zone.
pub proof fn subdomain_is_before_zone(dns_name: Seq<char>, zone: Seq<char>)
    requires
        lies_in(text::normalized(dns_name), zone),
    ensures
        text::normalized(dns_name) == zone ==> rules::subdomain_of(dns_name, zone).len() == 0,
        text::normalized(dns_name) != zone ==> rules::subdomain_of(dns_name, zone) + seq!['.']
            + zone == text::normalized(dns_name),
{
    let n = text::normalized(dns_name);
    if n != zone {
        let front = n.take(n.len() - zone.len() - 1);
        assert(n =~= front + seq!['.'] + n.skip(n.len() - zone.len()));
        text::under_is_below_a_dot(front, zone);
    }
}

proof fn first_priority_is_read(properties: Seq<PropertyView>, i: int)
    requires
        is_priority(properties, i),
    ensures
        rules::priority_text(properties) == Some(properties[i].value),
    decreases i,
{
    if i > 0 {
        assert(properties[0].name != "priority"@);
        let rest = properties.drop_first();
        assert forall|j: int| 0 <= j < i - 1 implies (#[trigger] rest[j]).name != "priority"@ by {
            assert(rest[j] == properties[j + 1]);
        }
        first_priority_is_read(rest, i - 1);
    }
}

proof fn no_priority_is_read(properties: Seq<PropertyView>)
    requires
        forall|j: int| 0 <= j < properties.len() ==> (#[trigger] properties[j]).name != "priority"@,
    ensures
        rules::priority_text(properties) is None,
    decreases properties.len(),
{
    if properties.len() > 0 {
        let rest = properties.drop_first();
        assert(properties[0].name != "priority"@);
        assert forall|j: int| 0 <= j < rest.len() implies (#[trigger] rest[j]).name
            != "priority"@ by {
            assert(rest[j] == properties[j + 1]);
        }
        no_priority_is_read(rest);
    }
}

/// The priority is the number that the first property called `priority` writes; without such
/// a property there is none, and one that writes no number is refused.
pub proof fn priority_is_first_property(e: EndpointView, i: int, n: u32)
    ensures
        is_priority(e.provider_specific, i) && number::writes(
            e.provider_specific[i].value,
            n as nat,
        ) ==> rules::priority_of(e.provider_specific) == Ok::<Option<u32>, ErrorView>(Some(n)),
        is_priority(e.provider_specific, i) && (forall|m: u32|
            !#[trigger] number::writes(e.provider_specific[i].value, m as nat))
            ==> rules::priority_of(e.provider_specific) == Err::<Option<u32>, ErrorView>(
            ErrorView::InvalidRequest(
                "Invalid priority value: "@ + e.provider_specific[i].value,
            ),
        ),
        (forall|j: int|
            0 <= j < e.provider_specific.len() ==> (#[trigger] e.provider_specific[j]).name
                != "priority"@) ==> rules::priority_of(e.provider_specific) == Ok::<
            Option<u32>,
            ErrorView,
        >(None),
{
    if is_priority(e.provider_specific, i) {
        first_priority_is_read(e.provider_specific, i);
        number::u32_is_read_as_written(e.provider_specific[i].value, n);
    }
    if forall|j: int|
        0 <= j < e.provider_specific.len() ==> (#[trigger] e.provider_specific[j]).name
            != "priority"@ {
        no_priority_is_read(e.provider_specific);
    }
}

/// Where some property is called `priority`, one is the first.
pub(crate) proof fn first_priority_exists(properties: Seq<PropertyView>, k: int) -> (i: int)
    requires
        0 <= k < properties.len(),
        properties[k].name == "priority"@,
    ensures
        is_priority(properties, i),
    decreases k,
{
    if forall|j: int| 0 <= j < k ==> (#[trigger] properties[j]).name != "priority"@ {
        k
    } else {
        let j = choose|j: int| 0 <= j < k && (#[trigger] properties[j]).name == "priority"@;
        first_priority_exists(properties, j)
    }
}

/// A priority that is read is one that is asked for, and the only one.
pub proof fn priority_is_what_is_asked_for(e: EndpointView, n: u32)
    ensures
        asks_prio(e, n) <==> rules::priority_of(e.provider_specific) == Ok::<
            Option<u32>,
            ErrorView,
        >(Some(n)),
{
    let all = e.provider_specific;
    if asks_prio(e, n) {
        let i = choose|i: int| #[trigger]
            is_priority(all, i) && number::writes(all[i].value, n as nat);
        priority_is_first_property(e, i, n);
    }
    if rules::priority_of(all) == Ok::<Option<u32>, ErrorView>(Some(n)) {
        if forall|j: int| 0 <= j < all.len() ==> (#[trigger] all[j]).name != "priority"@ {
            priority_is_first_property(e, 0, n);
        } else {
            let k = choose|k: int|
                0 <= k < all.len() && (#[trigger] all[k]).name == "priority"@;
            let i = first_priority_exists(all, k);
            first_priority_is_read(all, i);
            number::u32_is_read_as_written(all[i].value, n);
        }
    }
}

/// A time to live counts where it is positive and fits into 32 bits, and as it is.
pub proof fn ttl_counts_as_it_is(e: EndpointView, n: u32)
    ensures
        asks_ttl(e, n) <==> rules::ttl_of(e.record_ttl) == Some(n),
        rules::ttl_of(e.record_ttl) is None <==> (e.record_ttl matches Some(t) ==> t <= 0 || t
            > 4294967295),
{
}

/// Two settings disagree exactly where both are given as different numbers.
pub proof fn different_numbers_disagree(a: Option<u32>, b: Option<u32>)
    ensures
        rules::agree(a, b) <==> (a is None || b is None || a->0 == b->0),
{
}

/// A record counts as settled exactly where it is in line with what is asked for, number by
/// number.
pub proof fn settled_is_in_line(e: EndpointView, prio: Option<u32>, r: RecordView)
    ensures
        plan::settled(e, prio, r) <==> in_line(e, prio, r),
{
    assert forall|a: u32| #[trigger] gives(r.ttl, a) == (r.ttl_u32() == Some(a)) by {
        if r.ttl is Some {
            number::u32_is_read_as_written(r.ttl->0, a);
        }
    }
    assert forall|a: u32| #[trigger] gives(r.prio, a) == (r.prio_u32() == Some(a)) by {
        if r.prio is Some {
            number::u32_is_read_as_written(r.prio->0, a);
        }
    }
    assert forall|b: u32| #[trigger] asks_ttl(e, b) == (rules::ttl_of(e.record_ttl) == Some(b)) by {
        ttl_counts_as_it_is(e, b);
    }
    if in_line(e, prio, r) {
        if r.ttl_u32() is Some && rules::ttl_of(e.record_ttl) is Some {
            assert(gives(r.ttl, r.ttl_u32()->0));
            assert(asks_ttl(e, rules::ttl_of(e.record_ttl)->0));
        }
        if r.prio_u32() is Some {
            assert(gives(r.prio, r.prio_u32()->0));
        }
    }
}

/// The managed types are the documented ones.
pub proof fn managed_types_are_documented(record_type: Seq<char>)
    ensures
        rules::supported(record_type) <==> documented_type(record_type),
{
}

/// A name is given the zone that holds it; where none does, the refusal tells whether a
/// filter or the account is at fault.
pub proof fn names_without_zone_are_refused(
    filtered: bool,
    zones: Seq<Seq<char>>,
    dns_name: Seq<char>,
)
    ensures
        (exists|i: int|
            0 <= i < zones.len() && lies_in(text::normalized(dns_name), #[trigger] zones[i]))
            ==> (rules::resolved(filtered, zones, dns_name) matches Ok(z) && zones.contains(z)
            && lies_in(text::normalized(dns_name), z)),
        !(exists|i: int|
            0 <= i < zones.len() && lies_in(text::normalized(dns_name), #[trigger] zones[i]))
            ==> rules::resolved(filtered, zones, dns_name) == Err::<Seq<char>, ErrorView>(
            if filtered {
                ErrorView::DomainNotAllowed("No configured zone matches "@ + dns_name)
            } else {
                ErrorView::InvalidRequest("No owned domain matches "@ + dns_name)
            },
        ),
{
    longest_zone_is_found(text::normalized(dns_name), zones);
}

/// The zone holds a record of the endpoint with the target that is in line with it.
pub open spec fn has_record(
    records: Seq<RecordView>,
    zone: Seq<char>,
    e: EndpointView,
    prio: Option<u32>,
    t: Seq<char>,
) -> bool {
    exists|i: int|
        0 <= i < records.len() && is_of(zone, e, #[trigger] records[i]) && alike(
            records[i].content,
            t,
            e.record_type,
        ) && in_line(e, prio, records[i])
}

/// The contents are those of a record of the endpoint with the target, as it is written among
/// the endpoint's own: its type, its name without the zone, and the time to live and the
/// priority that are asked for.
pub open spec fn describes(
    zone: Seq<char>,
    e: EndpointView,
    prio: Option<u32>,
    t: Seq<char>,
    params: ParamsView,
) -> bool {
    let name = text::normalized(e.dns_name);
    &&& params.record_type == e.record_type
    &&& alike(params.content, t, e.record_type)
    &&& e.targets.contains(params.content)
    &&& params.prio == prio
    &&& forall|n: u32| #[trigger] asks_ttl(e, n) <==> params.ttl == Some(n)
    &&& lies_in(name, zone) ==> if name == zone {
        params.subdomain.len() == 0
    } else {
        params.subdomain + seq!['.'] + zone == name
    }
}

/// The mutation adds a record of the endpoint with the target.
pub open spec fn adds_target(
    m: MutationView,
    zone: Seq<char>,
    e: EndpointView,
    prio: Option<u32>,
    t: Seq<char>,
) -> bool {
    m matches MutationView::Add { zone: z, params } && z == zone && describes(
        zone,
        e,
        prio,
        t,
        params,
    )
}

/// Some mutation adds a record of the endpoint with the target.
pub open spec fn adds_somewhere(
    mutations: Seq<MutationView>,
    zone: Seq<char>,
    e: EndpointView,
    prio: Option<u32>,
    t: Seq<char>,
) -> bool {
    exists|k: int|
        0 <= k < mutations.len() && adds_target(#[trigger] mutations[k], zone, e, prio, t)
}

/// The mutation adds a record of the endpoint with one of the targets, where the zone holds
/// none that is in line with it.
pub open spec fn adds_missing(
    m: MutationView,
    records: Seq<RecordView>,
    zone: Seq<char>,
    e: EndpointView,
    prio: Option<u32>,
    targets: Seq<Seq<char>>,
) -> bool {
    exists|i: int|
        0 <= i < targets.len() && !has_record(records, zone, e, prio, #[trigger] targets[i])
            && adds_target(m, zone, e, prio, targets[i])
}

proof fn wanted_describes(
    zone: Seq<char>,
    e: EndpointView,
    prio: Option<u32>,
    t: Seq<char>,
    u: Seq<char>,
)
    requires
        alike(t, u, e.record_type),
        e.targets.contains(t),
    ensures
        describes(zone, e, prio, u, plan::wanted(zone, e, prio, t)),
{
    let params = plan::wanted(zone, e, prio, t);
    assert forall|n: u32| #[trigger] asks_ttl(e, n) <==> params.ttl == Some(n) by {
        ttl_counts_as_it_is(e, n);
    }
    if lies_in(text::normalized(e.dns_name), zone) {
        subdomain_is_before_zone(e.dns_name, zone);
    }
}

proof fn provided_has_record(
    records: Seq<RecordView>,
    zone: Seq<char>,
    e: EndpointView,
    prio: Option<u32>,
    t: Seq<char>,
)
    ensures
        plan::provided(plan::matching(records, zone, e), e, prio, t) <==> has_record(
            records,
            zone,
            e,
            prio,
            t,
        ),
{
    let some = plan::matching(records, zone, e);
    if plan::provided(some, e, prio, t) {
        let k = choose|k: int| 0 <= k < some.len() && #[trigger] plan::provides(e, prio, some[k], t);
        let r = some[k];
        assert(some.contains(r));
        laws::matching_has(records, zone, e, r);
        let i = choose|i: int| 0 <= i < records.len() && records[i] == r;
        records_belong_by_name_and_type(zone, e, r);
        settled_is_in_line(e, prio, r);
        targets_are_the_same_where_alike(r.content, t, e.record_type);
        assert(is_of(zone, e, records[i]));
    }
    if has_record(records, zone, e, prio, t) {
        let i = choose|i: int|
            0 <= i < records.len() && is_of(zone, e, #[trigger] records[i]) && alike(
                records[i].content,
                t,
                e.record_type,
            ) && in_line(e, prio, records[i]);
        let r = records[i];
        records_belong_by_name_and_type(zone, e, r);
        settled_is_in_line(e, prio, r);
        targets_are_the_same_where_alike(r.content, t, e.record_type);
        assert(records.contains(r));
        laws::matching_has(records, zone, e, r);
        let k = choose|k: int| 0 <= k < some.len() && some[k] == r;
        assert(plan::provides(e, prio, some[k], t));
    }
}

proof fn additions_are_complete(
    records: Seq<RecordView>,
    zone: Seq<char>,
    e: EndpointView,
    prio: Option<u32>,
    targets: Seq<Seq<char>>,
)
    requires
        forall|t: Seq<char>| #[trigger] targets.contains(t) ==> e.targets.contains(t),
    ensures
        forall|t: Seq<char>| #[trigger]
            targets.contains(t) ==> has_record(records, zone, e, prio, t) || adds_somewhere(
                plan::additions(records, zone, e, prio, plan::distinct(targets, e.record_type)),
                zone,
                e,
                prio,
                t,
            ),
        forall|k: int|
            0 <= k < plan::additions(
                records,
                zone,
                e,
                prio,
                plan::distinct(targets, e.record_type),
            ).len() ==> adds_missing(
                #[trigger] plan::additions(
                    records,
                    zone,
                    e,
                    prio,
                    plan::distinct(targets, e.record_type),
                )[k],
                records,
                zone,
                e,
                prio,
                targets,
            ),
{
    let kind = e.record_type;
    let ts = plan::distinct(targets, kind);
    let some = plan::matching(records, zone, e);
    let f = plan::addition(some, zone, e, prio);
    let whole = plan::additions(records, zone, e, prio, ts);
    assert forall|t: Seq<char>| #[trigger] targets.contains(t) implies has_record(
        records,
        zone,
        e,
        prio,
        t,
    ) || adds_somewhere(whole, zone, e, prio, t) by {
        let i = choose|i: int| 0 <= i < targets.len() && targets[i] == t;
        assert(rules::same_target(targets[i], t, kind));
        plan::distinct_lists_all(targets, t, kind);
        let k = choose|k: int| 0 <= k < ts.len() && #[trigger] rules::same_target(ts[k], t, kind);
        targets_are_the_same_where_alike(ts[k], t, kind);
        provided_has_record(records, zone, e, prio, ts[k]);
        if plan::provided(some, e, prio, ts[k]) {
            let j = choose|j: int|
                0 <= j < records.len() && is_of(zone, e, #[trigger] records[j]) && alike(
                    records[j].content,
                    ts[k],
                    kind,
                ) && in_line(e, prio, records[j]);
            assert(alike(records[j].content, t, kind));
        } else {
            laws::kept_is_there(ts, f, k);
            let m = MutationView::Add { zone, params: plan::wanted(zone, e, prio, ts[k]) };
            let j = choose|j: int| 0 <= j < whole.len() && whole[j] == m;
            laws::distinct_stems(targets, kind, k);
            assert(targets.contains(ts[k]));
            wanted_describes(zone, e, prio, ts[k], t);
            assert(adds_target(whole[j], zone, e, prio, t));
        }
    }
    assert forall|k: int| 0 <= k < whole.len() implies adds_missing(
        #[trigger] whole[k],
        records,
        zone,
        e,
        prio,
        targets,
    ) by {
        let a = laws::kept_stems(ts, f, k);
        laws::distinct_stems(targets, kind, a);
        provided_has_record(records, zone, e, prio, ts[a]);
        assert(targets.contains(ts[a]));
        wanted_describes(zone, e, prio, ts[a], ts[a]);
        let i = choose|i: int| 0 <= i < targets.len() && targets[i] == ts[a];
        assert(!has_record(records, zone, e, prio, targets[i]));
    }
}

/// Creation is complete: for each target of the endpoint the zone holds a record that is in
/// line with it, or one is added; and nothing else is added.
pub proof fn creation_is_complete(
    records: Seq<RecordView>,
    zone: Seq<char>,
    e: EndpointView,
    prio: Option<u32>,
)
    ensures
        forall|i: int|
            0 <= i < e.targets.len() ==> has_record(
                records,
                zone,
                e,
                prio,
                #[trigger] e.targets[i],
            ) || adds_somewhere(
                plan::creation(records, zone, e, prio),
                zone,
                e,
                prio,
                e.targets[i],
            ),
        forall|k: int|
            0 <= k < plan::creation(records, zone, e, prio).len() ==> adds_missing(
                #[trigger] plan::creation(records, zone, e, prio)[k],
                records,
                zone,
                e,
                prio,
                e.targets,
            ),
{
    additions_are_complete(records, zone, e, prio, e.targets);
    assert forall|i: int| 0 <= i < e.targets.len() implies has_record(
        records,
        zone,
        e,
        prio,
        #[trigger] e.targets[i],
    ) || adds_somewhere(plan::creation(records, zone, e, prio), zone, e, prio, e.targets[i]) by {
        assert(e.targets.contains(e.targets[i]));
    }
}

/// The mutation adds a record of the new endpoint with a target that the old one does not
/// have, where the zone holds none that is in line with it.
pub open spec fn adds_new(
    m: MutationView,
    records: Seq<RecordView>,
    zone: Seq<char>,
    old_endpoint: EndpointView,
    new_endpoint: EndpointView,
    prio: Option<u32>,
) -> bool {
    exists|i: int|
        0 <= i < new_endpoint.targets.len() && !has_target(
            old_endpoint,
            #[trigger] new_endpoint.targets[i],
        ) && !has_record(records, zone, new_endpoint, prio, new_endpoint.targets[i])
            && adds_target(m, zone, new_endpoint, prio, new_endpoint.targets[i])
}

/// The additions of an update are complete: for each target that only the new endpoint has
/// the zone holds a record that is in line with it, or one is added; and nothing else is
/// added.
pub proof fn update_additions_are_complete(
    records: Seq<RecordView>,
    zone: Seq<char>,
    old_endpoint: EndpointView,
    new_endpoint: EndpointView,
    prio: Option<u32>,
)
    requires
        old_endpoint.record_type == new_endpoint.record_type,
    ensures
        forall|i: int|
            0 <= i < new_endpoint.targets.len() && !has_target(
                old_endpoint,
                #[trigger] new_endpoint.targets[i],
            ) ==> has_record(records, zone, new_endpoint, prio, new_endpoint.targets[i])
                || adds_somewhere(
                plan::update_additions(records, zone, old_endpoint, new_endpoint, prio),
                zone,
                new_endpoint,
                prio,
                new_endpoint.targets[i],
            ),
        forall|k: int|
            0 <= k < plan::update_additions(
                records,
                zone,
                old_endpoint,
                new_endpoint,
                prio,
            ).len() ==> adds_new(
                #[trigger] plan::update_additions(
                    records,
                    zone,
                    old_endpoint,
                    new_endpoint,
                    prio,
                )[k],
                records,
                zone,
                old_endpoint,
                new_endpoint,
                prio,
            ),
{
    let kind = new_endpoint.record_type;
    let pred = plan::in_common(old_endpoint.targets, kind, false);
    let added = new_endpoint.targets.filter(pred);
    let whole = plan::update_additions(records, zone, old_endpoint, new_endpoint, prio);
    assert forall|t: Seq<char>| #[trigger] added.contains(t) implies new_endpoint.targets.contains(
        t,
    ) by {
        new_endpoint.targets.lemma_filter_contains_rev(pred, t);
    }
    additions_are_complete(records, zone, new_endpoint, prio, added);
    assert forall|i: int|
        0 <= i < new_endpoint.targets.len() && !has_target(
            old_endpoint,
            #[trigger] new_endpoint.targets[i],
        ) implies has_record(records, zone, new_endpoint, prio, new_endpoint.targets[i])
        || adds_somewhere(whole, zone, new_endpoint, prio, new_endpoint.targets[i]) by {
        listed_where_alike(old_endpoint.targets, new_endpoint.targets[i], kind);
        assert(pred(new_endpoint.targets[i]));
        new_endpoint.targets.lemma_filter_contains(pred, i);
        assert(added.contains(new_endpoint.targets[i]));
    }
    assert forall|k: int| 0 <= k < whole.len() implies adds_new(
        #[trigger] whole[k],
        records,
        zone,
        old_endpoint,
        new_endpoint,
        prio,
    ) by {
        assert(adds_missing(whole[k], records, zone, new_endpoint, prio, added));
        let j = choose|j: int|
            0 <= j < added.len() && !has_record(
                records,
                zone,
                new_endpoint,
                prio,
                #[trigger] added[j],
            ) && adds_target(whole[k], zone, new_endpoint, prio, added[j]);
        let t = added[j];
        assert(added.contains(t));
        new_endpoint.targets.lemma_filter_contains_rev(pred, t);
        new_endpoint.targets.lemma_filter_pred(pred, j);
        listed_where_alike(old_endpoint.targets, t, kind);
        let i = choose|i: int| 0 <= i < new_endpoint.targets.len() && new_endpoint.targets[i] == t;
        assert(!has_target(old_endpoint, new_endpoint.targets[i]));
    }
}

/// Deletion removes just the records with the name, the type and a target of the endpoint.
pub proof fn deletion_removes_just_its_records(
    records: Seq<RecordView>,
    zone: Seq<char>,
    e: EndpointView,
)
    ensures
        forall|i: int|
            0 <= i < records.len() && is_of(zone, e, #[trigger] records[i]) && has_target(
                e,
                records[i].content,
            ) ==> plan::deletion(records, zone, e).contains(
                MutationView::Remove { zone, id: records[i].id },
            ),
        forall|k: int|
            0 <= k < plan::deletion(records, zone, e).len() ==> exists|i: int|
                0 <= i < records.len() && is_of(zone, e, #[trigger] records[i]) && has_target(
                    e,
                    records[i].content,
                ) && (#[trigger] plan::deletion(records, zone, e)[k]) == (MutationView::Remove {
                    zone,
                    id: records[i].id,
                }),
{
    let whole = plan::deletion(records, zone, e);
    assert forall|i: int|
        0 <= i < records.len() && is_of(zone, e, #[trigger] records[i]) && has_target(
            e,
            records[i].content,
        ) implies whole.contains(MutationView::Remove { zone, id: records[i].id }) by {
        records_belong_by_name_and_type(zone, e, records[i]);
        listed_where_alike(e.targets, records[i].content, e.record_type);
        laws::deletion_is_exact(
            records,
            zone,
            e,
            MutationView::Remove { zone, id: records[i].id },
        );
    }
    assert forall|k: int| 0 <= k < whole.len() implies exists|i: int|
        0 <= i < records.len() && is_of(zone, e, #[trigger] records[i]) && has_target(
            e,
            records[i].content,
        ) && (#[trigger] whole[k]) == (MutationView::Remove { zone, id: records[i].id }) by {
        assert(whole.contains(whole[k]));
        laws::deletion_is_exact(records, zone, e, whole[k]);
        let i = choose|i: int|
            0 <= i < records.len() && rules::belongs(zone, e, #[trigger] records[i])
                && plan::listed(e.targets, records[i].content, e.record_type) && whole[k] == (
            MutationView::Remove { zone, id: records[i].id });
        records_belong_by_name_and_type(zone, e, records[i]);
        listed_where_alike(e.targets, records[i].content, e.record_type);
        assert(is_of(zone, e, records[i]));
    }
}

/// An update removes just the records of the old endpoint with a target that the new one
/// does not have.
pub proof fn update_removes_just_what_it_drops(
    records: Seq<RecordView>,
    zone: Seq<char>,
    old_endpoint: EndpointView,
    new_endpoint: EndpointView,
)
    requires
        old_endpoint.record_type == new_endpoint.record_type,
    ensures
        forall|i: int|
            0 <= i < records.len() && is_of(zone, old_endpoint, #[trigger] records[i])
                && has_target(old_endpoint, records[i].content) && !has_target(
                new_endpoint,
                records[i].content,
            ) ==> plan::update_removals(records, zone, old_endpoint, new_endpoint).contains(
                MutationView::Remove { zone, id: records[i].id },
            ),
        forall|k: int|
            0 <= k < plan::update_removals(records, zone, old_endpoint, new_endpoint).len()
                ==> exists|i: int|
                0 <= i < records.len() && is_of(zone, old_endpoint, #[trigger] records[i])
                    && has_target(old_endpoint, records[i].content) && !has_target(
                    new_endpoint,
                    records[i].content,
                ) && (#[trigger] plan::update_removals(
                    records,
                    zone,
                    old_endpoint,
                    new_endpoint,
                )[k]) == (MutationView::Remove { zone, id: records[i].id }),
{
    let kind = new_endpoint.record_type;
    let whole = plan::update_removals(records, zone, old_endpoint, new_endpoint);
    assert forall|i: int| 0 <= i < records.len() implies laws::dropped_by(
        zone,
        old_endpoint,
        new_endpoint,
        #[trigger] records[i],
    ) == (is_of(zone, old_endpoint, records[i]) && has_target(old_endpoint, records[i].content)
        && !has_target(new_endpoint, records[i].content)) by {
        records_belong_by_name_and_type(zone, old_endpoint, records[i]);
        listed_where_alike(old_endpoint.targets, records[i].content, kind);
        listed_where_alike(new_endpoint.targets, records[i].content, kind);
    }
    assert forall|i: int|
        0 <= i < records.len() && is_of(zone, old_endpoint, #[trigger] records[i]) && has_target(
            old_endpoint,
            records[i].content,
        ) && !has_target(new_endpoint, records[i].content) implies whole.contains(
        MutationView::Remove { zone, id: records[i].id },
    ) by {
        assert(laws::dropped_by(zone, old_endpoint, new_endpoint, records[i]));
        laws::update_removals_are_exact(
            records,
            zone,
            old_endpoint,
            new_endpoint,
            MutationView::Remove { zone, id: records[i].id },
        );
    }
    assert forall|k: int| 0 <= k < whole.len() implies exists|i: int|
        0 <= i < records.len() && is_of(zone, old_endpoint, #[trigger] records[i]) && has_target(
            old_endpoint,
            records[i].content,
        ) && !has_target(new_endpoint, records[i].content) && (#[trigger] whole[k]) == (
        MutationView::Remove { zone, id: records[i].id }) by {
        assert(whole.contains(whole[k]));
        laws::update_removals_are_exact(records, zone, old_endpoint, new_endpoint, whole[k]);
        let i = choose|i: int|
            0 <= i < records.len() && laws::dropped_by(
                zone,
                old_endpoint,
                new_endpoint,
                #[trigger] records[i],
            ) && whole[k] == (MutationView::Remove { zone, id: records[i].id });
        assert(is_of(zone, old_endpoint, records[i]));
    }
}

/// The mutation edits the record with this id into one of the endpoint with the target.
pub open spec fn edits_into(
    m: MutationView,
    zone: Seq<char>,
    id: Seq<char>,
    e: EndpointView,
    prio: Option<u32>,
    t: Seq<char>,
) -> bool {
    m matches MutationView::Edit { zone: z, id: of, params } && z == zone && of == id && describes(
        zone,
        e,
        prio,
        t,
        params,
    )
}

/// Some mutation edits the record with this id into one of the endpoint with the target.
pub open spec fn edits_somewhere(
    mutations: Seq<MutationView>,
    zone: Seq<char>,
    id: Seq<char>,
    e: EndpointView,
    prio: Option<u32>,
    t: Seq<char>,
) -> bool {
    exists|k: int|
        0 <= k < mutations.len() && edits_into(#[trigger] mutations[k], zone, id, e, prio, t)
}

/// The record has the name and the type of the old endpoint and a target of both, and is not
/// in line with the new one.
pub open spec fn strays(
    zone: Seq<char>,
    old_endpoint: EndpointView,
    new_endpoint: EndpointView,
    prio: Option<u32>,
    r: RecordView,
) -> bool {
    &&& is_of(zone, old_endpoint, r)
    &&& has_target(old_endpoint, r.content)
    &&& has_target(new_endpoint, r.content)
    &&& !in_line(new_endpoint, prio, r)
}

/// The mutation edits a record that strays into one that does not.
pub open spec fn edits_stray(
    m: MutationView,
    records: Seq<RecordView>,
    zone: Seq<char>,
    old_endpoint: EndpointView,
    new_endpoint: EndpointView,
    prio: Option<u32>,
) -> bool {
    exists|i: int|
        0 <= i < records.len() && strays(
            zone,
            old_endpoint,
            new_endpoint,
            prio,
            #[trigger] records[i],
        ) && edits_into(m, zone, records[i].id, new_endpoint, prio, records[i].content)
}

/// An update edits just the records with a target of both endpoints that are not in line
/// with the new one, and gives them what it asks for.
pub proof fn update_edits_just_what_is_not_in_line(
    records: Seq<RecordView>,
    zone: Seq<char>,
    old_endpoint: EndpointView,
    new_endpoint: EndpointView,
    prio: Option<u32>,
)
    requires
        old_endpoint.record_type == new_endpoint.record_type,
    ensures
        forall|i: int|
            0 <= i < records.len() && strays(
                zone,
                old_endpoint,
                new_endpoint,
                prio,
                #[trigger] records[i],
            ) ==> edits_somewhere(
                plan::update_edits(records, zone, old_endpoint, new_endpoint, prio),
                zone,
                records[i].id,
                new_endpoint,
                prio,
                records[i].content,
            ),
        forall|k: int|
            0 <= k < plan::update_edits(records, zone, old_endpoint, new_endpoint, prio).len()
                ==> edits_stray(
                #[trigger] plan::update_edits(records, zone, old_endpoint, new_endpoint, prio)[k],
                records,
                zone,
                old_endpoint,
                new_endpoint,
                prio,
            ),
{
    let kind = new_endpoint.record_type;
    let whole = plan::update_edits(records, zone, old_endpoint, new_endpoint, prio);
    assert forall|i: int|
        0 <= i < records.len() && strays(
            zone,
            old_endpoint,
            new_endpoint,
            prio,
            #[trigger] records[i],
        ) implies edits_somewhere(
        whole,
        zone,
        records[i].id,
        new_endpoint,
        prio,
        records[i].content,
    ) by {
        let r = records[i];
        stale_strays(zone, old_endpoint, new_endpoint, prio, r);
        let t = laws::edit_of_stale(records, zone, old_endpoint, new_endpoint, prio, i);
        let m = MutationView::Edit {
            zone,
            id: r.id,
            params: plan::wanted(zone, new_endpoint, prio, t),
        };
        let k = choose|k: int| 0 <= k < whole.len() && whole[k] == m;
        targets_are_the_same_where_alike(t, r.content, kind);
        wanted_describes(zone, new_endpoint, prio, t, r.content);
        assert(edits_into(whole[k], zone, r.id, new_endpoint, prio, r.content));
    }
    assert forall|k: int| 0 <= k < whole.len() implies edits_stray(
        #[trigger] whole[k],
        records,
        zone,
        old_endpoint,
        new_endpoint,
        prio,
    ) by {
        edit_is_of_stray(records, zone, old_endpoint, new_endpoint, prio, k);
    }
}

proof fn stale_strays(
    zone: Seq<char>,
    old_endpoint: EndpointView,
    new_endpoint: EndpointView,
    prio: Option<u32>,
    r: RecordView,
)
    requires
        old_endpoint.record_type == new_endpoint.record_type,
    ensures
        laws::stale_in(zone, old_endpoint, new_endpoint, prio, r) <==> strays(
            zone,
            old_endpoint,
            new_endpoint,
            prio,
            r,
        ),
{
    let kind = new_endpoint.record_type;
    records_belong_by_name_and_type(zone, old_endpoint, r);
    listed_where_alike(old_endpoint.targets, r.content, kind);
    listed_where_alike(new_endpoint.targets, r.content, kind);
    settled_is_in_line(new_endpoint, prio, r);
}

proof fn edit_is_of_stray(
    records: Seq<RecordView>,
    zone: Seq<char>,
    old_endpoint: EndpointView,
    new_endpoint: EndpointView,
    prio: Option<u32>,
    k: int,
)
    requires
        old_endpoint.record_type == new_endpoint.record_type,
        0 <= k < plan::update_edits(records, zone, old_endpoint, new_endpoint, prio).len(),
    ensures
        edits_stray(
            plan::update_edits(records, zone, old_endpoint, new_endpoint, prio)[k],
            records,
            zone,
            old_endpoint,
            new_endpoint,
            prio,
        ),
{
    let kind = new_endpoint.record_type;
    let whole = plan::update_edits(records, zone, old_endpoint, new_endpoint, prio);
    laws::update_edits_are_exact(records, zone, old_endpoint, new_endpoint, prio);
    assert(whole.contains(whole[k]));
    let (i, t) = choose|i: int, t: Seq<char>|
        0 <= i < records.len() && laws::stale_in(
            zone,
            old_endpoint,
            new_endpoint,
            prio,
            #[trigger] records[i],
        ) && #[trigger] rules::same_target(records[i].content, t, new_endpoint.record_type)
            && new_endpoint.targets.contains(t) && whole[k] == (MutationView::Edit {
            zone,
            id: records[i].id,
            params: plan::wanted(zone, new_endpoint, prio, t),
        });
    stale_strays(zone, old_endpoint, new_endpoint, prio, records[i]);
    targets_are_the_same_where_alike(t, records[i].content, kind);
    wanted_describes(zone, new_endpoint, prio, t, records[i].content);
    assert(strays(zone, old_endpoint, new_endpoint, prio, records[i]));
}

/// A record whose priority or time to live is a number other than the one that is asked for
/// is edited by an update that keeps its target, and gets that number.
pub proof fn other_numbers_are_edited(
    records: Seq<RecordView>,
    zone: Seq<char>,
    old_endpoint: EndpointView,
    new_endpoint: EndpointView,
    prio: Option<u32>,
    i: int,
    a: u32,
    b: u32,
)
    requires
        old_endpoint.record_type == new_endpoint.record_type,
        0 <= i < records.len(),
        is_of(zone, old_endpoint, records[i]),
        has_target(old_endpoint, records[i].content),
        has_target(new_endpoint, records[i].content),
        a != b,
        gives(records[i].prio, a) && prio == Some(b) || gives(records[i].ttl, a) && asks_ttl(
            new_endpoint,
            b,
        ),
    ensures
        exists|k: int|
            0 <= k < plan::update_edits(records, zone, old_endpoint, new_endpoint, prio).len() && (
            #[trigger] plan::update_edits(records, zone, old_endpoint, new_endpoint, prio)[k]
                matches MutationView::Edit { zone: z, id, params } && z == zone && id
                == records[i].id && params.prio == prio && (asks_ttl(new_endpoint, b) ==> params.ttl
                == Some(b))),
{
    update_edits_just_what_is_not_in_line(records, zone, old_endpoint, new_endpoint, prio);
    assert(strays(zone, old_endpoint, new_endpoint, prio, records[i]));
    let whole = plan::update_edits(records, zone, old_endpoint, new_endpoint, prio);
    let k = choose|k: int|
        0 <= k < whole.len() && edits_into(
            #[trigger] whole[k],
            zone,
            records[i].id,
            new_endpoint,
            prio,
            records[i].content,
        );
    assert(whole[k] is Edit);
}


/// Of the targets that are kept, an earlier one stems from an earlier place.
proof fn distinct_in_order(targets: Seq<Seq<char>>, record_type: Seq<char>, i: int, j: int) -> (r: (
    int,
    int,
))
    requires
        0 <= i < j < plan::distinct(targets, record_type).len(),
    ensures
        0 <= r.0 < r.1 < targets.len(),
        targets[r.0] == plan::distinct(targets, record_type)[i],
        targets[r.1] == plan::distinct(targets, record_type)[j],
    decreases targets.len(),
{
    let before = targets.drop_last();
    let kept = plan::distinct(before, record_type);
    if j < kept.len() {
        let r = distinct_in_order(before, record_type, i, j);
        assert(before[r.0] == targets[r.0] && before[r.1] == targets[r.1]);
        r
    } else {
        laws::distinct_stems(before, record_type, i);
        let a = choose|a: int| 0 <= a < before.len() && before[a] == kept[i];
        assert(targets[a] == kept[i]);
        (a, targets.len() - 1)
    }
}

/// Records are added in the order of the targets, each with the target as the endpoint writes
/// it.
pub proof fn creation_follows_targets(
    records: Seq<RecordView>,
    zone: Seq<char>,
    e: EndpointView,
    prio: Option<u32>,
    i: int,
    j: int,
)
    requires
        0 <= i < j < plan::creation(records, zone, e, prio).len(),
    ensures
        exists|a: int, b: int|
            0 <= a < b < e.targets.len() && plan::creation(records, zone, e, prio)[i] == (
            MutationView::Add {
                zone,
                params: ParamsView {
                    content: #[trigger] e.targets[a],
                    ..plan::creation(records, zone, e, prio)[i]->Add_params
                },
            }) && plan::creation(records, zone, e, prio)[j] == (MutationView::Add {
                zone,
                params: ParamsView {
                    content: #[trigger] e.targets[b],
                    ..plan::creation(records, zone, e, prio)[j]->Add_params
                },
            }),
{
    let ts = plan::distinct(e.targets, e.record_type);
    let f = plan::addition(plan::matching(records, zone, e), zone, e, prio);
    let r = laws::kept_in_order(ts, f, i, j);
    let o = distinct_in_order(e.targets, e.record_type, r.0, r.1);
    assert(e.targets[o.0] == ts[r.0] && e.targets[o.1] == ts[r.1]);
}

/// Records are removed in the order in which the zone lists them.
pub proof fn deletion_follows_records(
    records: Seq<RecordView>,
    zone: Seq<char>,
    e: EndpointView,
    i: int,
    j: int,
)
    requires
        0 <= i < j < plan::deletion(records, zone, e).len(),
    ensures
        exists|a: int, b: int|
            0 <= a < b < records.len() && plan::deletion(records, zone, e)[i] == (
            MutationView::Remove { zone, id: (#[trigger] records[a]).id }) && plan::deletion(
                records,
                zone,
                e,
            )[j] == (MutationView::Remove { zone, id: (#[trigger] records[b]).id }),
{
    let f = plan::removal(zone, e.targets, e.record_type);
    let d = laws::deleting(zone, e);
    laws::filtered_then_mapped(records, plan::belonging(zone, e), f, d);
    let r = laws::kept_in_order(records, d, i, j);
    assert(records[r.0].id == records[r.0].id && records[r.1].id == records[r.1].id);
}

/// A name that does not lie in the zone is kept whole.
pub proof fn name_outside_zone_is_kept(dns_name: Seq<char>, zone: Seq<char>)
    requires
        !lies_in(text::normalized(dns_name), zone),
    ensures
        rules::subdomain_of(dns_name, zone) == text::normalized(dns_name),
{
    lying_in_is_being_under(text::normalized(dns_name), zone);
}

/// Mutations are seen with all that they hold.
pub proof fn mutations_are_seen_whole(m: Mutation)
    ensures
        match m {
            Mutation::Add { zone, params } => m@ == (MutationView::Add {
                zone: zone@,
                params: params@,
            }),
            Mutation::Edit { zone, id, params } => m@ == (MutationView::Edit {
                zone: zone@,
                id: id@,
                params: params@,
            }),
            Mutation::Remove { zone, id } => m@ == (MutationView::Remove { zone: zone@, id: id@ }),
        },
        m@.zone() == match m {
            Mutation::Add { zone, params } => zone@,
            Mutation::Edit { zone, id, params } => zone@,
            Mutation::Remove { zone, id } => zone@,
        },
{
}

} // verus!

//! The rules by which names, zones, targets and records are compared.
use crate::error;
use crate::error::{Error, ErrorView};
use crate::number;
use crate::porkbun::types::{DnsRecord, RecordView};
use crate::text;
use crate::webhook::types::{Endpoint, EndpointView, PropertyView, ProviderSpecific};
use vstd::prelude::*;
use vstd::string::{StrSliceExecFns, StringExecFns};

verus! {

/// The canonical form of a full name: trimmed, without one trailing dot, in small letters.
pub fn normalize_fqdn(name: &str) -> (r: String)
    ensures
        r@ == text::normalized(name@),
{
    text::normalize(name)
}

/// The longest of `zones` that `name` lies in.
pub open spec fn zone_of(name: Seq<char>, zones: Seq<Seq<char>>) -> Option<Seq<char>>
    decreases zones.len(),
{
    if zones.len() == 0 {
        None
    } else {
        let best = zone_of(name, zones.drop_last());
        let next = zones.last();
        if text::under(name, next) && (best matches Some(b) ==> b.len() < next.len()) {
            Some(next)
        } else {
            best
        }
    }
}

/// The longest of `candidates` that the name lies in.
pub fn longest_suffix_match(normalized_name: &str, candidates: &Vec<String>) -> (r: Option<String>)
    ensures
        r.deep_view() == zone_of(normalized_name@, candidates.deep_view()),
{
    let ghost zones = candidates.deep_view();
    let mut best: Option<usize> = None;
    for i in 0..candidates.len()
        invariant
            zones == candidates.deep_view(),
            best matches Some(b) ==> b < i,
            match best {
                Some(b) => zone_of(normalized_name@, zones.take(i as int)) == Some(zones[b as int]),
                None => zone_of(normalized_name@, zones.take(i as int)) is None,
            },
    {
        assert(zones.take(i + 1).drop_last() == zones.take(i as int));
        assert(zones.take(i + 1).last() == candidates@[i as int]@);
        if text::is_under(normalized_name, &candidates[i]) {
            let longer = match best {
                Some(b) => candidates[b].as_str().unicode_len()
                    < candidates[i].as_str().unicode_len(),
                None => true,
            };
            if longer {
                best = Some(i);
            }
        }
    }
    assert(zones.take(zones.len() as int) == zones);
    match best {
        Some(b) => Some(candidates[b].clone()),
        None => None,
    }
}

/// The zone found for a name is one of the zones, holds the name, and no zone that holds
/// the name is longer; none is found only where no zone holds the name.
pub proof fn zone_of_is_longest(name: Seq<char>, zones: Seq<Seq<char>>)
    ensures
        match zone_of(name, zones) {
            Some(z) => {
                &&& zones.contains(z)
                &&& text::under(name, z)
                &&& forall|i: int|
                    0 <= i < zones.len() && text::under(name, #[trigger] zones[i]) ==> zones[i].len()
                        <= z.len()
            },
            None => forall|i: int| 0 <= i < zones.len() ==> !text::under(name, #[trigger] zones[i]),
        },
    decreases zones.len(),
{
    if zones.len() > 0 {
        let front = zones.drop_last();
        zone_of_is_longest(name, front);
        let next = zones.last();
        assert(zones[zones.len() - 1] == next);
        assert forall|i: int| 0 <= i < zones.len() - 1 implies #[trigger] zones[i] == front[i] by {}
        if zone_of(name, front) is Some {
            let z = zone_of(name, front)->0;
            let i = choose|i: int| 0 <= i < front.len() && front[i] == z;
            assert(zones[i] == z);
        }
    }
}

/// Why a name lies in no zone that may be managed: with a filter the name is not allowed,
/// without one it belongs to no domain of the account.
pub open spec fn no_zone(filtered: bool, dns_name: Seq<char>) -> ErrorView {
    if filtered {
        ErrorView::DomainNotAllowed("No configured zone matches "@ + dns_name)
    } else {
        ErrorView::InvalidRequest("No owned domain matches "@ + dns_name)
    }
}

/// The zone of a name among `zones`.
pub open spec fn resolved(filtered: bool, zones: Seq<Seq<char>>, dns_name: Seq<char>) -> Result<
    Seq<char>,
    ErrorView,
> {
    match zone_of(text::normalized(dns_name), zones) {
        Some(z) => Ok(z),
        None => Err(no_zone(filtered, dns_name)),
    }
}

/// A result with its text and its failure as views.
pub open spec fn text_result(r: Result<String, Error>) -> Result<Seq<char>, ErrorView> {
    match r {
        Ok(s) => Ok(s@),
        Err(e) => Err(e@),
    }
}

/// The zone of a name among `zones`, which are those of the filter where there is one.
pub fn resolve_in(filtered: bool, zones: &Vec<String>, dns_name: &str) -> (r: Result<String, Error>)
    ensures
        text_result(r) == resolved(filtered, zones.deep_view(), dns_name@),
{
    let name = normalize_fqdn(dns_name);
    match longest_suffix_match(&name, zones) {
        Some(zone) => Ok(zone),
        None => if filtered {
            Err(
                Error::DomainNotAllowed(
                    "No configured zone matches ".to_owned().concat(dns_name),
                ),
            )
        } else {
            Err(Error::InvalidRequest("No owned domain matches ".to_owned().concat(dns_name)))
        },
    }
}

/// The name that the service keeps for `dns_name` in `zone`: nothing for the zone itself,
/// and otherwise the name without the zone.
pub open spec fn subdomain_of(dns_name: Seq<char>, zone: Seq<char>) -> Seq<char> {
    let n = text::normalized(dns_name);
    if n == zone {
        Seq::empty()
    } else if text::has_suffix(n, seq!['.'] + zone) {
        n.take(n.len() - zone.len() - 1)
    } else {
        n
    }
}

/// The name that the service keeps for `dns_name` in `zone`.
pub fn to_porkbun_subdomain(dns_name: &str, zone: &str) -> (r: String)
    ensures
        r@ == subdomain_of(dns_name@, zone@),
{
    let name = normalize_fqdn(dns_name);
    let suffix = text::dotted(zone);
    if text::same_text(&name, zone) {
        String::new()
    } else if text::ends_with(&name, &suffix) {
        let n = name.as_str().unicode_len();
        let m = suffix.as_str().unicode_len();
        let prefix = name.as_str().substring_char(0, n - m);
        prefix.to_owned()
    } else {
        name
    }
}

/// The value of the first property called `priority`.
pub open spec fn priority_text(properties: Seq<PropertyView>) -> Option<Seq<char>>
    decreases properties.len(),
{
    if properties.len() == 0 {
        None
    } else if properties[0].name == "priority"@ {
        Some(properties[0].value)
    } else {
        priority_text(properties.drop_first())
    }
}

/// The priority among an endpoint's properties, if there is one.
pub open spec fn priority_of(properties: Seq<PropertyView>) -> Result<Option<u32>, ErrorView> {
    match priority_text(properties) {
        None => Ok(None),
        Some(value) => match number::number_u32(value) {
            Some(p) => Ok(Some(p)),
            None => Err(ErrorView::InvalidRequest("Invalid priority value: "@ + value)),
        },
    }
}

/// The priority that an endpoint asks for, if it asks for one.
pub fn endpoint_priority(endpoint: &Endpoint) -> (r: Result<Option<u32>, Error>)
    ensures
        error::failing(r) == priority_of(endpoint@.provider_specific),
{
    let properties: &Vec<ProviderSpecific> = &endpoint.provider_specific;
    let ghost all = properties.deep_view();
    assert(all.skip(0) == all);
    for i in 0..properties.len()
        invariant
            *properties == endpoint.provider_specific,
            all == properties.deep_view(),
            priority_text(all.skip(i as int)) == priority_text(all),
    {
        let property = &properties[i];
        assert(all.skip(i as int)[0] == property@);
        assert(all.skip(i as int).drop_first() == all.skip(i + 1));
        if text::same_text(&property.name, "priority") {
            return match number::parse_u32(&property.value) {
                Some(p) => Ok(Some(p)),
                None => Err(
                    Error::InvalidRequest(
                        "Invalid priority value: ".to_owned().concat(&property.value),
                    ),
                ),
            };
        }
    }
    Ok(None)
}

/// The time to live that an endpoint asks for: none where it is not positive or exceeds
/// `u32::MAX`.
pub open spec fn ttl_of(record_ttl: Option<i64>) -> Option<u32> {
    match record_ttl {
        Some(t) => if 0 < t <= u32::MAX {
            Some(t as u32)
        } else {
            None
        },
        None => None,
    }
}

/// The time to live that an endpoint asks for, if it asks for one.
pub fn endpoint_ttl(endpoint: &Endpoint) -> (r: Option<u32>)
    ensures
        r == ttl_of(endpoint.record_ttl),
{
    match endpoint.record_ttl {
        Some(t) => if t > 0 && t <= u32::MAX as i64 {
            Some(t as u32)
        } else {
            None
        },
        None => None,
    }
}

/// Two settings agree: they differ only where both are given and different.
pub open spec fn agree(existing: Option<u32>, desired: Option<u32>) -> bool {
    existing is Some && desired is Some ==> existing == desired
}

/// Whether two times to live agree; one that is not given agrees with all.
pub fn ttl_effectively_equal(existing: Option<u32>, desired: Option<u32>) -> (r: bool)
    ensures
        r == agree(existing, desired),
{
    match (existing, desired) {
        (Some(a), Some(b)) => a == b,
        _ => true,
    }
}

/// Whether two priorities agree; one that is not given agrees with all.
pub fn prio_effectively_equal(existing: Option<u32>, desired: Option<u32>) -> (r: bool)
    ensures
        r == agree(existing, desired),
{
    match (existing, desired) {
        (Some(a), Some(b)) => a == b,
        _ => true,
    }
}

/// The targets of records of this type are host names.
pub open spec fn has_host_targets(record_type: Seq<char>) -> bool {
    record_type == "CNAME"@ || record_type == "MX"@ || record_type == "SRV"@
}

/// The form in which targets are compared: host names in canonical form, others as they are.
pub open spec fn target_form(target: Seq<char>, record_type: Seq<char>) -> Seq<char> {
    if has_host_targets(record_type) {
        text::without_dot(text::lower(text::trimmed(target)))
    } else {
        target
    }
}

/// The form in which targets are compared.
pub fn normalize_target(target: &str, record_type: &str) -> (r: String)
    ensures
        r@ == target_form(target@, record_type@),
{
    if text::same_text(record_type, "CNAME") || text::same_text(record_type, "MX")
        || text::same_text(record_type, "SRV") {
        let lowered = text::to_lower(text::trim(target));
        text::strip_dot(&lowered).to_owned()
    } else {
        target.to_owned()
    }
}

/// Two targets are the same for records of this type.
pub open spec fn same_target(a: Seq<char>, b: Seq<char>, record_type: Seq<char>) -> bool {
    target_form(a, record_type) == target_form(b, record_type)
}

/// Whether two targets are the same for records of this type.
pub fn targets_match(a: &str, b: &str, record_type: &str) -> (r: bool)
    ensures
        r == same_target(a@, b@, record_type@),
{
    let x = normalize_target(a, record_type);
    let y = normalize_target(b, record_type);
    x == y
}

/// The record types that are managed.
pub open spec fn supported(record_type: Seq<char>) -> bool {
    record_type == "A"@ || record_type == "AAAA"@ || record_type == "CNAME"@ || record_type
        == "TXT"@ || record_type == "MX"@ || record_type == "SRV"@
}

/// Whether records of this type are managed.
pub fn is_supported(record_type: &str) -> (r: bool)
    ensures
        r == supported(record_type@),
{
    text::same_text(record_type, "A") || text::same_text(record_type, "AAAA") || text::same_text(
        record_type,
        "CNAME",
    ) || text::same_text(record_type, "TXT") || text::same_text(record_type, "MX")
        || text::same_text(record_type, "SRV")
}

/// The record `r` of `zone` belongs to the endpoint: it has its name and its type.
pub open spec fn belongs(zone: Seq<char>, e: EndpointView, r: RecordView) -> bool {
    let n = text::normalized(r.name);
    let t = text::normalized(e.dns_name);
    &&& if n.len() == 0 || n == zone {
        t == zone
    } else {
        n == t
    }
    &&& r.record_type == e.record_type
}

/// Whether the record of `zone` belongs to the endpoint.
pub fn record_belongs(zone: &str, endpoint: &Endpoint, record: &DnsRecord) -> (r: bool)
    ensures
        r == belongs(zone@, endpoint@, record@),
{
    let name = normalize_fqdn(&record.name);
    let target_name = normalize_fqdn(&endpoint.dns_name);
    let same_name = if name.as_str().is_empty() || text::same_text(&name, zone) {
        text::same_text(&target_name, zone)
    } else {
        name == target_name
    };
    same_name && text::same_text(&record.record_type, &endpoint.record_type)
}

/// A name that only ends like a zone, without a dot before it, does not lie in the zone.
pub proof fn part_of_label_is_no_match(prefix: Seq<char>, zone: Seq<char>)
    requires
        prefix.len() > 0,
        prefix.last() != '.',
    ensures
        !text::under(prefix + zone, zone),
{
    let name = prefix + zone;
    let tail = seq!['.'] + zone;
    assert(name.len() > zone.len());
    if text::has_suffix(name, tail) {
        assert(name.subrange(name.len() - tail.len(), name.len() as int)[0] == prefix.last());
        assert(tail[0] == '.');
    }
}

/// Host names are compared in canonical form, so that neither case nor one trailing dot
/// matters, and other targets as they are.
pub proof fn targets_are_compared(a: Seq<char>, b: Seq<char>, record_type: Seq<char>)
    ensures
        has_host_targets(record_type) ==> (same_target(a, b, record_type) <==> text::normalized(a)
            == text::normalized(b)),
        !has_host_targets(record_type) ==> (same_target(a, b, record_type) <==> a == b),
{
    lower_leaves_dot(text::trimmed(a));
    lower_leaves_dot(text::trimmed(b));
}

proof fn lower_leaves_dot(s: Seq<char>)
    ensures
        text::without_dot(text::lower(s)) == text::lower(text::without_dot(s)),
{
    if s.len() > 0 {
        text::lower_char_keeps(s.last());
        assert(text::lower(s).last() == text::lower_char(s.last()));
        assert(text::lower(s).drop_last() =~= text::lower(s.drop_last()));
    }
}

} // verus!

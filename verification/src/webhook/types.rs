//! Endpoints and changes as ExternalDNS sends and receives them.
use crate::number;
use crate::porkbun::types::{DnsRecord, RecordView};
use crate::text;
use std::collections::HashMap;
use vstd::prelude::*;
use vstd::string::StringExecFns;

verus! {

/// A DNS name with its targets.
#[derive(Debug, Clone)]
pub struct Endpoint {
    pub dns_name: String,
    pub targets: Vec<String>,
    pub record_type: String,
    pub set_identifier: Option<String>,
    pub record_ttl: Option<i64>,
    pub labels: HashMap<String, String>,
    pub provider_specific: Vec<ProviderSpecific>,
}

/// A property of an endpoint that only the provider knows.
#[derive(Debug, Clone)]
pub struct ProviderSpecific {
    pub name: String,
    pub value: String,
}

/// A [`ProviderSpecific`] with its texts as sequences of characters.
pub struct PropertyView {
    pub name: Seq<char>,
    pub value: Seq<char>,
}

impl View for ProviderSpecific {
    type V = PropertyView;

    open spec fn view(&self) -> PropertyView {
        PropertyView { name: self.name@, value: self.value@ }
    }
}

impl DeepView for ProviderSpecific {
    type V = PropertyView;

    open spec fn deep_view(&self) -> PropertyView {
        self@
    }
}

/// An [`Endpoint`] with its texts as sequences of characters.
pub struct EndpointView {
    pub dns_name: Seq<char>,
    pub targets: Seq<Seq<char>>,
    pub record_type: Seq<char>,
    pub set_identifier: Option<Seq<char>>,
    pub record_ttl: Option<i64>,
    pub labels: Map<String, String>,
    pub provider_specific: Seq<PropertyView>,
}

impl View for Endpoint {
    type V = EndpointView;

    open spec fn view(&self) -> EndpointView {
        EndpointView {
            dns_name: self.dns_name@,
            targets: self.targets.deep_view(),
            record_type: self.record_type@,
            set_identifier: self.set_identifier.deep_view(),
            record_ttl: self.record_ttl,
            labels: self.labels@,
            provider_specific: self.provider_specific.deep_view(),
        }
    }
}

impl DeepView for Endpoint {
    type V = EndpointView;

    open spec fn deep_view(&self) -> EndpointView {
        self@
    }
}

/// The changes that ExternalDNS asks for.
#[derive(Debug, Clone)]
pub struct Changes {
    pub create: Vec<Endpoint>,
    pub update_old: Vec<Endpoint>,
    pub update_new: Vec<Endpoint>,
    pub delete: Vec<Endpoint>,
}

/// [`Changes`] with their endpoints as views.
pub struct ChangesView {
    pub create: Seq<EndpointView>,
    pub update_old: Seq<EndpointView>,
    pub update_new: Seq<EndpointView>,
    pub delete: Seq<EndpointView>,
}

impl View for Changes {
    type V = ChangesView;

    open spec fn view(&self) -> ChangesView {
        ChangesView {
            create: self.create.deep_view(),
            update_old: self.update_old.deep_view(),
            update_new: self.update_new.deep_view(),
            delete: self.delete.deep_view(),
        }
    }
}

impl ChangesView {
    /// No change is asked for.
    pub open spec fn is_empty(self) -> bool {
        self.create.len() == 0 && self.update_old.len() == 0 && self.update_new.len() == 0
            && self.delete.len() == 0
    }
}

impl Default for Changes {
    fn default() -> (r: Changes)
        ensures
            r@.is_empty(),
    {
        Changes {
            create: Vec::new(),
            update_old: Vec::new(),
            update_new: Vec::new(),
            delete: Vec::new(),
        }
    }
}

/// A request for the records of one zone, or of all managed zones.
#[derive(Debug)]
pub struct GetRecordsQuery {
    pub zone_name: Option<String>,
}

/// A request to carry out changes, in either of the two shapes it may come in.
#[derive(Debug)]
pub enum ApplyChangesRequest {
    Wrapped { changes: Changes },
    Direct(Changes),
}

impl View for ApplyChangesRequest {
    type V = ChangesView;

    open spec fn view(&self) -> ChangesView {
        match *self {
            ApplyChangesRequest::Direct(changes) => changes@,
            ApplyChangesRequest::Wrapped { changes } => changes@,
        }
    }
}

impl ApplyChangesRequest {
    /// The changes asked for.
    pub fn into_changes(self) -> (r: Changes)
        ensures
            r@ == self@,
    {
        match self {
            ApplyChangesRequest::Direct(changes) => changes,
            ApplyChangesRequest::Wrapped { changes } => changes,
        }
    }
}

/// The answer to a health or readiness probe.
#[derive(Debug)]
pub struct HealthResponse {
    pub status: String,
    pub version: String,
}

impl Changes {
    /// Whether no change is asked for.
    pub fn is_empty(&self) -> (r: bool)
        ensures
            r == self@.is_empty(),
    {
        self.create.is_empty() && self.update_old.is_empty() && self.update_new.is_empty()
            && self.delete.is_empty()
    }
}

/// The full name of a record that the service lists under `name` in `zone`: the zone's own
/// name for the apex, and otherwise a name below the zone.
pub open spec fn full_name(name: Seq<char>, zone: Seq<char>) -> Seq<char> {
    let n = text::lower(name);
    let z = text::lower(zone);
    if n.len() == 0 || n == z {
        z
    } else if text::has_suffix(n, seq!['.'] + z) {
        n
    } else {
        n + (seq!['.'] + z)
    }
}

/// The properties of an endpoint with priority `prio`.
pub open spec fn priority_property(prio: Option<u32>) -> Seq<PropertyView> {
    match prio {
        Some(p) => seq![PropertyView { name: "priority"@, value: number::decimal(p as nat) }],
        None => Seq::empty(),
    }
}

/// The endpoint that shows the one record `r` of `zone`.
pub open spec fn endpoint_of(r: RecordView, zone: Seq<char>) -> EndpointView {
    EndpointView {
        dns_name: full_name(r.name, zone),
        targets: seq![r.content],
        record_type: r.record_type,
        set_identifier: None,
        record_ttl: match r.ttl_u32() {
            Some(t) => Some(t as i64),
            None => None,
        },
        labels: Map::empty(),
        provider_specific: priority_property(r.prio_u32()),
    }
}

impl Endpoint {
    /// The endpoint that shows one record of `zone`.
    pub fn from_porkbun_record(record: &DnsRecord, zone: &str) -> (r: Endpoint)
        ensures
            r@ == endpoint_of(record@, zone@),
    {
        let name_lower = text::to_lower(&record.name);
        let zone_lower = text::to_lower(zone);
        let dotted_zone = text::dotted(&zone_lower);
        let dns_name = if name_lower.as_str().is_empty() || text::same_text(
            &name_lower,
            &zone_lower,
        ) {
            zone_lower
        } else if text::ends_with(&name_lower, &dotted_zone) {
            name_lower
        } else {
            name_lower.concat(&dotted_zone)
        };
        let mut targets: Vec<String> = Vec::new();
        targets.push(record.content.clone());
        assert(targets.deep_view() =~= seq![record.content@]);
        let mut provider_specific: Vec<ProviderSpecific> = Vec::new();
        match record.prio_u32() {
            Some(prio) => {
                provider_specific.push(
                    ProviderSpecific {
                        name: "priority".to_owned(),
                        value: number::decimal_text(prio as u64),
                    },
                );
            },
            None => {},
        }
        assert(provider_specific.deep_view() =~= priority_property(record@.prio_u32()));
        Endpoint {
            dns_name,
            targets,
            record_type: record.record_type.clone(),
            set_identifier: None,
            record_ttl: match record.ttl_u32() {
                Some(ttl) => Some(ttl as i64),
                None => None,
            },
            labels: HashMap::new(),
            provider_specific,
        }
    }
}

/// What the records that are shown as one endpoint have in common.
pub struct GroupKey {
    pub dns_name: Seq<char>,
    pub record_type: Seq<char>,
    pub ttl: Option<u32>,
    pub prio: Option<u32>,
}

/// The group of a record of `zone`.
pub open spec fn key_of(r: RecordView, zone: Seq<char>) -> GroupKey {
    GroupKey {
        dns_name: full_name(r.name, zone),
        record_type: r.record_type,
        ttl: r.ttl_u32(),
        prio: r.prio_u32(),
    }
}

/// The record at `k` is the first of its group.
pub open spec fn first_of_group(records: Seq<RecordView>, zone: Seq<char>, k: int) -> bool {
    &&& 0 <= k < records.len()
    &&& forall|j: int| 0 <= j < k ==> key_of(#[trigger] records[j], zone) != key_of(records[k], zone)
}

/// Some record of the group `key` has the content `t`.
pub open spec fn group_holds(
    records: Seq<RecordView>,
    zone: Seq<char>,
    key: GroupKey,
    t: Seq<char>,
) -> bool {
    exists|m: int|
        0 <= m < records.len() && key_of(#[trigger] records[m], zone) == key && records[m].content
            == t
}

/// `e` shows the group of the record at `k`: what its records have in common, and their
/// contents as targets, each once, in ascending order.
pub open spec fn shows_group(
    records: Seq<RecordView>,
    zone: Seq<char>,
    k: int,
    e: EndpointView,
) -> bool {
    &&& e == EndpointView { targets: e.targets, ..endpoint_of(records[k], zone) }
    &&& text::ascending(e.targets)
    &&& forall|t: Seq<char>| #[trigger]
        e.targets.contains(t) <==> group_holds(records, zone, key_of(records[k], zone), t)
}

/// The group of the record at `a` comes before that of the record at `b`: by name, then
/// by record type, then by which is met first.
pub open spec fn group_before(records: Seq<RecordView>, zone: Seq<char>, a: int, b: int) -> bool {
    let x = key_of(records[a], zone);
    let y = key_of(records[b], zone);
    ||| listed_before(x.dns_name, x.record_type, y.dns_name, y.record_type)
    ||| x.dns_name == y.dns_name && x.record_type == y.record_type && a < b
}

/// Names with record types are listed by name, then by record type.
pub open spec fn listed_before(
    name: Seq<char>,
    record_type: Seq<char>,
    other_name: Seq<char>,
    other_type: Seq<char>,
) -> bool {
    ||| text::text_before(name, other_name)
    ||| name == other_name && text::text_before(record_type, other_type)
}

/// `shown` shows each group of `records` once, in order; the i-th endpoint shows the group
/// whose first record is at `firsts[i]`.
pub open spec fn shows_groups(
    records: Seq<RecordView>,
    zone: Seq<char>,
    firsts: Seq<int>,
    shown: Seq<EndpointView>,
) -> bool {
    &&& firsts.len() == shown.len()
    &&& forall|i: int|
        0 <= i < firsts.len() ==> first_of_group(records, zone, #[trigger] firsts[i])
            && shows_group(records, zone, firsts[i], shown[i])
    &&& forall|k: int| first_of_group(records, zone, k) ==> #[trigger] firsts.contains(k)
    &&& forall|i: int, j: int|
        0 <= i < j < firsts.len() ==> group_before(
            records,
            zone,
            #[trigger] firsts[i],
            #[trigger] firsts[j],
        )
}

/// `shown` is what the records of `zone` look like as endpoints.
pub open spec fn grouped(
    records: Seq<RecordView>,
    zone: Seq<char>,
    shown: Seq<EndpointView>,
) -> bool {
    exists|firsts: Seq<int>| shows_groups(records, zone, firsts, shown)
}

proof fn lemma_listed_transitive(a: GroupKey, b: GroupKey, c: GroupKey)
    requires
        listed_before(a.dns_name, a.record_type, b.dns_name, b.record_type),
        listed_before(b.dns_name, b.record_type, c.dns_name, c.record_type) || (b.dns_name
            == c.dns_name && b.record_type == c.record_type),
    ensures
        listed_before(a.dns_name, a.record_type, c.dns_name, c.record_type),
{
    if text::text_before(a.dns_name, b.dns_name) {
        if text::text_before(b.dns_name, c.dns_name) {
            text::before_transitive(a.dns_name, b.dns_name, c.dns_name);
        }
    } else if b.dns_name == c.dns_name && text::text_before(b.record_type, c.record_type) {
        text::before_transitive(a.record_type, b.record_type, c.record_type);
    }
}

/// The group of the record at `j` has a first record.
pub(crate) proof fn lemma_first_exists(records: Seq<RecordView>, zone: Seq<char>, j: int) -> (k: int)
    requires
        0 <= j < records.len(),
    ensures
        first_of_group(records, zone, k),
        key_of(records[k], zone) == key_of(records[j], zone),
    decreases j,
{
    if first_of_group(records, zone, j) {
        j
    } else {
        let i = choose|i: int|
            0 <= i < j && key_of(#[trigger] records[i], zone) == key_of(records[j], zone);
        lemma_first_exists(records, zone, i)
    }
}

fn same_priority(a: Option<u32>, b: Option<u32>) -> (r: bool)
    ensures
        r == (a == b),
{
    match (a, b) {
        (Some(x), Some(y)) => x == y,
        (None, None) => true,
        _ => false,
    }
}

fn same_ttl(a: Option<i64>, b: Option<i64>) -> (r: bool)
    ensures
        r == (a == b),
{
    match (a, b) {
        (Some(x), Some(y)) => x == y,
        (None, None) => true,
        _ => false,
    }
}

/// The records of `zone` as endpoints: records with the same name, type, time to live and
/// priority are merged into one endpoint. The endpoints are sorted by name and record type,
/// and their targets are sorted.
pub fn group_porkbun_records(records: &Vec<DnsRecord>, zone: &str) -> (r: Vec<Endpoint>)
    ensures
        grouped(records.deep_view(), zone@, r.deep_view()),
{
    let ghost all = records.deep_view();
    let mut shown: Vec<Endpoint> = Vec::new();
    let mut prios: Vec<Option<u32>> = Vec::new();
    let ghost mut firsts: Seq<int> = Seq::empty();
    for n in 0..records.len()
        invariant
            all == records.deep_view(),
            shows_groups(all.take(n as int), zone@, firsts, shown.deep_view()),
            prios@.len() == shown@.len(),
            forall|i: int| 0 <= i < firsts.len() ==> prios@[i] == all[#[trigger] firsts[i]].prio_u32(),
    {
        let endpoint = Endpoint::from_porkbun_record(&records[n], zone);
        let prio = records[n].prio_u32();
        let ghost z = zone@;
        let ghost old_all = all.take(n as int);
        let ghost new_all = all.take(n + 1);
        let ghost key = key_of(all[n as int], z);
        let ghost before = shown.deep_view();
        let ghost old_firsts = firsts;
        let mut i: usize = 0;
        while i < shown.len() && !(text::same_text(&shown[i].dns_name, &endpoint.dns_name)
            && text::same_text(&shown[i].record_type, &endpoint.record_type) && same_ttl(
            shown[i].record_ttl,
            endpoint.record_ttl,
        ) && same_priority(prios[i], prio))
            invariant
                i <= shown@.len(),
                before == shown.deep_view(),
                prios@.len() == shown@.len(),
                endpoint@ == endpoint_of(all[n as int], z),
                prio == all[n as int].prio_u32(),
                key == key_of(all[n as int], z),
                0 <= n < all.len(),
                old_all == all.take(n as int),
                shows_groups(old_all, z, firsts, before),
                forall|j: int|
                    0 <= j < firsts.len() ==> prios@[j] == all[#[trigger] firsts[j]].prio_u32(),
                forall|j: int| 0 <= j < i ==> key_of(all[#[trigger] firsts[j]], z) != key,
            decreases shown@.len() - i,
        {
            assert(before[i as int] == shown@[i as int]@);
            assert(shows_group(old_all, z, firsts[i as int], before[i as int]));
            i = i + 1;
        }
        if i < shown.len() {
            assert(before[i as int] == shown@[i as int]@);
            assert(shows_group(old_all, z, firsts[i as int], before[i as int]));
            assert(key_of(all[firsts[i as int]], z) == key);
            let content = records[n].content.clone();
            text::insert_ascending(&mut shown[i].targets, content);
            let ghost after = shown.deep_view();
            proof {
                lemma_group_grows(all, n as int, z, firsts, before, after, i as int);
            }
        } else {
            let mut p: usize = 0;
            while p < shown.len() && !(text::is_before(&endpoint.dns_name, &shown[p].dns_name) || (
            text::same_text(&endpoint.dns_name, &shown[p].dns_name) && text::is_before(
                &endpoint.record_type,
                &shown[p].record_type,
            )))
                invariant
                    p <= shown@.len(),
                    before == shown.deep_view(),
                    endpoint@ == endpoint_of(all[n as int], z),
                    key == key_of(all[n as int], z),
                    0 <= n < all.len(),
                    old_all == all.take(n as int),
                    shows_groups(old_all, z, firsts, before),
                    forall|j: int|
                        0 <= j < p ==> !listed_before(
                            key.dns_name,
                            key.record_type,
                            (#[trigger] before[j]).dns_name,
                            before[j].record_type,
                        ),
                decreases shown@.len() - p,
            {
                assert(before[p as int] == shown@[p as int]@);
                p = p + 1;
            }
            proof {
                if p < before.len() {
                    assert(before[p as int] == shown@[p as int]@);
                }
            }
            let ghost e = endpoint@;
            shown.insert(p, endpoint);
            prios.insert(p, prio);
            proof {
                firsts = firsts.insert(p as int, n as int);
            }
            let ghost after = shown.deep_view();
            assert(after =~= before.insert(p as int, e));
            proof {
                lemma_group_added(all, n as int, z, old_firsts, before, p as int, e);
            }
            assert forall|j: int| 0 <= j < firsts.len() implies prios@[j]
                == all[#[trigger] firsts[j]].prio_u32() by {
                if j < p {
                    assert(firsts[j] == old_firsts[j]);
                } else if j > p {
                    assert(firsts[j] == old_firsts[j - 1]);
                }
            }
        }
    }
    assert(all.take(all.len() as int) == all);
    shown
}

/// Putting the content of the record at `n` into the endpoint that shows its group keeps
/// the endpoints in step with the records.
proof fn lemma_group_grows(
    all: Seq<RecordView>,
    n: int,
    z: Seq<char>,
    firsts: Seq<int>,
    before: Seq<EndpointView>,
    after: Seq<EndpointView>,
    at: int,
)
    requires
        0 <= n < all.len(),
        shows_groups(all.take(n), z, firsts, before),
        0 <= at < before.len(),
        key_of(all[firsts[at]], z) == key_of(all[n], z),
        after.len() == before.len(),
        forall|i: int| 0 <= i < before.len() && i != at ==> #[trigger] after[i] == before[i],
        after[at] == (EndpointView { targets: after[at].targets, ..before[at] }),
        text::ascending(after[at].targets),
        forall|t: Seq<char>| #[trigger]
            after[at].targets.contains(t) <==> before[at].targets.contains(t) || t
                == all[n].content,
    ensures
        shows_groups(all.take(n + 1), z, firsts, after),
{
    let x = all.take(n);
    let y = all.take(n + 1);
    let key = key_of(all[n], z);
    assert forall|k: int| first_of_group(y, z, k) <==> first_of_group(x, z, k) by {
        lemma_firsts_extend(all, n, z, k);
        assert(first_of_group(x, z, firsts[at]));
        if k == n {
            assert(y[firsts[at]] == all[firsts[at]]);
        }
    }
    assert forall|i: int| 0 <= i < firsts.len() implies first_of_group(y, z, #[trigger] firsts[i])
        && shows_group(y, z, firsts[i], after[i]) by {
        assert(first_of_group(x, z, firsts[i]) && shows_group(x, z, firsts[i], before[i]));
        let k = firsts[i];
        assert(key_of(y[k], z) == key_of(all[k], z));
        if i != at {
            lemma_first_distinct(x, z, firsts, before, i, at);
        }
        assert forall|t: Seq<char>| #[trigger]
            after[i].targets.contains(t) <==> group_holds(y, z, key_of(y[k], z), t) by {
            lemma_holds_extend(all, n, z, key_of(all[k], z), t);
            assert(before[i].targets.contains(t) <==> group_holds(x, z, key_of(x[k], z), t));
        }
    }
    assert forall|i: int, j: int| 0 <= i < j < firsts.len() implies group_before(
        y,
        z,
        #[trigger] firsts[i],
        #[trigger] firsts[j],
    ) by {
        assert(group_before(x, z, firsts[i], firsts[j]));
        assert(first_of_group(x, z, firsts[i]) && first_of_group(x, z, firsts[j]));
    }
}

/// Two listed groups are different groups.
pub(crate) proof fn lemma_first_distinct(
    records: Seq<RecordView>,
    z: Seq<char>,
    firsts: Seq<int>,
    shown: Seq<EndpointView>,
    i: int,
    j: int,
)
    requires
        shows_groups(records, z, firsts, shown),
        0 <= i < firsts.len(),
        0 <= j < firsts.len(),
        i != j,
    ensures
        key_of(records[firsts[i]], z) != key_of(records[firsts[j]], z),
{
    let a = firsts[i];
    let b = firsts[j];
    assert(first_of_group(records, z, a) && first_of_group(records, z, b));
    if i < j {
        assert(group_before(records, z, a, b));
    } else {
        assert(group_before(records, z, b, a));
    }
    text::before_irreflexive(key_of(records[a], z).dns_name);
    text::before_irreflexive(key_of(records[a], z).record_type);
}

/// Which records are first in their group, with one record more.
proof fn lemma_firsts_extend(all: Seq<RecordView>, n: int, z: Seq<char>, k: int)
    requires
        0 <= n < all.len(),
    ensures
        first_of_group(all.take(n + 1), z, k) <==> first_of_group(all.take(n), z, k) || (k == n
            && forall|j: int|
            0 <= j < n ==> key_of(#[trigger] all.take(n)[j], z) != key_of(all[n], z)),
{
    let x = all.take(n);
    let y = all.take(n + 1);
    if first_of_group(y, z, k) {
        assert forall|j: int| 0 <= j < k implies key_of(#[trigger] x[j], z) != key_of(all[k], z) by {
            assert(y[j] == x[j]);
        }
    }
    if first_of_group(x, z, k) {
        assert forall|j: int| 0 <= j < k implies key_of(#[trigger] y[j], z) != key_of(y[k], z) by {
            assert(y[j] == x[j]);
        }
    }
    if k == n && (forall|j: int|
        0 <= j < n ==> key_of(#[trigger] x[j], z) != key_of(all[n], z)) {
        assert forall|j: int| 0 <= j < k implies key_of(#[trigger] y[j], z) != key_of(y[k], z) by {
            assert(y[j] == x[j]);
        }
    }
}

/// What a group holds, with one record more.
proof fn lemma_holds_extend(all: Seq<RecordView>, n: int, z: Seq<char>, key: GroupKey, t: Seq<char>)
    requires
        0 <= n < all.len(),
    ensures
        group_holds(all.take(n + 1), z, key, t) <==> group_holds(all.take(n), z, key, t) || (key_of(
            all[n],
            z,
        ) == key && all[n].content == t),
{
    let x = all.take(n);
    let y = all.take(n + 1);
    if group_holds(x, z, key, t) {
        let m = choose|m: int|
            0 <= m < x.len() && key_of(#[trigger] x[m], z) == key && x[m].content == t;
        assert(y[m] == x[m]);
    }
    if key_of(all[n], z) == key && all[n].content == t {
        assert(y[n] == all[n]);
    }
    if group_holds(y, z, key, t) {
        let m = choose|m: int|
            0 <= m < y.len() && key_of(#[trigger] y[m], z) == key && y[m].content == t;
        if m < n {
            assert(x[m] == y[m]);
        }
    }
}

/// Listing the record at `n`, the first of its group, at position `p` keeps the endpoints
/// in step with the records.
proof fn lemma_group_added(
    all: Seq<RecordView>,
    n: int,
    z: Seq<char>,
    firsts: Seq<int>,
    before: Seq<EndpointView>,
    p: int,
    e: EndpointView,
)
    requires
        0 <= n < all.len(),
        shows_groups(all.take(n), z, firsts, before),
        e == endpoint_of(all[n], z),
        forall|j: int| 0 <= j < firsts.len() ==> key_of(all[#[trigger] firsts[j]], z) != key_of(all[n], z),
        0 <= p <= before.len(),
        forall|j: int|
            0 <= j < p ==> !listed_before(
                e.dns_name,
                e.record_type,
                (#[trigger] before[j]).dns_name,
                before[j].record_type,
            ),
        p < before.len() ==> listed_before(
            e.dns_name,
            e.record_type,
            before[p].dns_name,
            before[p].record_type,
        ),
    ensures
        shows_groups(all.take(n + 1), z, firsts.insert(p, n), before.insert(p, e)),
{
    let x = all.take(n);
    let y = all.take(n + 1);
    let key = key_of(all[n], z);
    let new_firsts = firsts.insert(p, n);
    let after = before.insert(p, e);
    assert forall|j: int| 0 <= j < n implies key_of(#[trigger] x[j], z) != key by {
        let k = lemma_first_exists(x, z, j);
        assert(firsts.contains(k));
        let i = choose|i: int| 0 <= i < firsts.len() && firsts[i] == k;
        assert(key_of(all[firsts[i]], z) != key);
        assert(x[k] == all[k]);
    }
    lemma_firsts_extend(all, n, z, n);
    assert(first_of_group(y, z, n));
    assert forall|i: int| 0 <= i < new_firsts.len() implies first_of_group(
        y,
        z,
        #[trigger] new_firsts[i],
    ) && shows_group(y, z, new_firsts[i], after[i]) by {
        let k = new_firsts[i];
        if i == p {
            assert forall|t: Seq<char>| #[trigger]
                e.targets.contains(t) <==> group_holds(y, z, key_of(y[k], z), t) by {
                lemma_holds_extend(all, n, z, key, t);
                if group_holds(x, z, key, t) {
                    let m = choose|m: int|
                        0 <= m < x.len() && key_of(#[trigger] x[m], z) == key && x[m].content == t;
                    assert(key_of(x[m], z) != key);
                }
                if t == all[n].content {
                    assert(e.targets[0] == t);
                }
            }
        } else {
            let o = if i < p { i } else { i - 1 };
            assert(firsts[o] == k && after[i] == before[o]);
            assert(first_of_group(x, z, firsts[o]) && shows_group(x, z, firsts[o], before[o]));
            lemma_firsts_extend(all, n, z, k);
            assert(key_of(all[firsts[o]], z) != key);
            assert forall|t: Seq<char>| #[trigger]
                after[i].targets.contains(t) <==> group_holds(y, z, key_of(y[k], z), t) by {
                lemma_holds_extend(all, n, z, key_of(all[k], z), t);
                assert(before[o].targets.contains(t) <==> group_holds(x, z, key_of(x[k], z), t));
            }
        }
    }
    assert forall|k: int| first_of_group(y, z, k) implies #[trigger] new_firsts.contains(k) by {
        lemma_firsts_extend(all, n, z, k);
        if k == n {
            assert(new_firsts[p] == n);
        } else {
            assert(firsts.contains(k));
            let i = choose|i: int| 0 <= i < firsts.len() && firsts[i] == k;
            assert(new_firsts[if i < p { i } else { i + 1 }] == k);
        }
    }
    assert forall|i: int, j: int| 0 <= i < j < new_firsts.len() implies group_before(
        y,
        z,
        #[trigger] new_firsts[i],
        #[trigger] new_firsts[j],
    ) by {
        let a = new_firsts[i];
        let b = new_firsts[j];
        if i != p && j != p {
            let oi = if i < p { i } else { i - 1 };
            let oj = if j < p { j } else { j - 1 };
            assert(group_before(x, z, firsts[oi], firsts[oj]));
            assert(first_of_group(x, z, firsts[oi]) && first_of_group(x, z, firsts[oj]));
        } else if j == p {
            assert(firsts[i] == a);
            assert(first_of_group(x, z, firsts[i]) && shows_group(x, z, firsts[i], before[i]));
            assert(!listed_before(
                e.dns_name,
                e.record_type,
                before[i].dns_name,
                before[i].record_type,
            ));
            text::before_total(e.dns_name, before[i].dns_name);
            text::before_total(e.record_type, before[i].record_type);
        } else {
            let oj = j - 1;
            assert(firsts[oj] == b);
            assert(first_of_group(x, z, firsts[oj]) && shows_group(x, z, firsts[oj], before[oj]));
            assert(first_of_group(x, z, firsts[p]) && shows_group(x, z, firsts[p], before[p]));
            if p < oj {
                assert(group_before(x, z, firsts[p], firsts[oj]));
            }
            lemma_listed_transitive(key, key_of(all[firsts[p]], z), key_of(all[b], z));
        }
    }
}

/// Ascending texts with one text more.
proof fn with_text(texts: Seq<Seq<char>>, s: Seq<char>) -> (r: Seq<Seq<char>>)
    requires
        text::ascending(texts),
    ensures
        text::ascending(r),
        forall|t: Seq<char>| #[trigger] r.contains(t) <==> texts.contains(t) || t == s,
    decreases texts.len(),
{
    if texts.len() == 0 {
        let r = seq![s];
        assert forall|t: Seq<char>| #[trigger] r.contains(t) <==> texts.contains(t) || t == s by {
            if t == s {
                assert(r[0] == t);
            }
        }
        r
    } else {
        let last = texts.last();
        let front = texts.drop_last();
        assert(texts[texts.len() - 1] == last);
        assert forall|i: int| 0 <= i < front.len() implies #[trigger] front[i] == texts[i]
            && text::text_before(front[i], last) by {
            assert(text::text_before(texts[i], texts[texts.len() - 1]));
        }
        text::before_total(last, s);
        if last == s {
            texts
        } else if text::text_before(last, s) {
            let r = texts.push(s);
            assert forall|i: int, j: int| 0 <= i < j < r.len() implies text::text_before(
                #[trigger] r[i],
                #[trigger] r[j],
            ) by {
                if j < texts.len() {
                    assert(text::text_before(texts[i], texts[j]));
                } else if i < texts.len() - 1 {
                    assert(text::text_before(texts[i], texts[texts.len() - 1]));
                    text::before_transitive(texts[i], last, s);
                }
            }
            assert forall|t: Seq<char>| #[trigger] r.contains(t) <==> texts.contains(t) || t
                == s by {
                if texts.contains(t) {
                    let i = choose|i: int| 0 <= i < texts.len() && texts[i] == t;
                    assert(r[i] == t);
                }
                if t == s {
                    assert(r[texts.len() as int] == t);
                }
                if r.contains(t) {
                    let i = choose|i: int| 0 <= i < r.len() && r[i] == t;
                    if i < texts.len() {
                        assert(texts[i] == t);
                    }
                }
            }
            r
        } else {
            let some = with_text(front, s);
            let r = some.push(last);
            assert forall|i: int, j: int| 0 <= i < j < r.len() implies text::text_before(
                #[trigger] r[i],
                #[trigger] r[j],
            ) by {
                if j < some.len() {
                    assert(text::text_before(some[i], some[j]));
                } else {
                    assert(some.contains(some[i]));
                    if front.contains(some[i]) {
                        let k = choose|k: int| 0 <= k < front.len() && front[k] == some[i];
                        assert(text::text_before(front[k], last));
                    }
                }
            }
            assert forall|t: Seq<char>| #[trigger] r.contains(t) <==> texts.contains(t) || t
                == s by {
                if texts.contains(t) {
                    let i = choose|i: int| 0 <= i < texts.len() && texts[i] == t;
                    if i < front.len() {
                        assert(front[i] == t);
                        assert(some.contains(t));
                        let k = choose|k: int| 0 <= k < some.len() && some[k] == t;
                        assert(r[k] == t);
                    } else {
                        assert(r[some.len() as int] == t);
                    }
                }
                if t == s {
                    assert(some.contains(t));
                    let k = choose|k: int| 0 <= k < some.len() && some[k] == t;
                    assert(r[k] == t);
                }
                if r.contains(t) {
                    let i = choose|i: int| 0 <= i < r.len() && r[i] == t;
                    if i < some.len() {
                        assert(some.contains(t));
                        if front.contains(t) {
                            let k = choose|k: int| 0 <= k < front.len() && front[k] == t;
                            assert(texts[k] == t);
                        }
                    } else {
                        assert(texts[texts.len() - 1] == t);
                    }
                }
            }
            r
        }
    }
}

/// The place of an endpoint among others.
proof fn place_among(e: EndpointView, shown: Seq<EndpointView>, from: int) -> (p: int)
    requires
        0 <= from <= shown.len(),
        forall|j: int|
            0 <= j < from ==> !listed_before(
                e.dns_name,
                e.record_type,
                (#[trigger] shown[j]).dns_name,
                shown[j].record_type,
            ),
    ensures
        0 <= p <= shown.len(),
        forall|j: int|
            0 <= j < p ==> !listed_before(
                e.dns_name,
                e.record_type,
                (#[trigger] shown[j]).dns_name,
                shown[j].record_type,
            ),
        p < shown.len() ==> listed_before(
            e.dns_name,
            e.record_type,
            shown[p].dns_name,
            shown[p].record_type,
        ),
    decreases shown.len() - from,
{
    if from < shown.len() && !listed_before(
        e.dns_name,
        e.record_type,
        shown[from].dns_name,
        shown[from].record_type,
    ) {
        place_among(e, shown, from + 1)
    } else {
        from
    }
}

proof fn groups_of_first(all: Seq<RecordView>, zone: Seq<char>, n: int) -> (r: (
    Seq<int>,
    Seq<EndpointView>,
))
    requires
        0 <= n <= all.len(),
    ensures
        shows_groups(all.take(n), zone, r.0, r.1),
    decreases n,
{
    if n == 0 {
        (Seq::empty(), Seq::empty())
    } else {
        let (firsts, before) = groups_of_first(all, zone, n - 1);
        let m = n - 1;
        let key = key_of(all[m], zone);
        if exists|j: int| 0 <= j < firsts.len() && key_of(all[#[trigger] firsts[j]], zone) == key {
            let at = choose|j: int|
                0 <= j < firsts.len() && key_of(all[#[trigger] firsts[j]], zone) == key;
            assert(shows_group(all.take(m), zone, firsts[at], before[at]));
            let targets = with_text(before[at].targets, all[m].content);
            let after = before.update(at, EndpointView { targets, ..before[at] });
            lemma_group_grows(all, m, zone, firsts, before, after, at);
            (firsts, after)
        } else {
            let e = endpoint_of(all[m], zone);
            let p = place_among(e, before, 0);
            lemma_group_added(all, m, zone, firsts, before, p, e);
            (firsts.insert(p, m), before.insert(p, e))
        }
    }
}

/// The records of a zone can always be shown as endpoints.
pub proof fn grouping_exists(records: Seq<RecordView>, zone: Seq<char>)
    ensures
        exists|shown: Seq<EndpointView>| grouped(records, zone, shown),
{
    let (firsts, shown) = groups_of_first(records, zone, records.len() as int);
    assert(records.take(records.len() as int) =~= records);
    assert(grouped(records, zone, shown));
}

/// Endpoints and changes are seen with all that they hold.
pub proof fn changes_are_seen_whole(e: Endpoint, p: ProviderSpecific, c: Changes)
    ensures
        e@.dns_name == e.dns_name@,
        e@.record_type == e.record_type@,
        e@.record_ttl == e.record_ttl,
        e@.targets == e.targets.deep_view(),
        e@.provider_specific == e.provider_specific.deep_view(),
        e@.labels == e.labels@,
        p@ == (PropertyView { name: p.name@, value: p.value@ }),
        c@.create == c.create.deep_view(),
        c@.update_old == c.update_old.deep_view(),
        c@.update_new == c.update_new.deep_view(),
        c@.delete == c.delete.deep_view(),
        (ApplyChangesRequest::Direct(c))@ == c@,
        (ApplyChangesRequest::Wrapped { changes: c })@ == c@,
        c@.is_empty() <==> c.create@.len() == 0 && c.update_old@.len() == 0 && c.update_new@.len()
            == 0 && c.delete@.len() == 0,
{
}

} // verus!

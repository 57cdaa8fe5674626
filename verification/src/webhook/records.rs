//! Reading records: what the records of the managed zones look like as endpoints.
use crate::config::Config;
use crate::error::{Error, ErrorView};
use crate::number;
use crate::porkbun::types::{DnsRecord, RecordView};
use crate::text;
use crate::webhook::rules;
use crate::webhook::types;
use crate::webhook::types::{Endpoint, EndpointView};
use vstd::prelude::*;
use vstd::string::StringExecFns;

verus! {

/// Two lists in the same strict order with the same elements are equal.
proof fn sorted_lists_agree<A>(a: Seq<A>, b: Seq<A>, less: spec_fn(A, A) -> bool)
    requires
        forall|i: int, j: int| 0 <= i < j < a.len() ==> less(#[trigger] a[i], #[trigger] a[j]),
        forall|i: int, j: int| 0 <= i < j < b.len() ==> less(#[trigger] b[i], #[trigger] b[j]),
        forall|x: A, y: A| less(x, y) ==> !#[trigger] less(y, x),
        forall|x: A| #[trigger] a.contains(x) <==> b.contains(x),
    ensures
        a == b,
    decreases a.len(),
{
    if a.len() == 0 {
        if b.len() > 0 {
            assert(b.contains(b[0]));
            assert(a.contains(b[0]));
        }
        assert(a =~= b);
    } else {
        assert(a.contains(a.last()));
        let i = choose|i: int| 0 <= i < b.len() && b[i] == a.last();
        assert(b.contains(b.last()));
        assert(a.contains(b.last()));
        let j = choose|j: int| 0 <= j < a.len() && a[j] == b.last();
        if i < b.len() - 1 {
            assert(less(b[i], b[b.len() - 1]));
            if j < a.len() - 1 {
                assert(less(a[j], a[a.len() - 1]));
            }
        }
        assert(a.last() == b.last());
        let x = a.drop_last();
        let y = b.drop_last();
        assert forall|e: A| #[trigger] x.contains(e) <==> y.contains(e) by {
            if x.contains(e) {
                let k = choose|k: int| 0 <= k < x.len() && x[k] == e;
                assert(a[k] == e);
                assert(less(a[k], a[a.len() - 1]));
                assert(e != a.last());
                assert(a.contains(e));
                let m = choose|m: int| 0 <= m < b.len() && b[m] == e;
                assert(y[m] == e);
            }
            if y.contains(e) {
                let k = choose|k: int| 0 <= k < y.len() && y[k] == e;
                assert(b[k] == e);
                assert(less(b[k], b[b.len() - 1]));
                assert(e != b.last());
                assert(a.contains(e));
                let m = choose|m: int| 0 <= m < a.len() && a[m] == e;
                assert(x[m] == e);
            }
        }
        sorted_lists_agree(x, y, less);
        assert(a =~= x.push(a.last()));
        assert(b =~= y.push(b.last()));
    }
}

/// What a zone's records look like as endpoints is determined by the records.
pub proof fn grouping_is_determined(
    records: Seq<RecordView>,
    zone: Seq<char>,
    a: Seq<EndpointView>,
    b: Seq<EndpointView>,
)
    requires
        types::grouped(records, zone, a),
        types::grouped(records, zone, b),
    ensures
        a == b,
{
    let x = choose|firsts: Seq<int>| types::shows_groups(records, zone, firsts, a);
    let y = choose|firsts: Seq<int>| types::shows_groups(records, zone, firsts, b);
    let less = |i: int, j: int| types::group_before(records, zone, i, j);
    assert forall|i: int, j: int| less(i, j) implies !#[trigger] less(j, i) by {
        let k = types::key_of(records[i], zone);
        let m = types::key_of(records[j], zone);
        text::before_irreflexive(k.dns_name);
        text::before_irreflexive(k.record_type);
        if text::text_before(k.dns_name, m.dns_name) && text::text_before(m.dns_name, k.dns_name) {
            text::before_transitive(k.dns_name, m.dns_name, k.dns_name);
        }
        if text::text_before(k.record_type, m.record_type) && text::text_before(
            m.record_type,
            k.record_type,
        ) {
            text::before_transitive(k.record_type, m.record_type, k.record_type);
        }
    }
    assert forall|k: int| #[trigger] x.contains(k) <==> y.contains(k) by {
        if x.contains(k) {
            let i = choose|i: int| 0 <= i < x.len() && x[i] == k;
            assert(types::first_of_group(records, zone, x[i]));
        }
        if y.contains(k) {
            let i = choose|i: int| 0 <= i < y.len() && y[i] == k;
            assert(types::first_of_group(records, zone, y[i]));
        }
    }
    sorted_lists_agree(x, y, less);
    assert forall|i: int| 0 <= i < a.len() implies a[i] == b[i] by {
        let k = x[i];
        assert(types::shows_group(records, zone, x[i], a[i]));
        assert(types::shows_group(records, zone, y[i], b[i]));
        let key = types::key_of(records[k], zone);
        assert forall|t: Seq<char>| #[trigger]
            a[i].targets.contains(t) <==> b[i].targets.contains(t) by {
            assert(a[i].targets.contains(t) <==> types::group_holds(records, zone, key, t));
            assert(b[i].targets.contains(t) <==> types::group_holds(records, zone, key, t));
        }
        ascending_agree(a[i].targets, b[i].targets);
    }
    assert(a =~= b);
}

proof fn ascending_agree(a: Seq<Seq<char>>, b: Seq<Seq<char>>)
    requires
        text::ascending(a),
        text::ascending(b),
        forall|t: Seq<char>| #[trigger] a.contains(t) <==> b.contains(t),
    ensures
        a == b,
{
    let less = |x: Seq<char>, y: Seq<char>| text::text_before(x, y);
    assert forall|x: Seq<char>, y: Seq<char>| less(x, y) implies !#[trigger] less(y, x) by {
        text::before_irreflexive(x);
        if text::text_before(y, x) {
            text::before_transitive(x, y, x);
        }
    }
    sorted_lists_agree(a, b, less);
}

/// Tells the records of a type that is managed from the others.
pub open spec fn managed() -> spec_fn(RecordView) -> bool {
    |r: RecordView| rules::supported(r.record_type)
}

/// `shown` is what the records of `zone` that are of a managed type look like as endpoints.
pub open spec fn shows(
    records: Seq<RecordView>,
    zone: Seq<char>,
    shown: Seq<EndpointView>,
) -> bool {
    types::grouped(records.filter(managed()), zone, shown)
}

/// What the records of `zone` that are of a managed type look like as endpoints.
pub open spec fn endpoints_of(records: Seq<RecordView>, zone: Seq<char>) -> Seq<EndpointView> {
    choose|shown: Seq<EndpointView>| shows(records, zone, shown)
}

/// What the records of `zone` that are of a managed type look like as endpoints.
pub fn filter_and_group_records(records: &Vec<DnsRecord>, zone: &str) -> (r: Vec<Endpoint>)
    ensures
        r.deep_view() == endpoints_of(records.deep_view(), zone@),
        shows(records.deep_view(), zone@, r.deep_view()),
{
    let ghost all = records.deep_view();
    let mut supported: Vec<DnsRecord> = Vec::new();
    proof {
        reveal(Seq::filter);
        assert(supported.deep_view() =~= all.take(0).filter(managed()));
    }
    for i in 0..records.len()
        invariant
            all == records.deep_view(),
            supported.deep_view() == all.take(i as int).filter(managed()),
    {
        let ghost before = supported.deep_view();
        proof {
            assert(all.take(i + 1) =~= all.take(i as int).push(all[i as int]));
            all.take(i as int).lemma_filter_push(all[i as int], managed());
        }
        if rules::is_supported(&records[i].record_type) {
            supported.push(records[i].clone());
            assert(supported.deep_view() =~= before.push(records[i as int]@));
        }
    }
    assert(all.take(all.len() as int) =~= all);
    let shown = types::group_porkbun_records(&supported, zone);
    proof {
        assert(shows(all, zone@, shown.deep_view()));
        grouping_is_determined(
            all.filter(managed()),
            zone@,
            shown.deep_view(),
            endpoints_of(all, zone@),
        );
    }
    shown
}

/// What reading needs next.
#[derive(Debug)]
pub enum ReadAction {
    /// The domains that are managed.
    ManagedDomains,
    /// The records of the zone.
    ListRecords(String),
    /// Reading is over.
    Finish(Result<Vec<Endpoint>, Error>),
}

/// A [`ReadAction`] with its texts as sequences of characters.
pub enum ReadActionView {
    ManagedDomains,
    ListRecords(Seq<char>),
    Finish(Result<Seq<EndpointView>, ErrorView>),
}

impl View for ReadAction {
    type V = ReadActionView;

    open spec fn view(&self) -> ReadActionView {
        match *self {
            ReadAction::ManagedDomains => ReadActionView::ManagedDomains,
            ReadAction::ListRecords(zone) => ReadActionView::ListRecords(zone@),
            ReadAction::Finish(Ok(endpoints)) => ReadActionView::Finish(Ok(endpoints.deep_view())),
            ReadAction::Finish(Err(e)) => ReadActionView::Finish(Err(e@)),
        }
    }
}

/// How far reading has come.
#[derive(Debug)]
pub enum Reading {
    /// The managed domains are awaited; one zone is asked for, or all are.
    Domains(Option<String>),
    /// The records of the one zone are awaited.
    One(String),
    /// The records of the zone at `done` are awaited; those before it are read or skipped.
    All { zones: Vec<String>, done: usize, endpoints: Vec<Endpoint>, skipped: usize },
    /// Nothing is awaited any more.
    Over,
}

/// A [`Reading`] with its texts as sequences of characters.
pub enum ReadingView {
    Domains(Option<Seq<char>>),
    One(Seq<char>),
    All { zones: Seq<Seq<char>>, done: int, endpoints: Seq<EndpointView>, skipped: int },
    Over,
}

impl View for Reading {
    type V = ReadingView;

    open spec fn view(&self) -> ReadingView {
        match *self {
            Reading::Domains(zone) => ReadingView::Domains(zone.deep_view()),
            Reading::One(zone) => ReadingView::One(zone@),
            Reading::All { zones, done, endpoints, skipped } => ReadingView::All {
                zones: zones.deep_view(),
                done: done as int,
                endpoints: endpoints.deep_view(),
                skipped: skipped as int,
            },
            Reading::Over => ReadingView::Over,
        }
    }
}

/// A state of reading with the action that it waits for.
pub struct ReadStep {
    pub reading: ReadingView,
    pub action: ReadActionView,
}

impl ReadingView {
    /// No more zones are read or skipped than there are, and one is left.
    pub open spec fn wf(self) -> bool {
        match self {
            ReadingView::All { zones, done, endpoints, skipped } => 0 <= skipped <= done
                < zones.len(),
            _ => true,
        }
    }

    /// The action is what the state awaits.
    pub open spec fn waits_for(self, action: ReadActionView) -> bool {
        match self {
            ReadingView::Domains(zone) => action is ManagedDomains,
            ReadingView::One(zone) => action == ReadActionView::ListRecords(zone),
            ReadingView::All { zones, done, endpoints, skipped } => 0 <= done < zones.len()
                && action == ReadActionView::ListRecords(zones[done]),
            ReadingView::Over => action is Finish,
        }
    }
}

/// Reading is over.
pub open spec fn read_over(result: Result<Seq<EndpointView>, ErrorView>) -> ReadStep {
    ReadStep { reading: ReadingView::Over, action: ReadActionView::Finish(result) }
}

/// Why nothing is returned where no zone could be read.
pub open spec fn none_read(zones: nat, skipped: nat) -> ErrorView {
    ErrorView::PorkbunApi(
        "All "@ + number::decimal(zones) + " zones failed during record retrieval ("@
            + number::decimal(skipped) + " skipped)"@,
    )
}

/// Reading goes on to the zone at `done`, or ends after the last: with the endpoints, unless
/// there were zones and all of them were skipped.
pub open spec fn read_on(
    zones: Seq<Seq<char>>,
    done: int,
    endpoints: Seq<EndpointView>,
    skipped: int,
) -> ReadStep {
    if done < zones.len() {
        ReadStep {
            reading: ReadingView::All { zones, done, endpoints, skipped },
            action: ReadActionView::ListRecords(zones[done]),
        }
    } else if zones.len() > 0 && skipped == done {
        read_over(Err(none_read(zones.len(), skipped as nat)))
    } else {
        read_over(Ok(endpoints))
    }
}

/// Reading begins once the managed domains are known: one zone must be among them.
pub open spec fn read_zones(zone: Option<Seq<char>>, zones: Seq<Seq<char>>) -> ReadStep {
    match zone {
        Some(z) => if zones.contains(z) {
            ReadStep { reading: ReadingView::One(z), action: ReadActionView::ListRecords(z) }
        } else {
            read_over(Err(ErrorView::DomainNotAllowed(z + " is not a managed zone"@)))
        },
        None => read_on(zones, 0, Seq::empty(), 0),
    }
}

/// Reading begins: a filter answers for the managed domains.
pub open spec fn read_start(
    filter: Option<Seq<Seq<char>>>,
    zone_name: Option<Seq<char>>,
) -> ReadStep {
    let zone = match zone_name {
        Some(name) => Some(text::normalized(name)),
        None => None,
    };
    match filter {
        Some(zones) => read_zones(zone, zones),
        None => ReadStep {
            reading: ReadingView::Domains(zone),
            action: ReadActionView::ManagedDomains,
        },
    }
}

/// The failure concerns the zone alone, so that the zone can be skipped.
pub open spec fn skippable(e: ErrorView) -> bool {
    e is PorkbunApi || e is DomainNotAllowed
}

/// Reading goes on with the managed domains.
pub open spec fn read_domains(
    reading: ReadingView,
    reply: Result<Seq<Seq<char>>, ErrorView>,
) -> ReadStep {
    match reply {
        Err(e) => read_over(Err(e)),
        Ok(zones) => read_zones(reading->Domains_0, zones),
    }
}

/// Reading goes on with the records of the zone that was awaited. Of one zone, any failure
/// is the result; of all zones, one that concerns the zone alone skips the zone.
pub open spec fn read_records(
    reading: ReadingView,
    reply: Result<Seq<RecordView>, ErrorView>,
) -> ReadStep {
    match reading {
        ReadingView::All { zones, done, endpoints, skipped } => match reply {
            Ok(records) => read_on(
                zones,
                done + 1,
                endpoints + endpoints_of(records, zones[done]),
                skipped,
            ),
            Err(e) => if skippable(e) {
                read_on(zones, done + 1, endpoints, skipped + 1)
            } else {
                read_over(Err(e))
            },
        },
        ReadingView::One(zone) => match reply {
            Ok(records) => read_over(Ok(endpoints_of(records, zone))),
            Err(e) => read_over(Err(e)),
        },
        _ => read_over(Ok(Seq::empty())),
    }
}

/// A result with its zones and its failure as views.
pub open spec fn zones_view(reply: Result<Vec<String>, Error>) -> Result<
    Seq<Seq<char>>,
    ErrorView,
> {
    match reply {
        Ok(zones) => Ok(zones.deep_view()),
        Err(e) => Err(e@),
    }
}

/// A result with its records and its failure as views.
pub open spec fn records_view(reply: Result<Vec<DnsRecord>, Error>) -> Result<
    Seq<RecordView>,
    ErrorView,
> {
    match reply {
        Ok(records) => Ok(records.deep_view()),
        Err(e) => Err(e@),
    }
}

/// Whether the zone is among the zones.
fn has_zone(zones: &Vec<String>, zone: &str) -> (r: bool)
    ensures
        r == zones.deep_view().contains(zone@),
{
    let ghost all = zones.deep_view();
    for i in 0..zones.len()
        invariant
            all == zones.deep_view(),
            forall|j: int| 0 <= j < i ==> #[trigger] all[j] != zone@,
    {
        assert(all[i as int] == zones[i as int]@);
        if text::same_text(&zones[i], zone) {
            return true;
        }
    }
    false
}

impl Reading {
    fn go_on(zones: Vec<String>, done: usize, endpoints: Vec<Endpoint>, skipped: usize) -> (r: (
        Reading,
        ReadAction,
    ))
        requires
            skipped <= done <= zones@.len(),
        ensures
            (ReadStep { reading: r.0@, action: r.1@ }) == read_on(
                zones.deep_view(),
                done as int,
                endpoints.deep_view(),
                skipped as int,
            ),
            r.0@.wf(),
            r.0@.waits_for(r.1@),
    {
        if done < zones.len() {
            let zone = zones[done].clone();
            (Reading::All { zones, done, endpoints, skipped }, ReadAction::ListRecords(zone))
        } else if zones.len() > 0 && skipped == done {
            let words = "All ".to_owned().concat(&number::decimal_text(zones.len() as u64)).concat(
                " zones failed during record retrieval (",
            ).concat(&number::decimal_text(skipped as u64)).concat(" skipped)");
            (Reading::Over, ReadAction::Finish(Err(Error::PorkbunApi(words))))
        } else {
            (Reading::Over, ReadAction::Finish(Ok(endpoints)))
        }
    }

    fn with_zones(zone: Option<String>, zones: Vec<String>) -> (r: (Reading, ReadAction))
        ensures
            (ReadStep { reading: r.0@, action: r.1@ }) == read_zones(
                zone.deep_view(),
                zones.deep_view(),
            ),
            r.0@.wf(),
            r.0@.waits_for(r.1@),
    {
        match zone {
            Some(z) => if has_zone(&zones, &z) {
                (Reading::One(z.clone()), ReadAction::ListRecords(z))
            } else {
                (
                    Reading::Over,
                    ReadAction::Finish(
                        Err(Error::DomainNotAllowed(z.concat(" is not a managed zone"))),
                    ),
                )
            },
            None => {
                let endpoints: Vec<Endpoint> = Vec::new();
                assert(endpoints.deep_view() =~= Seq::empty());
                Reading::go_on(zones, 0, endpoints, 0)
            },
        }
    }

    /// Begins to read the records of the zone, or of all managed zones.
    pub fn start(config: &Config, zone_name: Option<String>) -> (r: (Reading, ReadAction))
        ensures
            (ReadStep { reading: r.0@, action: r.1@ }) == read_start(
                config.domain_filter.deep_view(),
                zone_name.deep_view(),
            ),
            r.0@.wf(),
            r.0@.waits_for(r.1@),
    {
        let zone = match &zone_name {
            Some(name) => Some(Config::normalize_domain(name)),
            None => None,
        };
        match &config.domain_filter {
            Some(zones) => Reading::with_zones(zone, text::copy_texts(zones)),
            None => (Reading::Domains(zone), ReadAction::ManagedDomains),
        }
    }

    /// Goes on with the managed domains.
    pub fn domains(self, reply: Result<Vec<String>, Error>) -> (r: (Reading, ReadAction))
        requires
            self@ is Domains,
        ensures
            (ReadStep { reading: r.0@, action: r.1@ }) == read_domains(self@, zones_view(reply)),
            r.0@.wf(),
            r.0@.waits_for(r.1@),
    {
        match (self, reply) {
            (Reading::Domains(zone), Ok(zones)) => Reading::with_zones(zone, zones),
            (_, Err(e)) => (Reading::Over, ReadAction::Finish(Err(e))),
            (_, Ok(_)) => (Reading::Over, ReadAction::Finish(Ok(Vec::new()))),
        }
    }

    /// Goes on with the records of the zone that was awaited.
    pub fn records(self, reply: Result<Vec<DnsRecord>, Error>) -> (r: (Reading, ReadAction))
        requires
            self@ is One || self@ is All,
            self@.wf(),
        ensures
            (ReadStep { reading: r.0@, action: r.1@ }) == read_records(self@, records_view(reply)),
            r.0@.wf(),
            r.0@.waits_for(r.1@),
    {
        match (self, reply) {
            (Reading::All { zones, done, endpoints, skipped }, Ok(records)) => {
                let ghost before = endpoints.deep_view();
                let mut shown = filter_and_group_records(&records, &zones[done]);
                let ghost new = shown.deep_view();
                let mut all = endpoints;
                all.append(&mut shown);
                assert(all.deep_view() =~= before + new);
                assert(done < zones.len());
                Reading::go_on(zones, done + 1, all, skipped)
            },
            (
                Reading::All { zones, done, endpoints, skipped },
                Err(Error::PorkbunApi(_)),
            ) => {
                assert(done < zones.len());
                Reading::go_on(zones, done + 1, endpoints, skipped + 1)
            },
            (
                Reading::All { zones, done, endpoints, skipped },
                Err(Error::DomainNotAllowed(_)),
            ) => {
                assert(done < zones.len());
                Reading::go_on(zones, done + 1, endpoints, skipped + 1)
            },
            (Reading::One(zone), Ok(records)) => (
                Reading::Over,
                ReadAction::Finish(Ok(filter_and_group_records(&records, &zone))),
            ),
            (_, Err(e)) => (Reading::Over, ReadAction::Finish(Err(e))),
            (_, Ok(_)) => (Reading::Over, ReadAction::Finish(Ok(Vec::new()))),
        }
    }
}

/// What reading all zones comes to, given the reply for each of them: the endpoints of the
/// zones that were read, in the order of the zones.
pub open spec fn all_read(
    zones: Seq<Seq<char>>,
    replies: Seq<Result<Seq<RecordView>, ErrorView>>,
    done: int,
) -> Seq<EndpointView>
    decreases done,
{
    if done <= 0 {
        Seq::empty()
    } else {
        all_read(zones, replies, done - 1) + match replies[done - 1] {
            Ok(records) => endpoints_of(records, zones[done - 1]),
            Err(e) => Seq::empty(),
        }
    }
}

/// How many of the first zones are skipped, given the reply for each of them.
pub open spec fn skipped_in(replies: Seq<Result<Seq<RecordView>, ErrorView>>, done: int) -> int
    decreases done,
{
    if done <= 0 {
        0
    } else {
        skipped_in(replies, done - 1) + if replies[done - 1] is Err {
            1int
        } else {
            0
        }
    }
}

/// The state of reading all zones after the first replies.
pub open spec fn read_along(
    zones: Seq<Seq<char>>,
    replies: Seq<Result<Seq<RecordView>, ErrorView>>,
    done: int,
) -> ReadStep
    decreases done,
{
    if done <= 0 {
        read_on(zones, 0, Seq::empty(), 0)
    } else {
        read_records(read_along(zones, replies, done - 1).reading, replies[done - 1])
    }
}

proof fn read_along_is(
    zones: Seq<Seq<char>>,
    replies: Seq<Result<Seq<RecordView>, ErrorView>>,
    done: int,
)
    requires
        0 <= done <= zones.len() == replies.len(),
        forall|k: int| 0 <= k < done ==> (#[trigger] replies[k] matches Err(e) ==> skippable(e)),
    ensures
        read_along(zones, replies, done) == read_on(
            zones,
            done,
            all_read(zones, replies, done),
            skipped_in(replies, done),
        ),
        0 <= skipped_in(replies, done) <= done,
    decreases done,
{
    if done > 0 {
        read_along_is(zones, replies, done - 1);
        assert(replies[done - 1] matches Err(e) ==> skippable(e));
        if replies[done - 1] is Err {
            assert(all_read(zones, replies, done) =~= all_read(zones, replies, done - 1));
        }
    }
}

/// Reading all zones returns the endpoints of all zones that could be read, in their order,
/// as long as the failures concern single zones and at least one zone could be read.
pub proof fn all_zones_are_read(
    zones: Seq<Seq<char>>,
    replies: Seq<Result<Seq<RecordView>, ErrorView>>,
)
    requires
        zones.len() == replies.len(),
        forall|k: int|
            0 <= k < replies.len() ==> (#[trigger] replies[k] matches Err(e) ==> skippable(e)),
        exists|k: int| 0 <= k < replies.len() && (#[trigger] replies[k]) is Ok,
    ensures
        read_along(zones, replies, zones.len() as int) == read_over(
            Ok(all_read(zones, replies, zones.len() as int)),
        ),
{
    read_along_is(zones, replies, zones.len() as int);
    let k = choose|k: int| 0 <= k < replies.len() && (#[trigger] replies[k]) is Ok;
    some_not_skipped(replies, zones.len() as int, k);
}

proof fn some_not_skipped(replies: Seq<Result<Seq<RecordView>, ErrorView>>, done: int, k: int)
    requires
        0 <= k < done,
        replies[k] is Ok,
    ensures
        skipped_in(replies, done) < done,
    decreases done,
{
    if k < done - 1 {
        some_not_skipped(replies, done - 1, k);
    } else {
        skipped_at_most(replies, done - 1);
    }
}

proof fn skipped_at_most(replies: Seq<Result<Seq<RecordView>, ErrorView>>, done: int)
    requires
        0 <= done,
    ensures
        skipped_in(replies, done) <= done,
        (forall|k: int| 0 <= k < done ==> (#[trigger] replies[k]) is Err) ==> skipped_in(
            replies,
            done,
        ) == done,
    decreases done,
{
    if done > 0 {
        skipped_at_most(replies, done - 1);
    }
}

/// An empty answer is never given in place of zones that could not be read: where there are
/// zones and none can be read, reading fails.
pub proof fn no_zone_read_is_failure(
    zones: Seq<Seq<char>>,
    replies: Seq<Result<Seq<RecordView>, ErrorView>>,
)
    requires
        zones.len() == replies.len(),
        zones.len() > 0,
        forall|k: int|
            0 <= k < replies.len() ==> (#[trigger] replies[k] matches Err(e) && skippable(e)),
    ensures
        read_along(zones, replies, zones.len() as int) == read_over(
            Err(none_read(zones.len(), zones.len())),
        ),
{
    let n = zones.len() as int;
    assert(forall|k: int|
        0 <= k < n ==> (#[trigger] replies[k] matches Err(e) ==> skippable(e)));
    read_along_is(zones, replies, n);
    skipped_at_most(replies, n);
}

/// A failure that does not concern a single zone, such as one that a retry may overcome,
/// ends reading with that failure.
pub proof fn grave_failure_ends_reading(reading: ReadingView, e: ErrorView)
    requires
        reading is One || reading is All,
        e.transient() || !skippable(e),
    ensures
        read_records(reading, Err(e)) == read_over(Err(e)),
{
}

} // verus!

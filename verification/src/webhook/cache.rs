//! Lists that are kept to avoid asking the service again.
use crate::config::Config;
use crate::porkbun::types::{DnsRecord, Domain, RecordView};
use crate::text;
use vstd::prelude::*;

verus! {

/// The records of zones that were listed before.
#[derive(Debug)]
pub struct ZoneCache {
    entries: Vec<(String, Vec<DnsRecord>)>,
}

/// What a list of entries holds: a later entry takes the place of an earlier one.
pub open spec fn table(entries: Seq<(Seq<char>, Seq<RecordView>)>) -> Map<
    Seq<char>,
    Seq<RecordView>,
>
    decreases entries.len(),
{
    if entries.len() == 0 {
        Map::empty()
    } else {
        table(entries.drop_last()).insert(entries.last().0, entries.last().1)
    }
}

proof fn table_has(entries: Seq<(Seq<char>, Seq<RecordView>)>, zone: Seq<char>)
    ensures
        table(entries).dom().contains(zone) <==> exists|i: int|
            0 <= i < entries.len() && (#[trigger] entries[i]).0 == zone,
    decreases entries.len(),
{
    if entries.len() > 0 {
        let front = entries.drop_last();
        table_has(front, zone);
        assert forall|i: int| 0 <= i < front.len() implies #[trigger] front[i] == entries[i] by {}
        if table(entries).dom().contains(zone) && entries.last().0 == zone {
            assert(entries[entries.len() - 1].0 == zone);
        }
        if exists|i: int| 0 <= i < entries.len() && (#[trigger] entries[i]).0 == zone {
            let i = choose|i: int| 0 <= i < entries.len() && (#[trigger] entries[i]).0 == zone;
            if i < entries.len() - 1 {
                assert(front[i].0 == zone);
            }
        }
    }
}

proof fn table_without(entries: Seq<(Seq<char>, Seq<RecordView>)>, i: int)
    requires
        0 <= i < entries.len(),
    ensures
        table(entries.remove(i)).remove(entries[i].0) == table(entries).remove(entries[i].0),
    decreases entries.len(),
{
    let front = entries.drop_last();
    if i == entries.len() - 1 {
        assert(entries.remove(i) =~= front);
        assert(table(entries).remove(entries[i].0) =~= table(front).remove(entries[i].0));
    } else {
        table_without(front, i);
        assert(entries.remove(i).drop_last() =~= front.remove(i));
        assert(entries.remove(i).last() == entries.last());
        let zone = entries[i].0;
        let last = entries.last();
        let a = table(front.remove(i));
        let b = table(front);
        if last.0 == zone {
            assert(a.insert(last.0, last.1).remove(zone) =~= a.remove(zone));
            assert(b.insert(last.0, last.1).remove(zone) =~= b.remove(zone));
        } else {
            assert(a.insert(last.0, last.1).remove(zone) =~= a.remove(zone).insert(last.0, last.1));
            assert(b.insert(last.0, last.1).remove(zone) =~= b.remove(zone).insert(last.0, last.1));
        }
    }
}

impl View for ZoneCache {
    type V = Map<Seq<char>, Seq<RecordView>>;

    closed spec fn view(&self) -> Map<Seq<char>, Seq<RecordView>> {
        table(self.entries.deep_view())
    }
}

impl ZoneCache {
    /// A cache without zones.
    pub fn new() -> (r: ZoneCache)
        ensures
            r@ == Map::<Seq<char>, Seq<RecordView>>::empty(),
    {
        ZoneCache { entries: Vec::new() }
    }

    /// The records of the zone, where it was listed.
    pub fn get(&self, zone: &str) -> (r: Option<&Vec<DnsRecord>>)
        ensures
            match r {
                Some(records) => self@.dom().contains(zone@) && self@[zone@]
                    == records.deep_view(),
                None => !self@.dom().contains(zone@),
            },
    {
        let ghost all = self.entries.deep_view();
        let mut n: usize = self.entries.len();
        assert(all.take(n as int) =~= all);
        while n > 0
            invariant
                n <= all.len(),
                all == self.entries.deep_view(),
                table(all.take(n as int)).dom().contains(zone@) <==> table(all).dom().contains(
                    zone@,
                ),
                table(all).dom().contains(zone@) ==> table(all.take(n as int))[zone@] == table(
                    all,
                )[zone@],
            decreases n,
        {
            proof {
                assert(all.take(n as int).drop_last() =~= all.take(n - 1));
                assert(all.take(n as int).last() == all[n - 1]);
                assert(all[n - 1].0 == self.entries@[n - 1].0@);
                assert(all[n - 1].1 == self.entries@[n - 1].1.deep_view());
            }
            n = n - 1;
            if text::same_text(&self.entries[n].0, zone) {
                return Some(&self.entries[n].1);
            }
        }
        None
    }

    /// Keeps the records of the zone, in place of any that were kept before.
    pub fn insert(&mut self, zone: String, records: Vec<DnsRecord>)
        ensures
            final(self)@ == old(self)@.insert(zone@, records.deep_view()),
    {
        let ghost before = self.entries.deep_view();
        self.entries.push((zone, records));
        proof {
            let after = self.entries.deep_view();
            assert(after.drop_last() =~= before);
            assert(after.last() == (zone@, records.deep_view()));
        }
    }

    /// Forgets the records of the zone.
    pub fn remove(&mut self, zone: &str)
        ensures
            final(self)@ == old(self)@.remove(zone@),
    {
        let ghost start = self@;
        let mut n: usize = self.entries.len();
        while n > 0
            invariant
                n <= self.entries@.len(),
                self@.remove(zone@) == start.remove(zone@),
                forall|j: int|
                    n <= j < self.entries@.len() ==> (#[trigger] self.entries@[j]).0@ != zone@,
            decreases n,
        {
            n = n - 1;
            if text::same_text(&self.entries[n].0, zone) {
                let ghost before = self.entries.deep_view();
                assert(before[n as int].0 == zone@);
                self.entries.remove(n);
                proof {
                    table_without(before, n as int);
                    assert(self.entries.deep_view() =~= before.remove(n as int));
                }
            }
        }
        proof {
            let all = self.entries.deep_view();
            table_has(all, zone@);
            assert forall|i: int| 0 <= i < all.len() implies (#[trigger] all[i]).0 != zone@ by {
                assert(self.entries@[i].0@ != zone@);
            }
            assert(self@.remove(zone@) =~= self@);
        }
    }
}

/// The account's domains as they were listed last, in canonical form.
#[derive(Debug)]
pub struct DomainCache {
    pub domains: Vec<String>,
    /// The moment, in nanoseconds, from which the list counts no more.
    pub expires_at: u128,
}

/// The canonical forms of domain names.
pub open spec fn canonical_names(domains: Seq<Seq<char>>) -> Seq<Seq<char>> {
    domains.map_values(|d: Seq<char>| text::normalized(d))
}

impl DomainCache {
    /// Keeps domains that were listed at the moment `now`, in nanoseconds, for `ttl` seconds.
    pub fn new(domains: &Vec<Domain>, now: u64, ttl: u64) -> (r: DomainCache)
        ensures
            r.domains.deep_view() == canonical_names(domains.deep_view()),
            r.expires_at == now + ttl * 1_000_000_000,
    {
        let ghost all = domains.deep_view();
        let mut names: Vec<String> = Vec::new();
        for i in 0..domains.len()
            invariant
                all == domains.deep_view(),
                names.deep_view() =~= canonical_names(all.take(i as int)),
        {
            let ghost before = names.deep_view();
            names.push(Config::normalize_domain(&domains[i].domain));
            proof {
                assert(all[i as int] == domains[i as int]@);
                assert(names.deep_view() =~= before.push(text::normalized(all[i as int])));
            }
        }
        assert(all.take(all.len() as int) =~= all);
        DomainCache { domains: names, expires_at: now as u128 + ttl as u128 * 1_000_000_000 }
    }

    /// Whether the list still counts at the moment `now`.
    pub fn is_fresh(&self, now: u64) -> (r: bool)
        ensures
            r == (now < self.expires_at),
    {
        (now as u128) < self.expires_at
    }
}

/// Domains are kept in canonical form, each in its place.
pub proof fn domains_are_kept_in_canonical_form(domains: Seq<Seq<char>>, i: int)
    requires
        0 <= i < domains.len(),
    ensures
        canonical_names(domains).len() == domains.len(),
        canonical_names(domains)[i] == text::normalized(domains[i]),
{
}

/// Of a zone that was kept more than once the last list counts.
pub proof fn last_list_counts(
    entries: Seq<(Seq<char>, Seq<RecordView>)>,
    zone: Seq<char>,
    records: Seq<RecordView>,
    other: Seq<char>,
)
    requires
        other != zone,
    ensures
        table(entries.push((zone, records))).dom().contains(zone),
        table(entries.push((zone, records)))[zone] == records,
        table(entries.push((zone, records))).dom().contains(other) <==> table(entries).dom().contains(
            other,
        ),
        table(entries).dom().contains(other) ==> table(entries.push((zone, records)))[other]
            == table(entries)[other],
{
    assert(entries.push((zone, records)).drop_last() =~= entries);
}

} // verus!

//! The handlers behind the routes of the webhook.
use crate::config::Config;
use crate::error::Error;
use crate::porkbun::client;
use crate::porkbun::client::Client;
use crate::porkbun::types::{Domain, PingResponse};
use crate::text;
use crate::webhook::agenda;
use crate::webhook::agenda::{ApplyAction, StepView};
use crate::webhook::apply::ApplyRun;
use crate::webhook::cache;
use crate::webhook::cache::DomainCache;
use crate::webhook::records;
use crate::webhook::records::{ReadAction, ReadStep, Reading};
use crate::webhook::rules;
use crate::webhook::types::{ApplyChangesRequest, Endpoint, GetRecordsQuery, HealthResponse};
use vstd::prelude::*;

verus! {

/// The webhook: the account that it manages, its settings, and the domains that were
/// listed last.
pub struct WebhookHandler {
    pub porkbun_client: Client,
    pub config: Config,
    pub domain_cache: Option<DomainCache>,
}

/// The answer that tells ExternalDNS what is spoken here and which domains are managed.
#[derive(Debug)]
pub struct Negotiation {
    pub status: u16,
    pub content_type: String,
    pub filters: Vec<String>,
}

/// The domains that are managed, as far as they are known at the moment `now`: those of the
/// filter, or else those that were listed last, while the list still counts.
pub open spec fn known_domains(
    filter: Option<Seq<Seq<char>>>,
    cached: Option<DomainCache>,
    now: u64,
) -> Option<Seq<Seq<char>>> {
    match filter {
        Some(zones) => Some(zones),
        None => match cached {
            Some(kept) => if now < kept.expires_at {
                Some(kept.domains.deep_view())
            } else {
                None
            },
            None => None,
        },
    }
}

impl WebhookHandler {
    /// The webhook for an account under these settings.
    pub fn new(porkbun_client: Client, config: Config) -> (r: WebhookHandler)
        ensures
            r.porkbun_client == porkbun_client,
            r.config == config,
            r.domain_cache is None,
    {
        WebhookHandler { porkbun_client, config, domain_cache: None }
    }

    /// The webhook is up.
    pub fn health(&self, version: &str) -> (r: HealthResponse)
        ensures
            r.status@ == "healthy"@,
            r.version@ == version@,
    {
        HealthResponse { status: "healthy".to_owned(), version: version.to_owned() }
    }

    /// The webhook is ready where the reply to a ping says that the service is.
    pub fn ready(&self, reply: Result<PingResponse, Error>, version: &str) -> (r: Result<
        HealthResponse,
        Error,
    >)
        ensures
            match reply {
                Err(e) => r == Err::<HealthResponse, Error>(e),
                Ok(p) => match client::told_failure("ping"@, p.status@, p.message.deep_view()) {
                    None => r matches Ok(h) && h.status@ == "ready"@ && h.version@ == version@,
                    Some(x) => r matches Err(e) && e@ == x && client::ascii_lowered(
                        client::said(p.status@, p.message.deep_view()),
                    ),
                },
            },
    {
        match self.porkbun_client.ping(reply) {
            Err(e) => Err(e),
            Ok(_) => Ok(
                HealthResponse { status: "ready".to_owned(), version: version.to_owned() },
            ),
        }
    }

    /// What is spoken here and which domains are managed; none where all are.
    pub fn negotiate(&self) -> (r: Negotiation)
        ensures
            r.status == 200,
            r.content_type@ == "application/external.dns.webhook+json;version=1"@,
            r.filters.deep_view() == match self.config.domain_filter.deep_view() {
                Some(zones) => zones,
                None => Seq::empty(),
            },
    {
        Negotiation {
            status: 200,
            content_type: "application/external.dns.webhook+json;version=1".to_owned(),
            filters: self.config.normalized_domain_filter(),
        }
    }

    /// Begins to read the records of the zone asked for, or of all managed zones.
    pub fn get_records(&self, query: GetRecordsQuery) -> (r: (Reading, ReadAction))
        ensures
            (ReadStep { reading: r.0@, action: r.1@ }) == records::read_start(
                self.config.domain_filter.deep_view(),
                query.zone_name.deep_view(),
            ),
            r.0@.wf(),
            r.0@.waits_for(r.1@),
    {
        Reading::start(&self.config, query.zone_name)
    }

    /// Begins to carry out changes; `Err` holds the words of the reader that could not read
    /// the request.
    pub fn apply_changes(&self, body: Result<ApplyChangesRequest, String>) -> (r: (
        ApplyRun,
        ApplyAction,
    ))
        ensures
            (StepView { run: r.0@, action: r.1@ }) == agenda::begin(
                agenda::policy_of(self.config),
                match body {
                    Ok(request) => Ok(request@),
                    Err(words) => Err(words@),
                },
            ),
            r.0@.wf(),
            r.0@.waits_for(r.1@),
    {
        ApplyRun::begin(&self.config, body)
    }

    /// Endpoints need no adjustment.
    pub fn adjust_endpoints(&self, endpoints: Vec<Endpoint>) -> (r: Vec<Endpoint>)
        ensures
            r == endpoints,
    {
        endpoints
    }

    /// The zone of a name among the managed domains.
    pub fn resolve_zone(&self, dns_name: &str, domains: &Vec<String>) -> (r: Result<String, Error>)
        ensures
            rules::text_result(r) == rules::resolved(
                self.config.domain_filter is Some,
                match self.config.domain_filter.deep_view() {
                    Some(zones) => zones,
                    None => domains.deep_view(),
                },
                dns_name@,
            ),
    {
        match &self.config.domain_filter {
            Some(zones) => rules::resolve_in(true, zones, dns_name),
            None => rules::resolve_in(false, domains, dns_name),
        }
    }

    /// The domains that are managed, where they need not be listed anew at the moment `now`,
    /// in nanoseconds.
    pub fn get_managed_domains(&self, now: u64) -> (r: Option<Vec<String>>)
        ensures
            r.deep_view() == known_domains(
                self.config.domain_filter.deep_view(),
                self.domain_cache,
                now,
            ),
    {
        match &self.config.domain_filter {
            Some(zones) => Some(text::copy_texts(zones)),
            None => match &self.domain_cache {
                Some(kept) => if kept.is_fresh(now) {
                    Some(text::copy_texts(&kept.domains))
                } else {
                    None
                },
                None => None,
            },
        }
    }

    /// Keeps domains that were listed at the moment `now`, in nanoseconds, and returns them
    /// in canonical form.
    pub fn keep_domains(&mut self, domains: &Vec<Domain>, now: u64) -> (r: Vec<String>)
        ensures
            r.deep_view() == cache::canonical_names(domains.deep_view()),
            final(self).porkbun_client == old(self).porkbun_client,
            final(self).config == old(self).config,
            final(self).domain_cache matches Some(kept) && kept.domains.deep_view() == r.deep_view()
                && kept.expires_at == now + old(self).config.cache_ttl_seconds * 1_000_000_000,
    {
        let kept = DomainCache::new(domains, now, self.config.cache_ttl_seconds);
        let names = text::copy_texts(&kept.domains);
        self.domain_cache = Some(kept);
        names
    }
}

/// Domains that are kept are used just as long as the settings say: until then they are
/// known, and from then on they are listed anew.
pub proof fn domains_are_kept_for_ttl(kept: DomainCache, listed: u64, ttl: u64, now: u64)
    requires
        kept.expires_at == listed + ttl * 1_000_000_000,
        listed <= now,
    ensures
        now - listed < ttl * 1_000_000_000 ==> known_domains(None, Some(kept), now) == Some(
            kept.domains.deep_view(),
        ),
        now - listed >= ttl * 1_000_000_000 ==> known_domains(None, Some(kept), now) is None,
{
}

/// The domains of the filter are always known, and without a filter none are before some
/// were listed.
pub proof fn filter_is_known(zones: Seq<Seq<char>>, cached: Option<DomainCache>, now: u64)
    ensures
        known_domains(Some(zones), cached, now) == Some(zones),
        known_domains(None, None, now) is None,
{
}

} // verus!

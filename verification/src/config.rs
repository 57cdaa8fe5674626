//! Configuration of the webhook.
use crate::number;
use crate::number::NumberError;
use crate::text;
use vstd::prelude::*;

verus! {

/// The settings of the webhook.
#[derive(Debug, Clone)]
pub struct Config {
    pub porkbun_api_key: String,
    pub porkbun_secret_api_key: String,
    pub porkbun_api_base: String,
    pub webhook_host: String,
    pub webhook_port: u16,
    /// The zones that may be managed; all zones of the account where there is none.
    pub domain_filter: Option<Vec<String>>,
    /// Changes are only announced, not made.
    pub dry_run: bool,
    pub cache_ttl_seconds: u64,
    pub http_timeout_seconds: u64,
    pub trace_request_bodies: bool,
}

/// The environment variables that the configuration is read from, where they are set.
#[derive(Debug)]
pub struct Environment {
    pub porkbun_api_key: Option<String>,
    pub porkbun_secret_api_key: Option<String>,
    pub porkbun_api_base: Option<String>,
    pub webhook_host: Option<String>,
    pub webhook_port: Option<String>,
    pub domain_filter: Option<String>,
    pub dry_run: Option<String>,
    pub cache_ttl_seconds: Option<String>,
    pub http_timeout_seconds: Option<String>,
    pub trace_request_bodies: Option<String>,
}

/// Why an environment holds no configuration.
#[derive(Debug, Clone, Copy, PartialEq, Eq, Structural)]
pub enum ConfigError {
    MissingApiKey,
    MissingSecretApiKey,
    InvalidWebhookPort(NumberError),
    InvalidDryRun,
    InvalidCacheTtl(NumberError),
    InvalidHttpTimeout(NumberError),
    InvalidTraceRequestBodies,
}

/// What a text that is not a number is said to be.
pub open spec fn number_words(e: NumberError) -> Seq<char> {
    match e {
        NumberError::Empty => "cannot parse integer from empty string"@,
        NumberError::InvalidDigit => "invalid digit found in string"@,
        NumberError::TooLarge => "number too large to fit in target type"@,
    }
}

impl ConfigError {
    /// The failure in words.
    pub open spec fn words(self) -> Seq<char> {
        match self {
            ConfigError::MissingApiKey => "PORKBUN_API_KEY environment variable is required"@,
            ConfigError::MissingSecretApiKey =>
                "PORKBUN_SECRET_API_KEY environment variable is required"@,
            ConfigError::InvalidWebhookPort(e) => number_words(e),
            ConfigError::InvalidCacheTtl(e) => number_words(e),
            ConfigError::InvalidHttpTimeout(e) => number_words(e),
            ConfigError::InvalidDryRun => "provided string was not `true` or `false`"@,
            ConfigError::InvalidTraceRequestBodies => "provided string was not `true` or `false`"@,
        }
    }

    /// The failure in words.
    pub fn message(&self) -> (r: String)
        ensures
            r@ == self.words(),
    {
        match self {
            ConfigError::MissingApiKey =>
                "PORKBUN_API_KEY environment variable is required".to_owned(),
            ConfigError::MissingSecretApiKey =>
                "PORKBUN_SECRET_API_KEY environment variable is required".to_owned(),
            ConfigError::InvalidWebhookPort(e) => number_message(*e),
            ConfigError::InvalidCacheTtl(e) => number_message(*e),
            ConfigError::InvalidHttpTimeout(e) => number_message(*e),
            ConfigError::InvalidDryRun => "provided string was not `true` or `false`".to_owned(),
            ConfigError::InvalidTraceRequestBodies =>
                "provided string was not `true` or `false`".to_owned(),
        }
    }
}

fn number_message(e: NumberError) -> (r: String)
    ensures
        r@ == number_words(e),
{
    match e {
        NumberError::Empty => "cannot parse integer from empty string".to_owned(),
        NumberError::InvalidDigit => "invalid digit found in string".to_owned(),
        NumberError::TooLarge => "number too large to fit in target type".to_owned(),
    }
}

/// The text of a variable, or `default` where the variable is not set.
pub open spec fn var_or(var: Option<String>, default: Seq<char>) -> Seq<char> {
    match var {
        Some(s) => s@,
        None => default,
    }
}

/// The number that a variable writes, or `default` where the variable is not set.
pub open spec fn number_var(var: Option<String>, default: nat, max: nat) -> Result<
    nat,
    NumberError,
> {
    match var {
        Some(s) => number::number_of(s@, max),
        None => Ok(default),
    }
}

/// The flag that a variable writes; off where the variable is not set.
pub open spec fn flag_var(var: Option<String>) -> Option<bool> {
    match var {
        Some(s) => number::flag_of(s@),
        None => Some(false),
    }
}

/// The domain names among `pieces`, in canonical form, blank ones left out.
pub open spec fn domains_in(pieces: Seq<Seq<char>>) -> Seq<Seq<char>>
    decreases pieces.len(),
{
    if pieces.len() == 0 {
        Seq::empty()
    } else {
        let d = text::normalized(text::trimmed(pieces.last()));
        if d.len() == 0 {
            domains_in(pieces.drop_last())
        } else {
            domains_in(pieces.drop_last()).push(d)
        }
    }
}

/// The filter that a comma-separated list writes; none where it names no domain.
pub open spec fn filter_var(var: Option<String>) -> Option<Seq<Seq<char>>> {
    match var {
        Some(s) => {
            let domains = domains_in(text::pieces(s@, ','));
            if domains.len() == 0 {
                None
            } else {
                Some(domains)
            }
        },
        None => None,
    }
}

/// `name` is one of `zones` or a name below one of them.
pub open spec fn in_some_zone(name: Seq<char>, zones: Seq<Seq<char>>) -> bool {
    exists|i: int| 0 <= i < zones.len() && text::under(name, #[trigger] zones[i])
}

impl Environment {
    /// The first reason, if any, why the environment holds no configuration.
    pub open spec fn fault(self) -> Option<ConfigError> {
        if self.porkbun_api_key is None {
            Some(ConfigError::MissingApiKey)
        } else if self.porkbun_secret_api_key is None {
            Some(ConfigError::MissingSecretApiKey)
        } else if number_var(self.webhook_port, 8888, u16::MAX as nat) is Err {
            Some(
                ConfigError::InvalidWebhookPort(
                    number_var(self.webhook_port, 8888, u16::MAX as nat)->Err_0,
                ),
            )
        } else if flag_var(self.dry_run) is None {
            Some(ConfigError::InvalidDryRun)
        } else if number_var(self.cache_ttl_seconds, 60, u64::MAX as nat) is Err {
            Some(
                ConfigError::InvalidCacheTtl(
                    number_var(self.cache_ttl_seconds, 60, u64::MAX as nat)->Err_0,
                ),
            )
        } else if number_var(self.http_timeout_seconds, 30, u64::MAX as nat) is Err {
            Some(
                ConfigError::InvalidHttpTimeout(
                    number_var(self.http_timeout_seconds, 30, u64::MAX as nat)->Err_0,
                ),
            )
        } else if flag_var(self.trace_request_bodies) is None {
            Some(ConfigError::InvalidTraceRequestBodies)
        } else {
            None
        }
    }

    /// `c` is the configuration that the environment writes.
    pub open spec fn holds(self, c: Config) -> bool {
        &&& self.porkbun_api_key == Some(c.porkbun_api_key)
        &&& self.porkbun_secret_api_key == Some(c.porkbun_secret_api_key)
        &&& c.porkbun_api_base@ == var_or(
            self.porkbun_api_base,
            "https://api.porkbun.com/api/json/v3"@,
        )
        &&& c.webhook_host@ == var_or(self.webhook_host, "127.0.0.1"@)
        &&& number_var(self.webhook_port, 8888, u16::MAX as nat) == Ok::<nat, NumberError>(
            c.webhook_port as nat,
        )
        &&& c.domain_filter.deep_view() == filter_var(self.domain_filter)
        &&& flag_var(self.dry_run) == Some(c.dry_run)
        &&& number_var(self.cache_ttl_seconds, 60, u64::MAX as nat) == Ok::<nat, NumberError>(
            c.cache_ttl_seconds as nat,
        )
        &&& number_var(self.http_timeout_seconds, 30, u64::MAX as nat) == Ok::<nat, NumberError>(
            c.http_timeout_seconds as nat,
        )
        &&& flag_var(self.trace_request_bodies) == Some(c.trace_request_bodies)
    }
}

fn number_or(var: &Option<String>, default: u64, max: u64) -> (r: Result<u64, NumberError>)
    requires
        default <= max,
    ensures
        match (r, number_var(*var, default as nat, max as nat)) {
            (Ok(v), Ok(w)) => v == w && v <= max,
            (Err(e), Err(f)) => e == f,
            _ => false,
        },
{
    match var {
        Some(s) => number::parse_number(s, max),
        None => Ok(default),
    }
}

fn flag_or_off(var: &Option<String>) -> (r: Option<bool>)
    ensures
        r == flag_var(*var),
{
    match var {
        Some(s) => number::parse_flag(s),
        None => Some(false),
    }
}

fn text_or(var: Option<String>, default: &str) -> (r: String)
    ensures
        r@ == var_or(var, default@),
{
    match var {
        Some(s) => s,
        None => default.to_owned(),
    }
}

/// Reads a comma-separated list of domains.
fn parse_filter(var: &Option<String>) -> (r: Option<Vec<String>>)
    ensures
        r.deep_view() == filter_var(*var),
{
    let s = match var {
        Some(s) => s,
        None => {
            return None;
        },
    };
    let pieces = text::split(s, ',');
    let ghost all = pieces.deep_view();
    let mut domains: Vec<String> = Vec::new();
    assert(domains.deep_view() =~= domains_in(all.take(0)));
    for i in 0..pieces.len()
        invariant
            all == pieces.deep_view(),
            domains.deep_view() == domains_in(all.take(i as int)),
    {
        let d = text::normalize(text::trim(&pieces[i]));
        let ghost before = domains.deep_view();
        let ghost dv = d@;
        assert(all.take(i + 1).drop_last() == all.take(i as int));
        assert(all.take(i + 1).last() == pieces[i as int]@);
        if !d.as_str().is_empty() {
            domains.push(d);
            assert(domains.deep_view() =~= before.push(dv));
        }
    }
    assert(all.take(all.len() as int) == all);
    if domains.is_empty() {
        None
    } else {
        Some(domains)
    }
}

impl Config {
    /// The configuration that the environment writes: the two keys are required, the
    /// other settings have defaults.
    pub fn from_env(env: Environment) -> (r: Result<Config, ConfigError>)
        ensures
            match r {
                Ok(c) => env.fault() is None && env.holds(c),
                Err(e) => env.fault() == Some(e),
            },
    {
        let porkbun_api_key = match env.porkbun_api_key {
            Some(k) => k,
            None => {
                return Err(ConfigError::MissingApiKey);
            },
        };
        let porkbun_secret_api_key = match env.porkbun_secret_api_key {
            Some(k) => k,
            None => {
                return Err(ConfigError::MissingSecretApiKey);
            },
        };
        let porkbun_api_base = text_or(env.porkbun_api_base, "https://api.porkbun.com/api/json/v3");
        let webhook_host = text_or(env.webhook_host, "127.0.0.1");
        let webhook_port: u16 = match number_or(&env.webhook_port, 8888, u16::MAX as u64) {
            Ok(v) => v as u16,
            Err(e) => {
                return Err(ConfigError::InvalidWebhookPort(e));
            },
        };
        let domain_filter = parse_filter(&env.domain_filter);
        let dry_run = match flag_or_off(&env.dry_run) {
            Some(b) => b,
            None => {
                return Err(ConfigError::InvalidDryRun);
            },
        };
        let cache_ttl_seconds: u64 = match number_or(&env.cache_ttl_seconds, 60, u64::MAX) {
            Ok(v) => v,
            Err(e) => {
                return Err(ConfigError::InvalidCacheTtl(e));
            },
        };
        let http_timeout_seconds: u64 = match number_or(&env.http_timeout_seconds, 30, u64::MAX) {
            Ok(v) => v,
            Err(e) => {
                return Err(ConfigError::InvalidHttpTimeout(e));
            },
        };
        let trace_request_bodies = match flag_or_off(&env.trace_request_bodies) {
            Some(b) => b,
            None => {
                return Err(ConfigError::InvalidTraceRequestBodies);
            },
        };
        Ok(
            Config {
                porkbun_api_key,
                porkbun_secret_api_key,
                porkbun_api_base,
                webhook_host,
                webhook_port,
                domain_filter,
                dry_run,
                cache_ttl_seconds,
                http_timeout_seconds,
                trace_request_bodies,
            },
        )
    }

    /// `domain` lies in a zone of the filter, or there is no filter.
    pub open spec fn allows(self, domain: Seq<char>) -> bool {
        match self.domain_filter.deep_view() {
            Some(filter) => in_some_zone(text::normalized(domain), filter),
            None => true,
        }
    }

    /// Whether `domain` lies in a zone of the filter, or there is no filter.
    pub fn is_domain_allowed(&self, domain: &str) -> (r: bool)
        ensures
            r == self.allows(domain@),
    {
        match &self.domain_filter {
            Some(filter) => {
                let name = text::normalize(domain);
                let ghost zones = filter.deep_view();
                for i in 0..filter.len()
                    invariant
                        zones == filter.deep_view(),
                        self.domain_filter.deep_view() == Some(zones),
                        name@ == text::normalized(domain@),
                        forall|j: int| 0 <= j < i ==> !text::under(name@, #[trigger] zones[j]),
                {
                    if text::is_under(&name, &filter[i]) {
                        assert(text::under(name@, zones[i as int]));
                        return true;
                    }
                }
                false
            },
            None => true,
        }
    }

    /// The zones of the filter; none where there is no filter.
    pub fn normalized_domain_filter(&self) -> (r: Vec<String>)
        ensures
            r.deep_view() == match self.domain_filter.deep_view() {
                Some(filter) => filter,
                None => Seq::empty(),
            },
    {
        match &self.domain_filter {
            Some(filter) => text::copy_texts(filter),
            None => {
                let r: Vec<String> = Vec::new();
                assert(r.deep_view() =~= Seq::empty());
                r
            },
        }
    }

    /// The canonical form of a domain name: trimmed, without one trailing dot, in small
    /// letters.
    pub fn normalize_domain(s: &str) -> (r: String)
        ensures
            r@ == text::normalized(s@),
    {
        text::normalize(s)
    }
}

/// The filter that lists canonical domain names, with commas between them, holds them in
/// their order.
pub proof fn filter_holds_what_it_lists(domains: Seq<Seq<char>>, var: String)
    requires
        domains.len() > 0,
        forall|i: int|
            0 <= i < domains.len() ==> (#[trigger] domains[i]).len() > 0 && text::normalized(
                domains[i],
            ) == domains[i] && !domains[i].contains(','),
        var@ == text::joined(domains, ','),
    ensures
        filter_var(Some(var)) == Some(domains),
{
    text::joined_texts_are_pieces(domains, ',');
    canonical_names_stay(domains);
}

proof fn canonical_names_stay(domains: Seq<Seq<char>>)
    requires
        forall|i: int|
            0 <= i < domains.len() ==> (#[trigger] domains[i]).len() > 0 && text::normalized(
                domains[i],
            ) == domains[i] && !domains[i].contains(','),
    ensures
        domains_in(domains) == domains,
    decreases domains.len(),
{
    if domains.len() > 0 {
        let front = domains.drop_last();
        assert forall|i: int| 0 <= i < front.len() implies (#[trigger] front[i]).len() > 0
            && text::normalized(front[i]) == front[i] && !front[i].contains(',') by {
            assert(front[i] == domains[i]);
        }
        canonical_names_stay(front);
        let last = domains[domains.len() - 1];
        text::canonical_ends_well(last);
        text::trimmed_is_bare(last);
        assert(text::trimmed(last) == last) by {
            assert(text::normalized(last).len() <= text::trimmed(last).len());
        }
        assert(front.push(last) =~= domains);
    }
}

/// The filter holds the canonical forms of the pieces between commas that are not blank, and
/// nothing else; where all are blank there is no filter.
pub proof fn filter_holds_names_between_commas(var: String, d: Seq<char>)
    ensures
        filter_var(None) is None,
        filter_var(Some(var)) matches Some(domains) ==> (domains.contains(d) <==> d.len() > 0
            && exists|i: int|
            0 <= i < text::pieces(var@, ',').len() && text::normalized(
                text::trimmed(#[trigger] text::pieces(var@, ',')[i]),
            ) == d),
        filter_var(Some(var)) is None <==> forall|i: int|
            0 <= i < text::pieces(var@, ',').len() ==> text::normalized(
                text::trimmed(#[trigger] text::pieces(var@, ',')[i]),
            ).len() == 0,
{
    let all = text::pieces(var@, ',');
    names_stem_from_pieces(all, d);
    let domains = domains_in(all);
    if domains.len() > 0 {
        names_stem_from_pieces(all, domains[0]);
        assert(domains.contains(domains[0]));
    }
    if exists|i: int|
        0 <= i < all.len() && text::normalized(text::trimmed(#[trigger] all[i])).len() > 0 {
        let i = choose|i: int|
            0 <= i < all.len() && text::normalized(text::trimmed(#[trigger] all[i])).len() > 0;
        names_stem_from_pieces(all, text::normalized(text::trimmed(all[i])));
    }
}

proof fn names_stem_from_pieces(pieces: Seq<Seq<char>>, d: Seq<char>)
    ensures
        domains_in(pieces).contains(d) <==> d.len() > 0 && exists|i: int|
            0 <= i < pieces.len() && text::normalized(text::trimmed(#[trigger] pieces[i])) == d,
    decreases pieces.len(),
{
    if pieces.len() > 0 {
        let front = pieces.drop_last();
        let last = text::normalized(text::trimmed(pieces[pieces.len() - 1]));
        names_stem_from_pieces(front, d);
        assert(forall|i: int| 0 <= i < front.len() ==> #[trigger] front[i] == pieces[i]);
        let had = domains_in(front);
        let has = domains_in(pieces);
        if has.contains(d) {
            let i = choose|i: int| 0 <= i < has.len() && has[i] == d;
            if i < had.len() {
                assert(had[i] == d);
                let j = choose|j: int|
                    0 <= j < front.len() && text::normalized(text::trimmed(#[trigger] front[j]))
                        == d;
                assert(text::normalized(text::trimmed(pieces[j])) == d);
            } else {
                assert(text::normalized(text::trimmed(pieces[pieces.len() - 1])) == d);
            }
        }
        if d.len() > 0 && exists|i: int|
            0 <= i < pieces.len() && text::normalized(text::trimmed(#[trigger] pieces[i])) == d {
            let i = choose|i: int|
                0 <= i < pieces.len() && text::normalized(text::trimmed(#[trigger] pieces[i])) == d;
            if i < front.len() {
                assert(text::normalized(text::trimmed(front[i])) == d);
                assert(had.contains(d));
                let j = choose|j: int| 0 <= j < had.len() && had[j] == d;
                assert(has[j] == d);
            } else {
                assert(has[has.len() - 1] == d);
            }
        }
    }
}

/// A variable that is set gives the setting, and one that is not leaves the default.
pub proof fn settings_are_as_set(env: Environment, c: Config)
    requires
        env.holds(c),
    ensures
        env.porkbun_api_key == Some(c.porkbun_api_key),
        env.porkbun_secret_api_key == Some(c.porkbun_secret_api_key),
        env.porkbun_api_base is None ==> c.porkbun_api_base@
            == "https://api.porkbun.com/api/json/v3"@,
        env.porkbun_api_base matches Some(s) ==> c.porkbun_api_base@ == s@,
        env.webhook_host is None ==> c.webhook_host@ == "127.0.0.1"@,
        env.webhook_host matches Some(s) ==> c.webhook_host@ == s@,
        env.webhook_port is None ==> c.webhook_port == 8888,
        env.webhook_port matches Some(s) ==> number::writes(s@, c.webhook_port as nat),
        env.cache_ttl_seconds is None ==> c.cache_ttl_seconds == 60,
        env.cache_ttl_seconds matches Some(s) ==> number::writes(s@, c.cache_ttl_seconds as nat),
        env.http_timeout_seconds is None ==> c.http_timeout_seconds == 30,
        env.http_timeout_seconds matches Some(s) ==> number::writes(
            s@,
            c.http_timeout_seconds as nat,
        ),
        env.dry_run is None ==> !c.dry_run,
        env.dry_run matches Some(s) ==> s@ == if c.dry_run {
            "true"@
        } else {
            "false"@
        },
        env.trace_request_bodies is None ==> !c.trace_request_bodies,
        env.trace_request_bodies matches Some(s) ==> s@ == if c.trace_request_bodies {
            "true"@
        } else {
            "false"@
        },
        env.domain_filter is None ==> c.domain_filter is None,
        c.domain_filter.deep_view() == filter_var(env.domain_filter),
{
    if env.webhook_port is Some {
        number::numbers_are_read_as_written(
            env.webhook_port->0@,
            u16::MAX as nat,
            c.webhook_port as nat,
        );
    }
    if env.cache_ttl_seconds is Some {
        number::numbers_are_read_as_written(
            env.cache_ttl_seconds->0@,
            u64::MAX as nat,
            c.cache_ttl_seconds as nat,
        );
    }
    if env.http_timeout_seconds is Some {
        number::numbers_are_read_as_written(
            env.http_timeout_seconds->0@,
            u64::MAX as nat,
            c.http_timeout_seconds as nat,
        );
    }
    if env.dry_run is Some {
        number::flags_are_words(env.dry_run->0@);
    }
    if env.trace_request_bodies is Some {
        number::flags_are_words(env.trace_request_bodies->0@);
    }
}

/// The variable is not set, or writes a number up to the largest that is allowed.
pub open spec fn readable_number(var: Option<String>, max: nat) -> bool {
    var matches Some(s) ==> exists|n: nat| #[trigger] number::writes(s@, n) && n <= max
}

/// The variable is not set, or is one of the words `true` and `false`.
pub open spec fn readable_flag(var: Option<String>) -> bool {
    var matches Some(s) ==> s@ == "true"@ || s@ == "false"@
}

proof fn number_is_readable(var: Option<String>, default: nat, max: nat)
    ensures
        number_var(var, default, max) is Ok <==> readable_number(var, max),
{
    match var {
        Some(s) => {
            match number::number_of(s@, max) {
                Ok(n) => number::numbers_are_read_as_written(s@, max, n),
                Err(_) => {
                    assert forall|n: nat| #[trigger] number::writes(s@, n) implies n > max by {
                        number::numbers_are_read_as_written(s@, max, n);
                    }
                },
            }
        },
        None => {},
    }
}

/// An environment is refused exactly where a key is missing, a number is not one or too
/// large, or a flag is neither of the two words; the refusal tells the first of these.
pub proof fn environment_is_refused_by_its_variables(env: Environment)
    ensures
        env.fault() is None <==> env.porkbun_api_key is Some && env.porkbun_secret_api_key is Some
            && readable_number(env.webhook_port, 65535) && readable_flag(env.dry_run)
            && readable_number(env.cache_ttl_seconds, u64::MAX as nat) && readable_number(
            env.http_timeout_seconds,
            u64::MAX as nat,
        ) && readable_flag(env.trace_request_bodies),
        env.porkbun_api_key is None ==> env.fault() == Some(ConfigError::MissingApiKey),
        env.porkbun_api_key is Some && env.porkbun_secret_api_key is None ==> env.fault() == Some(
            ConfigError::MissingSecretApiKey,
        ),
        env.fault() matches Some(ConfigError::InvalidWebhookPort(_)) ==> !readable_number(
            env.webhook_port,
            65535,
        ),
        env.fault() matches Some(ConfigError::InvalidDryRun) ==> !readable_flag(env.dry_run),
        env.fault() matches Some(ConfigError::InvalidCacheTtl(_)) ==> !readable_number(
            env.cache_ttl_seconds,
            u64::MAX as nat,
        ),
        env.fault() matches Some(ConfigError::InvalidHttpTimeout(_)) ==> !readable_number(
            env.http_timeout_seconds,
            u64::MAX as nat,
        ),
        env.fault() matches Some(ConfigError::InvalidTraceRequestBodies) ==> !readable_flag(
            env.trace_request_bodies,
        ),
{
    number_is_readable(env.webhook_port, 8888, u16::MAX as nat);
    number_is_readable(env.cache_ttl_seconds, 60, u64::MAX as nat);
    number_is_readable(env.http_timeout_seconds, 30, u64::MAX as nat);
    if env.dry_run is Some {
        number::flags_are_words(env.dry_run->0@);
    }
    if env.trace_request_bodies is Some {
        number::flags_are_words(env.trace_request_bodies->0@);
    }
}


/// The words in which each reason is told.
pub proof fn reasons_are_told_in_words(e: NumberError)
    ensures
        ConfigError::MissingApiKey.words() == "PORKBUN_API_KEY environment variable is required"@,
        ConfigError::MissingSecretApiKey.words()
            == "PORKBUN_SECRET_API_KEY environment variable is required"@,
        ConfigError::InvalidDryRun.words() == "provided string was not `true` or `false`"@,
        ConfigError::InvalidTraceRequestBodies.words()
            == "provided string was not `true` or `false`"@,
        ({
            let words = match e {
                NumberError::Empty => "cannot parse integer from empty string"@,
                NumberError::InvalidDigit => "invalid digit found in string"@,
                NumberError::TooLarge => "number too large to fit in target type"@,
            };
            &&& ConfigError::InvalidWebhookPort(e).words() == words
            &&& ConfigError::InvalidCacheTtl(e).words() == words
            &&& ConfigError::InvalidHttpTimeout(e).words() == words
        }),
{
}

} // verus!

//! What is sent to the Porkbun API, and what its replies mean.
use crate::error;
use crate::error::{Error, ErrorView};
use crate::number;
use crate::porkbun::types;
use crate::porkbun::types::{
    AuthBody, BasicResponse, CreateDnsParams, CreateDnsRequest, CreateDnsResponse, DnsRecord,
    DnsRetrieveResponse, Domain, EditDnsParams, EditDnsRequest, ListAllRequest, ListAllResponse,
    PingResponse, RecordView,
};
use crate::text;
use vstd::prelude::*;
use vstd::string::{StrSliceExecFns, StringExecFns};

verus! {

/// The text that `str::to_lowercase` makes of a text.
pub uninterp spec fn lowercase(s: Seq<char>) -> Seq<char>;

/// All characters are ASCII.
pub open spec fn all_ascii(s: Seq<char>) -> bool {
    forall|i: int| 0 <= i < s.len() ==> #[trigger] s[i] as int <= 0x7f
}

/// `str::to_lowercase`: the text with its letters turned into small ones, by the rules of
/// Unicode. What it makes of a text has the name `lowercase`. Of a text that is ASCII it is
/// stated that the capitals `A` to `Z` become small and that nothing else changes.
#[verifier::external_body]
fn to_lowercase(s: &str) -> (r: String)
    ensures
        r@ == lowercase(s@),
        all_ascii(s@) ==> r@ == text::lower(s@),
{
    s.to_lowercase()
}

/// Of an ASCII text it is known what it is in small letters.
pub open spec fn ascii_lowered(s: Seq<char>) -> bool {
    all_ascii(s) ==> lowercase(s) == text::lower(s)
}

/// The string that the member `key` of the JSON object in `json` holds, where there is one.
pub uninterp spec fn json_member(json: Seq<char>, key: Seq<char>) -> Option<Seq<char>>;

/// All characters are small letters.
pub open spec fn small_letters(s: Seq<char>) -> bool {
    forall|i: int| 0 <= i < s.len() ==> 'a' <= #[trigger] s[i] <= 'z'
}

/// A JSON object with one member that holds a string.
pub open spec fn json_object(key: Seq<char>, value: Seq<char>) -> Seq<char> {
    "{\""@ + key + "\":\""@ + value + "\"}"@
}

/// `serde_json::from_str` for a `Value`, and the string that the member `key` of it holds:
/// none where the text is malformed, is no object, has no such member, or where the member
/// is no string. What they make of a text has the name `json_member`. Two facts are stated
/// of it: a text that is empty or begins with neither a brace nor white space holds no
/// member, and an object of one member with plain characters between quotes holds them.
#[verifier::external_body]
fn read_json_member(json: &str, key: &str) -> (r: Option<String>)
    ensures
        r.deep_view() == json_member(json@, key@),
        !types::may_hold_object(json@) ==> r is None,
        small_letters(key@) ==> forall|value: Seq<char>|
            types::json_plain(value) && json@ == #[trigger] json_object(key@, value)
                ==> r.deep_view() == Some(value),
{
    match serde_json::from_str::<serde_json::Value>(json) {
        Ok(value) => match value.get(key) {
            Some(serde_json::Value::String(held)) => Some(held.clone()),
            _ => None,
        },
        Err(_) => None,
    }
}

/// The words in which `http::StatusCode` shows a status.
pub uninterp spec fn status_words(status: u16) -> Seq<char>;

/// The `Display` of `http::StatusCode`: the number of the status, a space and its reason,
/// such as `404 Not Found`. The words for a number have the name `status_words`; that they
/// begin with the number and a space is stated of them. Numbers outside 100 to 999 are no
/// status.
#[verifier::external_body]
fn show_status(status: u16) -> (r: String)
    requires
        100 <= status <= 999,
    ensures
        r@ == status_words(status),
        (number::decimal(status as nat) + " "@).is_prefix_of(r@),
{
    match reqwest::StatusCode::from_u16(status) {
        Ok(known) => known.to_string(),
        Err(_) => String::new(),
    }
}

/// A message, given in small letters, is about credentials.
pub open spec fn about_credentials(lowered: Seq<char>) -> bool {
    ||| text::has_part(lowered, "invalid api key"@)
    ||| text::has_part(lowered, "invalid secret"@)
    ||| text::has_part(lowered, "authentication"@)
    ||| text::has_part(lowered, "apikey"@)
}

/// A message, given in small letters, says that something is missing.
pub open spec fn about_missing(lowered: Seq<char>) -> bool {
    ||| text::has_part(lowered, "not found"@)
    ||| text::has_part(lowered, "does not exist"@)
}

/// A message, given in small letters, is about access to a domain.
pub open spec fn about_domain(lowered: Seq<char>) -> bool {
    ||| text::has_part(lowered, "domain"@)
    ||| text::has_part(lowered, "api access"@)
    ||| text::has_part(lowered, "not enabled"@)
}

/// Whether a message, given in small letters, is about credentials.
pub fn tells_of_credentials(lowered: &str) -> (r: bool)
    ensures
        r == about_credentials(lowered@),
{
    text::contains(lowered, "invalid api key") || text::contains(lowered, "invalid secret")
        || text::contains(lowered, "authentication") || text::contains(lowered, "apikey")
}

/// Whether a message, given in small letters, says that something is missing.
pub fn tells_of_missing(lowered: &str) -> (r: bool)
    ensures
        r == about_missing(lowered@),
{
    text::contains(lowered, "not found") || text::contains(lowered, "does not exist")
}

/// Whether a message, given in small letters, is about access to a domain.
pub fn tells_of_domain(lowered: &str) -> (r: bool)
    ensures
        r == about_domain(lowered@),
{
    text::contains(lowered, "domain") || text::contains(lowered, "api access") || text::contains(
        lowered,
        "not enabled",
    )
}

/// The failure that a message stands for: `lowered` is the message in small letters, and
/// `words` say it in full.
pub open spec fn failure_for(lowered: Seq<char>, words: Seq<char>) -> ErrorView {
    if about_credentials(lowered) {
        ErrorView::Authentication(words)
    } else if about_missing(lowered) {
        ErrorView::RecordNotFound(words)
    } else {
        ErrorView::PorkbunApi(words)
    }
}

/// The failure that a message stands for.
pub fn make_failure(lowered: &str, words: String) -> (r: Error)
    ensures
        r@ == failure_for(lowered@, words@),
{
    if tells_of_credentials(lowered) {
        Error::Authentication(words)
    } else if tells_of_missing(lowered) {
        Error::RecordNotFound(words)
    } else {
        Error::PorkbunApi(words)
    }
}

/// What a reply with a status other than success says: its text, and, where that is a JSON
/// object with a message, the message and the message in small letters.
#[derive(Debug)]
pub struct FailedReply {
    pub text: String,
    pub message: Option<(String, String)>,
}

/// The failure that a reply with this status stands for, none for success. `shown` is the
/// status in words, and `message` the message of the reply with the message in small
/// letters, where it has one.
pub open spec fn http_failure(
    status: u16,
    shown: Seq<char>,
    reply: Seq<char>,
    message: Option<(Seq<char>, Seq<char>)>,
) -> Option<ErrorView> {
    let head = "HTTP "@ + shown + ": "@;
    if status == 429 {
        Some(ErrorView::RateLimited)
    } else if status == 401 {
        Some(ErrorView::Authentication(head + reply))
    } else if status == 403 {
        match message {
            Some(m) => if about_domain(m.1) {
                Some(ErrorView::DomainNotAllowed(head + m.0))
            } else {
                Some(ErrorView::Authentication(head + reply))
            },
            None => Some(ErrorView::Authentication(head + reply)),
        }
    } else if 200 <= status < 300 {
        None
    } else if 500 <= status < 600 {
        match message {
            Some(m) => Some(ErrorView::PorkbunUpstream(head + m.0)),
            None => Some(ErrorView::PorkbunUpstream(head + reply)),
        }
    } else {
        match message {
            Some(m) => Some(failure_for(m.1, head + m.0)),
            None => Some(ErrorView::PorkbunApi(head + reply)),
        }
    }
}

/// The failure that a reply with this status stands for, none for success.
pub fn find_http_failure(status: u16, shown: &str, reply: FailedReply) -> (r: Option<Error>)
    ensures
        error::failure_view(r) == http_failure(
            status,
            shown@,
            reply.text@,
            match reply.message {
                Some(m) => Some((m.0@, m.1@)),
                None => None,
            },
        ),
{
    let head = "HTTP ".to_owned().concat(shown).concat(": ");
    let text = reply.text.as_str();
    if status == 429 {
        Some(Error::RateLimited)
    } else if status == 401 {
        Some(Error::Authentication(head.concat(text)))
    } else if status == 403 {
        match reply.message {
            Some((message, lowered)) => if tells_of_domain(&lowered) {
                Some(Error::DomainNotAllowed(head.concat(&message)))
            } else {
                Some(Error::Authentication(head.concat(text)))
            },
            None => Some(Error::Authentication(head.concat(text))),
        }
    } else if 200 <= status && status < 300 {
        None
    } else if 500 <= status && status < 600 {
        match reply.message {
            Some((message, _)) => Some(Error::PorkbunUpstream(head.concat(&message))),
            None => Some(Error::PorkbunUpstream(head.concat(text))),
        }
    } else {
        match reply.message {
            Some((message, lowered)) => Some(make_failure(&lowered, head.concat(&message))),
            None => Some(Error::PorkbunApi(head.concat(text))),
        }
    }
}

/// The message of a reply with the message in small letters, where it has one.
pub open spec fn message_in(reply: Seq<char>) -> Option<(Seq<char>, Seq<char>)> {
    match json_member(reply, "message"@) {
        Some(m) => Some((m, lowercase(m))),
        None => None,
    }
}

/// The failure that a reply with this status and text stands for, none for success.
pub fn check_reply(status: u16, reply: &str) -> (r: Option<Error>)
    requires
        100 <= status <= 999,
    ensures
        error::failure_view(r) == http_failure(
            status,
            status_words(status),
            reply@,
            message_in(reply@),
        ),
        json_member(reply@, "message"@) matches Some(m) ==> ascii_lowered(m),
        !types::may_hold_object(reply@) ==> message_in(reply@) is None,
        forall|m: Seq<char>|
            types::json_plain(m) && reply@ == #[trigger] json_object("message"@, m)
                ==> message_in(reply@) == Some((m, lowercase(m))),
        (number::decimal(status as nat) + " "@).is_prefix_of(status_words(status)),
        r is None <==> 200 <= status < 300,
        status == 429 <==> error::failure_view(r) == Some(ErrorView::RateLimited),
        500 <= status < 600 <==> (r matches Some(e) && e@ is PorkbunUpstream),
{
    proof {
        reveal_strlit("message");
        assert(small_letters("message"@));
    }
    let message = match read_json_member(reply, "message") {
        Some(m) => {
            let lowered = to_lowercase(&m);
            Some((m, lowered))
        },
        None => None,
    };
    find_http_failure(status, &show_status(status), FailedReply { text: reply.to_owned(), message })
}

/// The words in which a failure is told: what was done, and the message.
pub open spec fn told(context: Seq<char>, message: Seq<char>) -> Seq<char> {
    context + ": "@ + message
}

/// What a reply of the API says: its message, or its status where it has none.
pub open spec fn said(status: Seq<char>, message: Option<Seq<char>>) -> Seq<char> {
    match message {
        Some(m) => m,
        None => status,
    }
}

/// The failure that a reply of the API tells, none for success.
pub open spec fn told_failure(
    context: Seq<char>,
    status: Seq<char>,
    message: Option<Seq<char>>,
) -> Option<ErrorView> {
    let words = said(status, message);
    if status == "SUCCESS"@ {
        None
    } else {
        Some(failure_for(lowercase(words), told(context, words)))
    }
}

/// The failure that a reply of the API tells, none for success.
fn find_told_failure(context: &str, status: &str, message: &Option<String>) -> (r: Option<Error>)
    ensures
        error::failure_view(r) == told_failure(context@, status@, message.deep_view()),
        r is Some ==> ascii_lowered(said(status@, message.deep_view())),
{
    if text::same_text(status, "SUCCESS") {
        None
    } else {
        match message {
            Some(m) => Some(Client::classify_api_error(context, m)),
            None => Some(Client::classify_api_error(context, status)),
        }
    }
}

/// `s` without the slashes at its end.
pub open spec fn without_slashes(s: Seq<char>) -> Seq<char>
    decreases s.len(),
{
    if s.len() > 0 && s.last() == '/' {
        without_slashes(s.drop_last())
    } else {
        s
    }
}

/// `s` without the slashes at its end.
fn strip_slashes(s: &str) -> (r: &str)
    ensures
        r@ == without_slashes(s@),
{
    let mut n: usize = s.unicode_len();
    assert(s@.take(n as int) =~= s@);
    while n > 0 && s.get_char(n - 1) == '/'
        invariant
            n <= s@.len(),
            without_slashes(s@.take(n as int)) == without_slashes(s@),
        decreases n,
    {
        assert(s@.take(n as int).drop_last() =~= s@.take(n - 1));
        n = n - 1;
    }
    assert(s@.subrange(0, n as int) =~= s@.take(n as int));
    s.substring_char(0, n)
}

/// A request: the address that it goes to, and what it holds.
#[derive(Debug)]
pub struct Call<B> {
    pub url: String,
    pub body: B,
}

/// The access to the API for one account.
pub struct Client {
    api_key: String,
    secret_api_key: String,
    base_url: String,
}

/// A [`Client`] with its texts as sequences of characters.
pub struct ClientView {
    pub api_key: Seq<char>,
    pub secret_api_key: Seq<char>,
    pub base_url: Seq<char>,
}

impl View for Client {
    type V = ClientView;

    closed spec fn view(&self) -> ClientView {
        ClientView {
            api_key: self.api_key@,
            secret_api_key: self.secret_api_key@,
            base_url: self.base_url@,
        }
    }
}

impl ClientView {
    /// The credentials are those of the account.
    pub open spec fn signs(self, apikey: String, secretapikey: String) -> bool {
        apikey@ == self.api_key && secretapikey@ == self.secret_api_key
    }
}

/// The name of a record in a request: none for the zone itself.
pub open spec fn name_for(subdomain: Seq<char>) -> Option<Seq<char>> {
    if subdomain.len() == 0 {
        None
    } else {
        Some(subdomain)
    }
}

/// The name of a record in a request: none for the zone itself.
fn make_name(subdomain: String) -> (r: Option<String>)
    ensures
        r.deep_view() == name_for(subdomain@),
{
    if subdomain.as_str().is_empty() {
        None
    } else {
        Some(subdomain)
    }
}

/// The records that a reply lists, none where it lists none.
pub open spec fn records_in(reply: DnsRetrieveResponse) -> Seq<RecordView> {
    match reply.records {
        Some(records) => records.deep_view(),
        None => Seq::empty(),
    }
}

/// The domains that a reply lists, none where it lists none.
pub open spec fn domains_in(reply: ListAllResponse) -> Seq<Seq<char>> {
    match reply.domains {
        Some(domains) => domains.deep_view(),
        None => Seq::empty(),
    }
}

/// How many domains a full page lists.
pub const PAGE_SIZE: usize = 1000;

/// The domains that were listed so far, and where the next page begins.
#[derive(Debug)]
pub struct DomainListing {
    pub domains: Vec<Domain>,
    pub start: u32,
}

/// A [`DomainListing`] with its domains as sequences of characters.
pub struct DomainListingView {
    pub domains: Seq<Seq<char>>,
    pub start: u32,
}

impl View for DomainListing {
    type V = DomainListingView;

    open spec fn view(&self) -> DomainListingView {
        DomainListingView { domains: self.domains.deep_view(), start: self.start }
    }
}

/// What the listing of domains has come to.
#[derive(Debug)]
pub enum DomainsStep {
    /// Another page is to be asked for.
    Ask(DomainListing, Call<ListAllRequest>),
    /// All domains are listed, or the listing failed.
    Done(Result<Vec<Domain>, Error>),
}

/// A [`DomainsStep`] without the request, its texts as sequences of characters.
pub enum DomainsStepView {
    Ask(DomainListingView),
    Done(Result<Seq<Seq<char>>, ErrorView>),
}

impl View for DomainsStep {
    type V = DomainsStepView;

    open spec fn view(&self) -> DomainsStepView {
        match *self {
            DomainsStep::Ask(listing, call) => DomainsStepView::Ask(listing@),
            DomainsStep::Done(Ok(domains)) => DomainsStepView::Done(Ok(domains.deep_view())),
            DomainsStep::Done(Err(e)) => DomainsStepView::Done(Err(e@)),
        }
    }
}

/// What a reply to the request for a page of domains says.
pub struct PageView {
    pub status: Seq<char>,
    pub message: Option<Seq<char>>,
    pub domains: Seq<Seq<char>>,
}

/// What the reply says.
pub open spec fn page_of(reply: ListAllResponse) -> PageView {
    PageView {
        status: reply.status@,
        message: reply.message.deep_view(),
        domains: domains_in(reply),
    }
}

/// The listing before the first page.
pub open spec fn nothing_listed() -> DomainListingView {
    DomainListingView { domains: Seq::empty(), start: 0 }
}

/// What a page makes of the listing: a page that is not full is the last.
pub open spec fn with_page(listing: DomainListingView, page: PageView) -> DomainsStepView {
    match told_failure("list_domains"@, page.status, page.message) {
        Some(x) => DomainsStepView::Done(Err(x)),
        None => if page.domains.len() < PAGE_SIZE {
            DomainsStepView::Done(Ok(listing.domains + page.domains))
        } else {
            DomainsStepView::Ask(
                DomainListingView {
                    domains: listing.domains + page.domains,
                    start: (listing.start + page.domains.len()) as u32,
                },
            )
        },
    }
}

/// What the listing has come to after all these pages.
pub open spec fn after_pages(pages: Seq<PageView>) -> DomainsStepView
    decreases pages.len(),
{
    if pages.len() == 0 {
        DomainsStepView::Ask(nothing_listed())
    } else {
        match after_pages(pages.drop_last()) {
            DomainsStepView::Ask(listing) => with_page(listing, pages.last()),
            DomainsStepView::Done(r) => DomainsStepView::Done(r),
        }
    }
}

/// The domains of all pages, in their order.
pub open spec fn domains_of(pages: Seq<PageView>) -> Seq<Seq<char>>
    decreases pages.len(),
{
    if pages.len() == 0 {
        Seq::empty()
    } else {
        domains_of(pages.drop_last()) + pages.last().domains
    }
}

/// Every page is there and full.
pub open spec fn all_full(pages: Seq<PageView>) -> bool {
    forall|k: int|
        0 <= k < pages.len() ==> (#[trigger] pages[k]).status == "SUCCESS"@
            && pages[k].domains.len() >= PAGE_SIZE
}

/// After any number of full pages the listing holds their domains in their order, and the
/// next page begins after as many domains as were listed.
pub proof fn full_pages_are_gathered(pages: Seq<PageView>)
    requires
        all_full(pages),
        domains_of(pages).len() <= u32::MAX,
    ensures
        after_pages(pages) == DomainsStepView::Ask(
            DomainListingView {
                domains: domains_of(pages),
                start: domains_of(pages).len() as u32,
            },
        ),
    decreases pages.len(),
{
    if pages.len() > 0 {
        let front = pages.drop_last();
        assert(forall|k: int| 0 <= k < front.len() ==> #[trigger] front[k] == pages[k]);
        full_pages_are_gathered(front);
        assert(pages[pages.len() - 1] == pages.last());
    }
}

/// The listing ends with the first page that is not full, or that tells a failure: the
/// result is the domains of all pages in their order, or the failure.
pub proof fn all_pages_are_listed(pages: Seq<PageView>)
    requires
        pages.len() > 0,
        all_full(pages.drop_last()),
        domains_of(pages.drop_last()).len() <= u32::MAX,
        pages.last().status == "SUCCESS"@ ==> pages.last().domains.len() < PAGE_SIZE,
    ensures
        after_pages(pages) == DomainsStepView::Done(
            match told_failure("list_domains"@, pages.last().status, pages.last().message) {
                Some(x) => Err(x),
                None => Ok(domains_of(pages)),
            },
        ),
{
    full_pages_are_gathered(pages.drop_last());
}

/// The request is for the page of domains that begins at `start`; the first page goes
/// without saying.
pub open spec fn asks_for_page(client: ClientView, start: u32, call: Call<ListAllRequest>) -> bool {
    &&& call.url@ == client.base_url + "/domain/listAll"@
    &&& client.signs(call.body.apikey, call.body.secretapikey)
    &&& call.body.start == if start == 0 {
        None
    } else {
        Some(start)
    }
}

/// What was done, with what it was done to: `context(of)`.
pub open spec fn doing(context: Seq<char>, of: Seq<char>) -> Seq<char> {
    context + "("@ + of + ")"@
}

/// A record of a domain: `domain/id`.
pub open spec fn record_at(domain: Seq<char>, id: Seq<char>) -> Seq<char> {
    domain + "/"@ + id
}

fn say_doing(context: &str, of: &str) -> (r: String)
    ensures
        r@ == doing(context@, of@),
{
    context.to_owned().concat("(").concat(of).concat(")")
}

fn say_record(domain: &str, id: &str) -> (r: String)
    ensures
        r@ == record_at(domain@, id@),
{
    domain.to_owned().concat("/").concat(id)
}

impl Client {
    /// The access for the account with these credentials to the API at `base_url`.
    pub fn new(api_key: &str, secret_api_key: &str, base_url: &str) -> (r: Client)
        ensures
            r@ == (ClientView {
                api_key: api_key@,
                secret_api_key: secret_api_key@,
                base_url: without_slashes(base_url@),
            }),
    {
        Client {
            api_key: api_key.to_owned(),
            secret_api_key: secret_api_key.to_owned(),
            base_url: strip_slashes(base_url).to_owned(),
        }
    }

    /// The failure that a message of the API stands for.
    pub fn classify_api_error(context: &str, message: &str) -> (r: Error)
        ensures
            r@ == failure_for(lowercase(message@), told(context@, message@)),
            ascii_lowered(message@),
    {
        let lowered = to_lowercase(message);
        make_failure(&lowered, context.to_owned().concat(": ").concat(message))
    }

    fn url(&self, path: &str) -> (r: String)
        ensures
            r@ == self@.base_url + path@,
    {
        self.base_url.clone().concat(path)
    }

    /// The credentials, to go into a request.
    pub fn auth_body(&self) -> (r: AuthBody)
        ensures
            self@.signs(r.apikey, r.secretapikey),
    {
        AuthBody { apikey: self.api_key.clone(), secretapikey: self.secret_api_key.clone() }
    }

    /// The request of [`Client::ping`].
    pub fn ping_call(&self) -> (r: Call<AuthBody>)
        ensures
            r.url@ == self@.base_url + "/ping"@,
            self@.signs(r.body.apikey, r.body.secretapikey),
    {
        Call { url: self.url("/ping"), body: self.auth_body() }
    }

    /// What the reply to a ping means: the credentials are good, or why not.
    pub fn ping(&self, reply: Result<PingResponse, Error>) -> (r: Result<PingResponse, Error>)
        ensures
            match reply {
                Err(e) => r == Err::<PingResponse, Error>(e),
                Ok(p) => match told_failure("ping"@, p.status@, p.message.deep_view()) {
                    None => r == Ok::<PingResponse, Error>(p),
                    Some(x) => r matches Err(e) && e@ == x && ascii_lowered(
                        said(p.status@, p.message.deep_view()),
                    ),
                },
            },
    {
        match reply {
            Err(e) => Err(e),
            Ok(p) => match find_told_failure("ping", &p.status, &p.message) {
                None => Ok(p),
                Some(e) => Err(e),
            },
        }
    }

    /// The request for the page of domains that begins at `start`.
    fn list_domains_call(&self, start: u32) -> (r: Call<ListAllRequest>)
        ensures
            asks_for_page(self@, start, r),
    {
        Call {
            url: self.url("/domain/listAll"),
            body: ListAllRequest {
                apikey: self.api_key.clone(),
                secretapikey: self.secret_api_key.clone(),
                start: if start == 0 {
                    None
                } else {
                    Some(start)
                },
            },
        }
    }

    /// Begins to list the account's domains, with the request for the first page.
    pub fn list_domains(&self) -> (r: (DomainListing, Call<ListAllRequest>))
        ensures
            r.0@ == nothing_listed(),
            asks_for_page(self@, 0, r.1),
    {
        let listing = DomainListing { domains: Vec::new(), start: 0 };
        assert(listing@.domains =~= Seq::empty());
        (listing, self.list_domains_call(0))
    }

    /// Goes on with the reply to the request for a page: a page that is not full is the last.
    pub fn next_domains(&self, listing: DomainListing, reply: Result<ListAllResponse, Error>) -> (r:
        DomainsStep)
        requires
            reply matches Ok(p) ==> (p.status@ == "SUCCESS"@ && domains_in(p).len() >= PAGE_SIZE
                ==> listing.start + domains_in(p).len() <= u32::MAX),
        ensures
            match reply {
                Err(e) => r == DomainsStep::Done(Err(e)),
                Ok(p) => {
                    &&& r@ == with_page(listing@, page_of(p))
                    &&& r matches DomainsStep::Ask(next, call) ==> asks_for_page(
                        self@,
                        next.start,
                        call,
                    )
                    &&& p.status@ != "SUCCESS"@ ==> ascii_lowered(
                        said(p.status@, p.message.deep_view()),
                    )
                },
            },
    {
        let p = match reply {
            Err(e) => {
                return DomainsStep::Done(Err(e));
            },
            Ok(p) => p,
        };
        match find_told_failure("list_domains", &p.status, &p.message) {
            Some(e) => DomainsStep::Done(Err(e)),
            None => {
                let ghost all = listing@.domains + domains_in(p);
                let mut domains = listing.domains;
                let page: Vec<Domain> = match p.domains {
                    Some(page) => page,
                    None => Vec::new(),
                };
                assert(page.deep_view() =~= domains_in(p));
                let count: usize = page.len();
                let mut rest = page;
                domains.append(&mut rest);
                assert(domains.deep_view() =~= all);
                if count < PAGE_SIZE {
                    DomainsStep::Done(Ok(domains))
                } else {
                    let start: u32 = listing.start + count as u32;
                    DomainsStep::Ask(
                        DomainListing { domains, start },
                        self.list_domains_call(start),
                    )
                }
            },
        }
    }

    /// The request of [`Client::list_records`].
    pub fn list_records_call(&self, domain: &str) -> (r: Call<AuthBody>)
        ensures
            r.url@ == self@.base_url + ("/dns/retrieve/"@ + domain@),
            self@.signs(r.body.apikey, r.body.secretapikey),
    {
        Call {
            url: self.url(&"/dns/retrieve/".to_owned().concat(domain)),
            body: self.auth_body(),
        }
    }

    /// The records of a domain, as the reply lists them.
    pub fn list_records(&self, domain: &str, reply: Result<DnsRetrieveResponse, Error>) -> (r:
        Result<Vec<DnsRecord>, Error>)
        ensures
            match reply {
                Err(e) => r == Err::<Vec<DnsRecord>, Error>(e),
                Ok(p) => match told_failure(
                    doing("list_records"@, domain@),
                    p.status@,
                    p.message.deep_view(),
                ) {
                    None => r matches Ok(records) && records.deep_view() == records_in(p),
                    Some(x) => r matches Err(e) && e@ == x && ascii_lowered(
                        said(p.status@, p.message.deep_view()),
                    ),
                },
            },
    {
        match reply {
            Err(e) => Err(e),
            Ok(p) => match find_told_failure(
                &say_doing("list_records", domain),
                &p.status,
                &p.message,
            ) {
                None => match p.records {
                    Some(records) => Ok(records),
                    None => {
                        let records: Vec<DnsRecord> = Vec::new();
                        assert(records.deep_view() =~= Seq::empty());
                        Ok(records)
                    },
                },
                Some(e) => Err(e),
            },
        }
    }

    /// The request of [`Client::add_record`].
    pub fn add_record_call(&self, domain: &str, params: CreateDnsParams) -> (r: Call<
        CreateDnsRequest,
    >)
        ensures
            r.url@ == self@.base_url + ("/dns/create/"@ + domain@),
            self@.signs(r.body.apikey, r.body.secretapikey),
            r.body.name.deep_view() == name_for(params@.subdomain),
            r.body.record_type@ == params@.record_type,
            r.body.content@ == params@.content,
            r.body.ttl == params.ttl,
            r.body.prio == params.prio,
    {
        Call {
            url: self.url(&"/dns/create/".to_owned().concat(domain)),
            body: CreateDnsRequest {
                apikey: self.api_key.clone(),
                secretapikey: self.secret_api_key.clone(),
                name: make_name(params.subdomain),
                record_type: params.record_type,
                content: params.content,
                ttl: params.ttl,
                prio: params.prio,
            },
        }
    }

    /// The id of the record that was added; empty where the reply names none.
    pub fn add_record(&self, domain: &str, reply: Result<CreateDnsResponse, Error>) -> (r: Result<
        String,
        Error,
    >)
        ensures
            match reply {
                Err(e) => r == Err::<String, Error>(e),
                Ok(p) => match told_failure(
                    doing("add_record"@, domain@),
                    p.status@,
                    p.message.deep_view(),
                ) {
                    None => r matches Ok(id) && match p.id {
                        Some(json) => {
                            &&& id@ == types::id_of(json@)
                            &&& json@.len() > 0 && number::is_digit(json@[0]) ==> id@ == json@
                            &&& types::json_quoted(json@) ==> id@ == json@.subrange(
                                1,
                                json@.len() - 1,
                            )
                        },
                        None => id@ == Seq::<char>::empty(),
                    },
                    Some(x) => r matches Err(e) && e@ == x && ascii_lowered(
                        said(p.status@, p.message.deep_view()),
                    ),
                },
            },
    {
        match reply {
            Err(e) => Err(e),
            Ok(p) => match find_told_failure(
                &say_doing("add_record", domain),
                &p.status,
                &p.message,
            ) {
                None => match p.id_string() {
                    Some(id) => Ok(id),
                    None => Ok(String::new()),
                },
                Some(e) => Err(e),
            },
        }
    }

    /// The request of [`Client::edit_record`].
    pub fn edit_record_call(&self, domain: &str, id: &str, params: EditDnsParams) -> (r: Call<
        EditDnsRequest,
    >)
        ensures
            r.url@ == self@.base_url + ("/dns/edit/"@ + record_at(domain@, id@)),
            self@.signs(r.body.apikey, r.body.secretapikey),
            r.body.name.deep_view() == name_for(params@.subdomain),
            r.body.record_type@ == params@.record_type,
            r.body.content@ == params@.content,
            r.body.ttl == params.ttl,
            r.body.prio == params.prio,
    {
        Call {
            url: self.url(&"/dns/edit/".to_owned().concat(&say_record(domain, id))),
            body: EditDnsRequest {
                apikey: self.api_key.clone(),
                secretapikey: self.secret_api_key.clone(),
                name: make_name(params.subdomain),
                record_type: params.record_type,
                content: params.content,
                ttl: params.ttl,
                prio: params.prio,
            },
        }
    }

    /// Whether the record was edited, or why not.
    pub fn edit_record(&self, domain: &str, id: &str, reply: Result<BasicResponse, Error>) -> (r:
        Result<(), Error>)
        ensures
            match reply {
                Err(e) => r == Err::<(), Error>(e),
                Ok(p) => match told_failure(
                    doing("edit_record"@, record_at(domain@, id@)),
                    p.status@,
                    p.message.deep_view(),
                ) {
                    None => r is Ok,
                    Some(x) => r matches Err(e) && e@ == x && ascii_lowered(
                        said(p.status@, p.message.deep_view()),
                    ),
                },
            },
    {
        match reply {
            Err(e) => Err(e),
            Ok(p) => match find_told_failure(
                &say_doing("edit_record", &say_record(domain, id)),
                &p.status,
                &p.message,
            ) {
                None => Ok(()),
                Some(e) => Err(e),
            },
        }
    }

    /// The request of [`Client::remove_record`].
    pub fn remove_record_call(&self, domain: &str, id: &str) -> (r: Call<AuthBody>)
        ensures
            r.url@ == self@.base_url + ("/dns/delete/"@ + record_at(domain@, id@)),
            self@.signs(r.body.apikey, r.body.secretapikey),
    {
        Call {
            url: self.url(&"/dns/delete/".to_owned().concat(&say_record(domain, id))),
            body: self.auth_body(),
        }
    }

    /// What the reply to a removal means, given its message in small letters: a record that
    /// is gone already counts as removed.
    pub fn judge_removal(domain: &str, id: &str, reply: BasicResponse, lowered: &str) -> (r: Result<
        (),
        Error,
    >)
        ensures
            reply.status@ == "SUCCESS"@ || about_missing(lowered@) ==> r is Ok,
            !(reply.status@ == "SUCCESS"@ || about_missing(lowered@)) ==> (r matches Err(e) && e@
                == not_removed(domain@, id@, message_or_empty(reply))),
    {
        if text::same_text(&reply.status, "SUCCESS") || tells_of_missing(lowered) {
            Ok(())
        } else {
            let told = say_doing("remove_record", &say_record(domain, id)).concat(" failed: ");
            match reply.message {
                Some(m) => Err(Error::PorkbunApi(told.concat(&m))),
                None => {
                    assert(told@ + Seq::<char>::empty() =~= told@);
                    Err(Error::PorkbunApi(told))
                },
            }
        }
    }

    /// Whether the record is gone, or why not; one that was gone before is no failure.
    pub fn remove_record(&self, domain: &str, id: &str, reply: Result<BasicResponse, Error>) -> (r:
        Result<(), Error>)
        ensures
            reply matches Ok(p) ==> ascii_lowered(message_or_empty(p)),
            match reply {
                Err(e) => if e@ is RecordNotFound {
                    r is Ok
                } else {
                    r == Err::<(), Error>(e)
                },
                Ok(p) => if p.status@ == "SUCCESS"@ || about_missing(
                    lowercase(message_or_empty(p)),
                ) {
                    r is Ok
                } else {
                    r matches Err(e) && e@ == not_removed(domain@, id@, message_or_empty(p))
                },
            },
    {
        match reply {
            Err(Error::RecordNotFound(_)) => Ok(()),
            Err(e) => Err(e),
            Ok(p) => {
                let lowered = match &p.message {
                    Some(m) => to_lowercase(m),
                    None => to_lowercase(""),
                };
                proof {
                    reveal_strlit("");
                    assert(""@ =~= Seq::<char>::empty());
                }
                Client::judge_removal(domain, id, p, &lowered)
            },
        }
    }
}

/// The message of a reply, empty where it has none.
pub open spec fn message_or_empty(reply: BasicResponse) -> Seq<char> {
    match reply.message {
        Some(m) => m@,
        None => Seq::empty(),
    }
}

/// The record was not removed.
pub open spec fn not_removed(domain: Seq<char>, id: Seq<char>, message: Seq<char>) -> ErrorView {
    ErrorView::PorkbunApi(
        doing("remove_record"@, record_at(domain, id)) + " failed: "@ + message,
    )
}

/// A message in small letters that holds one of the words for bad credentials stands for a
/// failure to authenticate, one that says that something is not there for a missing record,
/// and any other for a failure of the API.
pub proof fn messages_are_told_apart(lowered: Seq<char>, words: Seq<char>)
    ensures
        ({
            let credentials = text::has_part(lowered, "invalid api key"@) || text::has_part(
                lowered,
                "invalid secret"@,
            ) || text::has_part(lowered, "authentication"@) || text::has_part(lowered, "apikey"@);
            let missing = text::has_part(lowered, "not found"@) || text::has_part(
                lowered,
                "does not exist"@,
            );
            &&& credentials ==> failure_for(lowered, words) == ErrorView::Authentication(words)
            &&& !credentials && missing ==> failure_for(lowered, words)
                == ErrorView::RecordNotFound(words)
            &&& !credentials && !missing ==> failure_for(lowered, words) == ErrorView::PorkbunApi(
                words,
            )
            &&& about_missing(lowered) <==> missing
            &&& about_domain(lowered) <==> text::has_part(lowered, "domain"@) || text::has_part(
                lowered,
                "api access"@,
            ) || text::has_part(lowered, "not enabled"@)
        }),
{
}

/// A reply counts as success exactly where its status says so, and otherwise is told with
/// what was done and its message, or its status where it has none.
pub proof fn replies_succeed_by_status(
    context: Seq<char>,
    status: Seq<char>,
    message: Option<Seq<char>>,
)
    ensures
        told_failure(context, status, message) is None <==> status == "SUCCESS"@,
        status != "SUCCESS"@ && message is Some ==> told_failure(context, status, message) == Some(
            failure_for(lowercase(message->0), context + ": "@ + message->0),
        ),
        status != "SUCCESS"@ && message is None ==> told_failure(context, status, message) == Some(
            failure_for(lowercase(status), context + ": "@ + status),
        ),
{
}

/// What a reply with each status stands for. `m` is the message of the reply with the message
/// in small letters.
pub proof fn statuses_stand_for_failures(
    status: u16,
    shown: Seq<char>,
    reply: Seq<char>,
    m: (Seq<char>, Seq<char>),
)
    ensures
        ({
            let bare = "HTTP "@ + shown + ": "@ + reply;
            let told = "HTTP "@ + shown + ": "@ + m.0;
            let without = http_failure(status, shown, reply, None);
            let with = http_failure(status, shown, reply, Some(m));
            let of_domain = text::has_part(m.1, "domain"@) || text::has_part(m.1, "api access"@)
                || text::has_part(m.1, "not enabled"@);
            &&& 200 <= status < 300 <==> without is None
            &&& 200 <= status < 300 <==> with is None
            &&& status == 429 ==> without == Some(ErrorView::RateLimited) && with == Some(
                ErrorView::RateLimited,
            )
            &&& status == 401 ==> without == Some(ErrorView::Authentication(bare)) && with == Some(
                ErrorView::Authentication(bare),
            )
            &&& status == 403 ==> without == Some(ErrorView::Authentication(bare))
            &&& status == 403 && of_domain ==> with == Some(ErrorView::DomainNotAllowed(told))
            &&& status == 403 && !of_domain ==> with == Some(ErrorView::Authentication(bare))
            &&& 500 <= status < 600 ==> without == Some(ErrorView::PorkbunUpstream(bare)) && with
                == Some(ErrorView::PorkbunUpstream(told))
            &&& !(200 <= status < 300) && !(500 <= status < 600) && status != 429 && status != 401
                && status != 403 ==> without == Some(ErrorView::PorkbunApi(bare)) && with == Some(
                failure_for(m.1, told),
            )
        }),
{
}

/// The address is kept without the slashes at its end, and with all else.
pub proof fn only_slashes_are_stripped(s: Seq<char>)
    ensures
        without_slashes(s).len() <= s.len(),
        without_slashes(s) == s.take(without_slashes(s).len() as int),
        without_slashes(s).len() > 0 ==> without_slashes(s).last() != '/',
        forall|i: int| without_slashes(s).len() <= i < s.len() ==> #[trigger] s[i] == '/',
    decreases s.len(),
{
    if s.len() > 0 && s.last() == '/' {
        let front = s.drop_last();
        only_slashes_are_stripped(front);
        let k = without_slashes(s).len() as int;
        assert(front.take(k) =~= s.take(k));
        assert forall|i: int| k <= i < s.len() implies #[trigger] s[i] == '/' by {
            if i < front.len() {
                assert(front[i] == s[i]);
            }
        }
    } else {
        assert(s.take(s.len() as int) =~= s);
    }
}

/// The parts that requests are made of: a record of the zone itself goes without a name, a
/// record is addressed by its domain and its id, and a page is full with a thousand domains.
pub proof fn requests_are_made_of_these(subdomain: Seq<char>, domain: Seq<char>, id: Seq<char>)
    ensures
        name_for(subdomain) == if subdomain.len() == 0 {
            None
        } else {
            Some(subdomain)
        },
        record_at(domain, id) == domain + "/"@ + id,
        doing(domain, id) == domain + "("@ + id + ")"@,
        not_removed(domain, id, subdomain) == ErrorView::PorkbunApi(
            "remove_record"@ + "("@ + (domain + "/"@ + id) + ")"@ + " failed: "@ + subdomain,
        ),
        PAGE_SIZE == 1000,
{
}

/// A reply that lists nothing lists no domains and no records, and another lists what it
/// lists.
pub proof fn replies_list_what_they_list(domains: ListAllResponse, records: DnsRetrieveResponse)
    ensures
        domains.domains is None ==> domains_in(domains).len() == 0,
        domains.domains matches Some(some) ==> domains_in(domains).len() == some@.len() && forall|
            i: int,
        |
            0 <= i < some@.len() ==> #[trigger] domains_in(domains)[i] == some@[i].domain@,
        records.records is None ==> records_in(records).len() == 0,
        records.records matches Some(some) ==> records_in(records).len() == some@.len() && forall|
            i: int,
        |
            0 <= i < some@.len() ==> #[trigger] records_in(records)[i] == some@[i]@,
{
}

/// A request for a page goes to the list of all domains, with the credentials of the account,
/// and says where the page begins, unless it is the first.
pub proof fn pages_are_asked_for_by_start(
    client: ClientView,
    start: u32,
    call: Call<ListAllRequest>,
    apikey: String,
    secretapikey: String,
)
    ensures
        asks_for_page(client, start, call) ==> call.url@ == client.base_url + "/domain/listAll"@
            && call.body.apikey@ == client.api_key && call.body.secretapikey@
            == client.secret_api_key,
        asks_for_page(client, start, call) && start == 0 ==> call.body.start is None,
        asks_for_page(client, start, call) && start > 0 ==> call.body.start == Some(start),
        client.signs(apikey, secretapikey) <==> apikey@ == client.api_key && secretapikey@
            == client.secret_api_key,
{
}

/// The message of a reply to a removal is its own, and empty where it has none.
pub proof fn removals_are_told_by_message(reply: BasicResponse)
    ensures
        reply.message matches Some(m) ==> message_or_empty(reply) == m@,
        reply.message is None ==> message_or_empty(reply).len() == 0,
{
}

} // verus!

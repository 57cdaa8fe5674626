//! Requests and replies of the Porkbun API.
use crate::number;
use vstd::prelude::*;

verus! {

/// The credentials that accompany a request without other contents.
#[derive(Debug)]
pub struct AuthBody {
    pub apikey: String,
    pub secretapikey: String,
}

/// The reply to a ping.
#[derive(Debug)]
pub struct PingResponse {
    pub status: String,
    pub your_ip: Option<String>,
    pub message: Option<String>,
}

/// A request for one page of the account's domains.
#[derive(Debug)]
pub struct ListAllRequest {
    pub apikey: String,
    pub secretapikey: String,
    pub start: Option<u32>,
}

/// One page of the account's domains.
#[derive(Debug)]
pub struct ListAllResponse {
    pub status: String,
    pub message: Option<String>,
    pub domains: Option<Vec<Domain>>,
}

/// A domain of the account.
#[derive(Debug)]
pub struct Domain {
    pub domain: String,
}

impl View for Domain {
    type V = Seq<char>;

    open spec fn view(&self) -> Seq<char> {
        self.domain@
    }
}

impl DeepView for Domain {
    type V = Seq<char>;

    open spec fn deep_view(&self) -> Seq<char> {
        self@
    }
}

/// The records of a zone.
#[derive(Debug)]
pub struct DnsRetrieveResponse {
    pub status: String,
    pub message: Option<String>,
    pub records: Option<Vec<DnsRecord>>,
}

/// A DNS record as the service lists it: numbers come as text.
#[derive(Debug)]
pub struct DnsRecord {
    pub id: String,
    pub name: String,
    pub record_type: String,
    pub content: String,
    pub ttl: Option<String>,
    pub prio: Option<String>,
}

/// A [`DnsRecord`] with its texts as sequences of characters.
pub struct RecordView {
    pub id: Seq<char>,
    pub name: Seq<char>,
    pub record_type: Seq<char>,
    pub content: Seq<char>,
    pub ttl: Option<Seq<char>>,
    pub prio: Option<Seq<char>>,
}

impl View for DnsRecord {
    type V = RecordView;

    open spec fn view(&self) -> RecordView {
        RecordView {
            id: self.id@,
            name: self.name@,
            record_type: self.record_type@,
            content: self.content@,
            ttl: self.ttl.deep_view(),
            prio: self.prio.deep_view(),
        }
    }
}

impl DeepView for DnsRecord {
    type V = RecordView;

    open spec fn deep_view(&self) -> RecordView {
        self@
    }
}

/// The number that an optional text writes, if it writes one.
pub open spec fn number_in(s: Option<Seq<char>>) -> Option<u32> {
    match s {
        Some(t) => number::number_u32(t),
        None => None,
    }
}

impl RecordView {
    /// The time to live, where the record has a readable one.
    pub open spec fn ttl_u32(self) -> Option<u32> {
        number_in(self.ttl)
    }

    /// The priority, where the record has a readable one.
    pub open spec fn prio_u32(self) -> Option<u32> {
        number_in(self.prio)
    }
}

impl Clone for DnsRecord {
    fn clone(&self) -> (r: Self)
        ensures
            r == *self,
    {
        DnsRecord {
            id: self.id.clone(),
            name: self.name.clone(),
            record_type: self.record_type.clone(),
            content: self.content.clone(),
            ttl: match &self.ttl {
                Some(t) => Some(t.clone()),
                None => None,
            },
            prio: match &self.prio {
                Some(p) => Some(p.clone()),
                None => None,
            },
        }
    }
}

fn read_number(s: &Option<String>) -> (r: Option<u32>)
    ensures
        r == number_in(s.deep_view()),
{
    match s {
        Some(t) => number::parse_u32(t),
        None => None,
    }
}

impl DnsRecord {
    /// The time to live, where the record has a readable one.
    pub fn ttl_u32(&self) -> (r: Option<u32>)
        ensures
            r == self@.ttl_u32(),
    {
        read_number(&self.ttl)
    }

    /// The priority, where the record has a readable one.
    pub fn prio_u32(&self) -> (r: Option<u32>)
        ensures
            r == self@.prio_u32(),
    {
        read_number(&self.prio)
    }
}

/// A request for a new record.
#[derive(Debug)]
pub struct CreateDnsRequest {
    pub apikey: String,
    pub secretapikey: String,
    pub name: Option<String>,
    pub record_type: String,
    pub content: String,
    pub ttl: Option<u32>,
    pub prio: Option<u32>,
}

/// The reply to a request for a new record.
#[derive(Debug)]
pub struct CreateDnsResponse {
    pub status: String,
    pub message: Option<String>,
    /// The record's id as JSON text: the service writes it as a number or as a string.
    pub id: Option<String>,
}

/// What the JSON text `json` holds, where it is a JSON string: the string that
/// `serde_json::from_str` makes of it.
pub uninterp spec fn json_string(json: Seq<char>) -> Option<Seq<char>>;

/// `t` may stand between quotes in JSON as it is: no quote, no backslash, no control
/// character.
pub open spec fn json_plain(t: Seq<char>) -> bool {
    forall|i: int| 0 <= i < t.len() ==> t[i] != '"' && t[i] != '\\' && #[trigger] t[i] >= ' '
}

/// `json` is plain characters between quotes.
pub open spec fn json_quoted(json: Seq<char>) -> bool {
    json.len() >= 2 && json[0] == '"' && json.last() == '"' && json_plain(
        json.subrange(1, json.len() - 1),
    )
}

/// The id that an id member writes: the string that it holds where it is a string, and
/// otherwise its own text.
pub open spec fn id_of(json: Seq<char>) -> Seq<char> {
    match json_string(json) {
        Some(t) => t,
        None => json,
    }
}

/// `c` may stand before a JSON value.
pub open spec fn json_space(c: char) -> bool {
    c == ' ' || c == '\n' || c == '\r' || c == '\t'
}

/// `json` begins as a JSON object may.
pub open spec fn may_hold_object(json: Seq<char>) -> bool {
    json.len() > 0 && (json[0] == '{' || json_space(json[0]))
}

/// `serde_json::from_str` for a `String`: the string that the JSON text writes, none where
/// it writes something else or is malformed. What it makes of a text has the name
/// `json_string`. Two facts are stated of it: plain characters between quotes are the
/// string, and a text that begins with neither a quote nor white space writes no string.
#[verifier::external_body]
fn parse_json_string(json: &str) -> (r: Option<String>)
    ensures
        r.deep_view() == json_string(json@),
        json_quoted(json@) ==> r.deep_view() == Some(json@.subrange(1, json@.len() - 1)),
        json@.len() > 0 && json@[0] != '"' && !json_space(json@[0]) ==> r is None,
{
    serde_json::from_str::<String>(json).ok()
}

/// The id that an id member writes, given what the member holds where it is a string:
/// that string, and otherwise the member's own text.
pub fn id_text(json: &str, string: Option<String>) -> (r: String)
    ensures
        r@ == match string {
            Some(s) => s@,
            None => json@,
        },
{
    match string {
        Some(s) => s,
        None => json.to_owned(),
    }
}

impl CreateDnsResponse {
    /// The id of the new record, whether it was written as a number or as a string.
    pub fn id_string(&self) -> (r: Option<String>)
        ensures
            r is Some <==> self.id is Some,
            self.id matches Some(json) ==> r.deep_view() == Some(id_of(json@)),
            self.id matches Some(json) ==> (json@.len() > 0 && number::is_digit(json@[0])
                ==> r.deep_view() == Some(json@)),
            self.id matches Some(json) ==> (json_quoted(json@) ==> r.deep_view() == Some(
                json@.subrange(1, json@.len() - 1),
            )),
    {
        match &self.id {
            Some(json) => Some(id_text(json, parse_json_string(json))),
            None => None,
        }
    }
}

/// A request to change a record.
#[derive(Debug)]
pub struct EditDnsRequest {
    pub apikey: String,
    pub secretapikey: String,
    pub name: Option<String>,
    pub record_type: String,
    pub content: String,
    pub ttl: Option<u32>,
    pub prio: Option<u32>,
}

/// The reply to a request that changes or removes a record.
#[derive(Debug)]
pub struct BasicResponse {
    pub status: String,
    pub message: Option<String>,
}

/// The contents of a new record, without credentials.
#[derive(Debug)]
pub struct CreateDnsParams {
    pub subdomain: String,
    pub record_type: String,
    pub content: String,
    pub ttl: Option<u32>,
    pub prio: Option<u32>,
}

/// The new contents of a record, without credentials.
#[derive(Debug)]
pub struct EditDnsParams {
    pub subdomain: String,
    pub record_type: String,
    pub content: String,
    pub ttl: Option<u32>,
    pub prio: Option<u32>,
}

/// The contents of a record with its texts as sequences of characters.
pub struct ParamsView {
    pub subdomain: Seq<char>,
    pub record_type: Seq<char>,
    pub content: Seq<char>,
    pub ttl: Option<u32>,
    pub prio: Option<u32>,
}

impl Clone for CreateDnsParams {
    fn clone(&self) -> (r: Self)
        ensures
            r == *self,
    {
        CreateDnsParams {
            subdomain: self.subdomain.clone(),
            record_type: self.record_type.clone(),
            content: self.content.clone(),
            ttl: self.ttl,
            prio: self.prio,
        }
    }
}

impl View for CreateDnsParams {
    type V = ParamsView;

    open spec fn view(&self) -> ParamsView {
        ParamsView {
            subdomain: self.subdomain@,
            record_type: self.record_type@,
            content: self.content@,
            ttl: self.ttl,
            prio: self.prio,
        }
    }
}

impl Clone for EditDnsParams {
    fn clone(&self) -> (r: Self)
        ensures
            r == *self,
    {
        EditDnsParams {
            subdomain: self.subdomain.clone(),
            record_type: self.record_type.clone(),
            content: self.content.clone(),
            ttl: self.ttl,
            prio: self.prio,
        }
    }
}

impl View for EditDnsParams {
    type V = ParamsView;

    open spec fn view(&self) -> ParamsView {
        ParamsView {
            subdomain: self.subdomain@,
            record_type: self.record_type@,
            content: self.content@,
            ttl: self.ttl,
            prio: self.prio,
        }
    }
}

/// A record is seen with all that it holds.
pub proof fn records_are_seen_whole(r: DnsRecord, c: CreateDnsParams, e: EditDnsParams)
    ensures
        r@.id == r.id@,
        r@.name == r.name@,
        r@.record_type == r.record_type@,
        r@.content == r.content@,
        r.ttl matches Some(t) ==> r@.ttl == Some(t@),
        r.ttl is None ==> r@.ttl is None,
        r.prio matches Some(p) ==> r@.prio == Some(p@),
        r.prio is None ==> r@.prio is None,
        c@ == (ParamsView {
            subdomain: c.subdomain@,
            record_type: c.record_type@,
            content: c.content@,
            ttl: c.ttl,
            prio: c.prio,
        }),
        e@ == (ParamsView {
            subdomain: e.subdomain@,
            record_type: e.record_type@,
            content: e.content@,
            ttl: e.ttl,
            prio: e.prio,
        }),
{
}

/// The numbers of a record are those that its texts write.
pub proof fn numbers_of_records_are_as_written(r: RecordView, n: u32)
    ensures
        r.ttl_u32() == Some(n) <==> r.ttl is Some && number::writes(r.ttl->0, n as nat),
        r.prio_u32() == Some(n) <==> r.prio is Some && number::writes(r.prio->0, n as nat),
{
    if r.ttl is Some {
        number::u32_is_read_as_written(r.ttl->0, n);
    }
    if r.prio is Some {
        number::u32_is_read_as_written(r.prio->0, n);
    }
}

} // verus!

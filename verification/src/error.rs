//! Failures, their retry class and the answers they are given.
use vstd::prelude::*;
use vstd::string::StringExecFns;

verus! {

/// What is known of a failed exchange with the upstream service.
#[derive(Debug)]
pub struct NetworkFailure {
    /// The exchange ran into its time limit.
    pub timeout: bool,
    /// The connection could not be made.
    pub connect: bool,
    /// The failure in words.
    pub message: String,
}

/// A failure of the webhook.
#[derive(Debug)]
pub enum Error {
    PorkbunApi(String),
    RateLimited,
    PorkbunUpstream(String),
    Authentication(String),
    InvalidRequest(String),
    DomainNotAllowed(String),
    RecordNotFound(String),
    Configuration(String),
    Network(NetworkFailure),
    Json(String),
    Internal(String),
    Other(String),
}

/// An [`Error`] with its texts as sequences of characters.
pub enum ErrorView {
    PorkbunApi(Seq<char>),
    RateLimited,
    PorkbunUpstream(Seq<char>),
    Authentication(Seq<char>),
    InvalidRequest(Seq<char>),
    DomainNotAllowed(Seq<char>),
    RecordNotFound(Seq<char>),
    Configuration(Seq<char>),
    Network { timeout: bool, connect: bool, message: Seq<char> },
    Json(Seq<char>),
    Internal(Seq<char>),
    Other(Seq<char>),
}

impl View for Error {
    type V = ErrorView;

    open spec fn view(&self) -> ErrorView {
        match *self {
            Error::PorkbunApi(m) => ErrorView::PorkbunApi(m@),
            Error::RateLimited => ErrorView::RateLimited,
            Error::PorkbunUpstream(m) => ErrorView::PorkbunUpstream(m@),
            Error::Authentication(m) => ErrorView::Authentication(m@),
            Error::InvalidRequest(m) => ErrorView::InvalidRequest(m@),
            Error::DomainNotAllowed(m) => ErrorView::DomainNotAllowed(m@),
            Error::RecordNotFound(m) => ErrorView::RecordNotFound(m@),
            Error::Configuration(m) => ErrorView::Configuration(m@),
            Error::Network(n) => ErrorView::Network {
                timeout: n.timeout,
                connect: n.connect,
                message: n.message@,
            },
            Error::Json(m) => ErrorView::Json(m@),
            Error::Internal(m) => ErrorView::Internal(m@),
            Error::Other(m) => ErrorView::Other(m@),
        }
    }
}

impl ErrorView {
    /// A retry may succeed: the service asked for fewer requests, failed itself, or was
    /// not reached in time.
    pub open spec fn transient(self) -> bool {
        match self {
            ErrorView::RateLimited => true,
            ErrorView::PorkbunUpstream(_) => true,
            ErrorView::Network { timeout, connect, message } => timeout || connect,
            _ => false,
        }
    }

    /// The HTTP status that answers the failure: ExternalDNS tries again on a 5xx, so only a
    /// failure that a retry may mend is given one.
    pub open spec fn status(self) -> u16 {
        match self {
            ErrorView::PorkbunApi(_) => 422,
            ErrorView::RateLimited => 503,
            ErrorView::PorkbunUpstream(_) => 503,
            ErrorView::Authentication(_) => 403,
            ErrorView::InvalidRequest(_) => 400,
            ErrorView::DomainNotAllowed(_) => 403,
            ErrorView::RecordNotFound(_) => 404,
            ErrorView::Configuration(_) => 422,
            ErrorView::Network { timeout, connect, message } => if timeout || connect {
                503
            } else {
                422
            },
            ErrorView::Json(_) => 400,
            ErrorView::Internal(_) => 422,
            ErrorView::Other(_) => 422,
        }
    }

    /// The failure in words.
    pub open spec fn words(self) -> Seq<char> {
        match self {
            ErrorView::PorkbunApi(m) => "Porkbun API error: "@ + m,
            ErrorView::RateLimited => "Rate limited by Porkbun API"@,
            ErrorView::PorkbunUpstream(m) => "Porkbun upstream error: "@ + m,
            ErrorView::Authentication(m) => "Authentication error: "@ + m,
            ErrorView::InvalidRequest(m) => "Invalid request: "@ + m,
            ErrorView::DomainNotAllowed(m) => "Domain not allowed: "@ + m,
            ErrorView::RecordNotFound(m) => "Record not found: "@ + m,
            ErrorView::Configuration(m) => "Configuration error: "@ + m,
            ErrorView::Network { timeout, connect, message } => "Network error: "@ + message,
            ErrorView::Json(m) => "JSON error: "@ + m,
            ErrorView::Internal(m) => "Internal error: "@ + m,
            ErrorView::Other(m) => m,
        }
    }
}

/// A result with the failure as its view.
pub open spec fn failing<T>(r: Result<T, Error>) -> Result<T, ErrorView> {
    match r {
        Ok(v) => Ok(v),
        Err(e) => Err(e@),
    }
}

/// A failure as its view, where there is one.
pub open spec fn failure_view(failure: Option<Error>) -> Option<ErrorView> {
    match failure {
        Some(e) => Some(e@),
        None => None,
    }
}

/// The answer that a failure is given.
#[derive(Debug)]
pub struct ErrorResponse {
    /// The HTTP status.
    pub status: u16,
    /// The failure in words.
    pub error: String,
}

impl Error {
    /// Whether the request that failed should be tried again.
    pub fn is_transient(&self) -> (r: bool)
        ensures
            r == self@.transient(),
    {
        match self {
            Error::RateLimited => true,
            Error::PorkbunUpstream(_) => true,
            Error::Network(n) => n.timeout || n.connect,
            _ => false,
        }
    }

    /// The HTTP status that answers the failure: a 5xx exactly where the request should be
    /// tried again, and otherwise a 4xx.
    pub fn status_code(&self) -> (r: u16)
        ensures
            r == self@.status(),
            500 <= r < 600 <==> self@.transient(),
            400 <= r < 500 <==> !self@.transient(),
    {
        if self.is_transient() {
            return 503;
        }
        match self {
            Error::PorkbunApi(_) => 422,
            Error::RateLimited => 503,
            Error::PorkbunUpstream(_) => 503,
            Error::Authentication(_) => 403,
            Error::InvalidRequest(_) => 400,
            Error::DomainNotAllowed(_) => 403,
            Error::RecordNotFound(_) => 404,
            Error::Configuration(_) => 422,
            Error::Network(_) => 422,
            Error::Json(_) => 400,
            Error::Internal(_) => 422,
            Error::Other(_) => 422,
        }
    }

    /// The failure in words.
    pub fn message(&self) -> (r: String)
        ensures
            r@ == self@.words(),
    {
        match self {
            Error::PorkbunApi(m) => "Porkbun API error: ".to_owned().concat(m),
            Error::RateLimited => "Rate limited by Porkbun API".to_owned(),
            Error::PorkbunUpstream(m) => "Porkbun upstream error: ".to_owned().concat(m),
            Error::Authentication(m) => "Authentication error: ".to_owned().concat(m),
            Error::InvalidRequest(m) => "Invalid request: ".to_owned().concat(m),
            Error::DomainNotAllowed(m) => "Domain not allowed: ".to_owned().concat(m),
            Error::RecordNotFound(m) => "Record not found: ".to_owned().concat(m),
            Error::Configuration(m) => "Configuration error: ".to_owned().concat(m),
            Error::Network(n) => "Network error: ".to_owned().concat(&n.message),
            Error::Json(m) => "JSON error: ".to_owned().concat(m),
            Error::Internal(m) => "Internal error: ".to_owned().concat(m),
            Error::Other(m) => m.clone(),
        }
    }

    /// The answer that the failure is given: its status and its words.
    pub fn into_response(self) -> (r: ErrorResponse)
        ensures
            r.status == self@.status(),
            r.error@ == self@.words(),
    {
        ErrorResponse { status: self.status_code(), error: self.message() }
    }
}

/// The answer tells whether a retry may help: a failure is answered in the 500s, with 503,
/// exactly where it is transient, and in the 400s exactly where it is permanent.
pub proof fn answers_tell_retry(e: ErrorView)
    ensures
        500 <= e.status() < 600 <==> e.transient(),
        400 <= e.status() < 500 <==> !e.transient(),
        e.transient() ==> e.status() == 503,
{
}

/// What is wrong with the request is answered with 400, missing records with 404, what may
/// not be done with 403, what the service asks to be tried later with 503, and the rest
/// with 422.
pub proof fn answers_by_kind(m: Seq<char>, timeout: bool, connect: bool)
    ensures
        ErrorView::InvalidRequest(m).status() == 400,
        ErrorView::Json(m).status() == 400,
        ErrorView::Authentication(m).status() == 403,
        ErrorView::DomainNotAllowed(m).status() == 403,
        ErrorView::RecordNotFound(m).status() == 404,
        ErrorView::RateLimited.status() == 503,
        ErrorView::PorkbunUpstream(m).status() == 503,
        ErrorView::PorkbunApi(m).status() == 422,
        ErrorView::Configuration(m).status() == 422,
        ErrorView::Internal(m).status() == 422,
        ErrorView::Other(m).status() == 422,
        (ErrorView::Network { timeout, connect, message: m }).status() == if timeout || connect {
            503
        } else {
            422int
        },
{
}

/// A retry may mend just what the service asks to be tried later, its own failures, and
/// exchanges that ran out of time or found no connection.
pub proof fn retry_mends_by_kind(m: Seq<char>, timeout: bool, connect: bool)
    ensures
        ErrorView::RateLimited.transient(),
        ErrorView::PorkbunUpstream(m).transient(),
        (ErrorView::Network { timeout, connect, message: m }).transient() <==> timeout || connect,
        !ErrorView::InvalidRequest(m).transient(),
        !ErrorView::Json(m).transient(),
        !ErrorView::Authentication(m).transient(),
        !ErrorView::DomainNotAllowed(m).transient(),
        !ErrorView::RecordNotFound(m).transient(),
        !ErrorView::PorkbunApi(m).transient(),
        !ErrorView::Configuration(m).transient(),
        !ErrorView::Internal(m).transient(),
        !ErrorView::Other(m).transient(),
{
}

/// A failure is told by its kind and its message.
pub proof fn failures_are_told_by_kind(m: Seq<char>, timeout: bool, connect: bool)
    ensures
        ErrorView::PorkbunApi(m).words() == "Porkbun API error: "@ + m,
        ErrorView::RateLimited.words() == "Rate limited by Porkbun API"@,
        ErrorView::PorkbunUpstream(m).words() == "Porkbun upstream error: "@ + m,
        ErrorView::Authentication(m).words() == "Authentication error: "@ + m,
        ErrorView::InvalidRequest(m).words() == "Invalid request: "@ + m,
        ErrorView::DomainNotAllowed(m).words() == "Domain not allowed: "@ + m,
        ErrorView::RecordNotFound(m).words() == "Record not found: "@ + m,
        ErrorView::Configuration(m).words() == "Configuration error: "@ + m,
        (ErrorView::Network { timeout, connect, message: m }).words() == "Network error: "@ + m,
        ErrorView::Json(m).words() == "JSON error: "@ + m,
        ErrorView::Internal(m).words() == "Internal error: "@ + m,
        ErrorView::Other(m).words() == m,
{
}

/// Failures are seen with all that they hold.
pub proof fn failures_are_seen_whole(e: Error)
    ensures
        match e {
            Error::PorkbunApi(m) => e@ == ErrorView::PorkbunApi(m@),
            Error::RateLimited => e@ is RateLimited,
            Error::PorkbunUpstream(m) => e@ == ErrorView::PorkbunUpstream(m@),
            Error::Authentication(m) => e@ == ErrorView::Authentication(m@),
            Error::InvalidRequest(m) => e@ == ErrorView::InvalidRequest(m@),
            Error::DomainNotAllowed(m) => e@ == ErrorView::DomainNotAllowed(m@),
            Error::RecordNotFound(m) => e@ == ErrorView::RecordNotFound(m@),
            Error::Configuration(m) => e@ == ErrorView::Configuration(m@),
            Error::Network(n) => e@ is Network && e@->timeout == n.timeout && e@->connect
                == n.connect && e@->message == n.message@,
            Error::Json(m) => e@ == ErrorView::Json(m@),
            Error::Internal(m) => e@ == ErrorView::Internal(m@),
            Error::Other(m) => e@ == ErrorView::Other(m@),
        },
{
}

} // verus!

//! What is told of requests in the log.
use crate::number;
use crate::text;
use vstd::prelude::*;
use vstd::string::StringExecFns;
use vstd::string::StringSliceAdditionalSpecFns;
use vstd::utf8;

verus! {

/// How many bytes of a request's contents are told at most.
pub const SHOWN_BYTES: usize = 4096;

/// Whether the contents of requests are told.
#[derive(Debug)]
pub struct BodyTracing {
    pub enabled: bool,
}

/// Sets whether the contents of requests are told.
pub fn set_trace_request_bodies(tracing: &mut BodyTracing, enabled: bool)
    ensures
        final(tracing).enabled == enabled,
{
    tracing.enabled = enabled;
}

/// Whether the contents of this request are told: those of changes, where this is enabled.
pub fn traces_body(tracing: &BodyTracing, method: &str, path: &str) -> (r: bool)
    ensures
        r <==> tracing.enabled && method@ == "POST"@ && path@ == "/records"@,
{
    tracing.enabled && text::same_text(method, "POST") && text::same_text(path, "/records")
}

/// The greatest number of bytes up to `end` after which no character is cut in two.
pub open spec fn cut_at(bytes: Seq<u8>, end: int) -> int
    decreases end,
{
    if end <= 0 {
        0
    } else if utf8::is_char_boundary(bytes, end) {
        end
    } else {
        cut_at(bytes, end - 1)
    }
}

/// The cut falls between two characters, as late as the limit allows.
pub proof fn cut_is_greatest(bytes: Seq<u8>, end: int)
    requires
        utf8::valid_utf8(bytes),
        0 <= end,
    ensures
        0 <= cut_at(bytes, end) <= end,
        utf8::is_char_boundary(bytes, cut_at(bytes, end)),
        forall|k: int| cut_at(bytes, end) < k <= end ==> !utf8::is_char_boundary(bytes, k),
    decreases end,
{
    if end > 0 && !utf8::is_char_boundary(bytes, end) {
        cut_is_greatest(bytes, end - 1);
    }
}

/// What is told of a request's contents: all of them, or the beginning and how many bytes
/// there are.
pub open spec fn shown(body: Seq<char>) -> Seq<char> {
    let bytes = utf8::encode_utf8(body);
    if bytes.len() <= SHOWN_BYTES {
        body
    } else {
        utf8::decode_utf8(bytes.subrange(0, cut_at(bytes, SHOWN_BYTES as int)))
            + "... (truncated, "@ + number::decimal(bytes.len()) + " bytes total)"@
    }
}

/// What is told of a request's contents.
pub fn truncate_body(body: &str) -> (r: String)
    ensures
        r@ == shown(body@),
{
    let ghost bytes = body.spec_bytes();
    let total: usize = body.as_bytes().len();
    if total <= SHOWN_BYTES {
        body.to_owned()
    } else {
        let mut end: usize = SHOWN_BYTES;
        while end > 0 && !body.is_char_boundary(end)
            invariant
                end <= SHOWN_BYTES,
                bytes == body.spec_bytes(),
                cut_at(bytes, end as int) == cut_at(bytes, SHOWN_BYTES as int),
            decreases end,
        {
            end = end - 1;
        }
        proof {
            utf8::encode_utf8_valid_utf8(body@);
        }
        let (head, _) = body.split_at(end);
        proof {
            utf8::encode_utf8_decode_utf8(head@);
        }
        let count = number::decimal_text(total as u64);
        head.to_owned().concat("... (truncated, ").concat(&count).concat(" bytes total)")
    }
}

/// The text that `String::from_utf8_lossy` makes of bytes.
pub uninterp spec fn lossy_text(bytes: Seq<u8>) -> Seq<char>;

/// `String::from_utf8_lossy`: the text that the bytes write, with a replacement character
/// in place of what is no UTF-8. What it makes of bytes has the name `lossy_text`. Of bytes
/// that are UTF-8 it is stated that they write the text.
#[verifier::external_body]
fn read_lossy(bytes: &[u8]) -> (r: String)
    ensures
        r@ == lossy_text(bytes@),
        utf8::valid_utf8(bytes@) ==> utf8::encode_utf8(r@) == bytes@,
{
    String::from_utf8_lossy(bytes).into_owned()
}

/// What is told of the contents of a request with these bytes.
pub fn show_body(bytes: &[u8]) -> (r: String)
    ensures
        r@ == shown(lossy_text(bytes@)),
        utf8::valid_utf8(bytes@) ==> r@ == shown(utf8::decode_utf8(bytes@)),
{
    let body = read_lossy(bytes);
    proof {
        utf8::encode_utf8_decode_utf8(body@);
    }
    truncate_body(&body)
}

/// Whether a request that was answered with this status counts as failed.
pub fn has_failed(status: u16) -> (r: bool)
    ensures
        r <==> 400 <= status < 600,
{
    400 <= status && status < 600
}

/// The contents of a request are told whole up to 4096 bytes, and of longer ones the
/// beginning, which is not longer and ends between two characters, and the number of bytes.
pub proof fn long_contents_are_cut(body: Seq<char>)
    ensures
        utf8::encode_utf8(body).len() <= 4096 ==> shown(body) == body,
        utf8::encode_utf8(body).len() > 4096 ==> exists|k: int|
            0 <= k <= 4096 && #[trigger] utf8::is_char_boundary(utf8::encode_utf8(body), k) && (
            forall|j: int|
                k < j <= 4096 ==> !#[trigger] utf8::is_char_boundary(utf8::encode_utf8(body), j))
                && shown(body) == utf8::decode_utf8(utf8::encode_utf8(body).subrange(0, k))
                + "... (truncated, "@ + number::decimal(utf8::encode_utf8(body).len())
                + " bytes total)"@,
{
    let bytes = utf8::encode_utf8(body);
    utf8::encode_utf8_valid_utf8(body);
    cut_is_greatest(bytes, 4096);
    assert(utf8::is_char_boundary(bytes, cut_at(bytes, 4096)));
}

} // verus!

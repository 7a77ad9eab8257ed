//! Fetching the data archive: resuming, retrying, and the digest that it must have.

use crate::text::after_last;
use crate::text::after_last_spec;
use crate::text::decimal;
use crate::text::decimal_string;
use crate::text::joined3;
use crate::text::parse_u64;
use crate::text::same;
use crate::text::text_view;
use crate::text::trim;
use crate::text::trimmed;
use crate::text::u64_value;
use vstd::prelude::*;
use vstd::string::*;

verus! {

/// How often a download is tried.
pub const MAX_ATTEMPTS: u32 = 8;

// ---------------------------------------------------------------------------
// The digest
// ---------------------------------------------------------------------------

/// The MD5 digest of some bytes, in lower-case hexadecimal.
pub uninterp spec fn md5_hex_of(data: Seq<u8>) -> Seq<char>;

/// `md5::compute`, its digest printed in lower-case hexadecimal: a function of the bytes alone,
/// thirty-two characters long. What the digest of given bytes is, is left unsaid.
#[verifier::external_body]
fn md5_hex(data: &[u8]) -> (r: String)
    ensures
        r@ == md5_hex_of(data@),
        r@.len() == 32,
{
    format!("{:x}", md5::compute(data))
}

/// The digest of the archive.
pub open spec fn expected_md5() -> Seq<char> {
    "a8f23d2d76461211c6b4c0ca6df2547d"@
}

/// The digest of some bytes.
pub fn digest(data: &[u8]) -> (r: String)
    ensures
        r@ == md5_hex_of(data@),
{
    md5_hex(data)
}

/// Compares a digest with the archive's; hands it back where it is another.
pub fn check_digest(got: String) -> (r: Result<(), String>)
    ensures
        got@ == expected_md5() ==> r == Ok::<(), String>(()),
        got@ != expected_md5() ==> r == Err::<(), String>(got),
{
    if same(got.as_str(), "a8f23d2d76461211c6b4c0ca6df2547d") {
        Ok(())
    } else {
        Err(got)
    }
}

/// Compares the digest of some bytes with the archive's; hands it back where it is another.
pub fn check_md5(data: &[u8]) -> (r: Result<(), String>)
    ensures
        match r {
            Ok(_) => md5_hex_of(data@) == expected_md5(),
            Err(got) => got@ == md5_hex_of(data@) && got@ != expected_md5(),
        },
{
    check_digest(md5_hex(data))
}

// ---------------------------------------------------------------------------
// Attempts
// ---------------------------------------------------------------------------

/// What follows an attempt.
#[derive(Clone, Copy, PartialEq, Eq, Structural, Debug)]
pub enum RetryStep {
    /// The transfer is complete.
    Done,
    /// Wait so many seconds and try again.
    RetryAfter(u64),
    /// The last attempt has failed.
    GiveUp,
}

/// What follows the `attempt`-th attempt, counted from one: a failed one is tried again after two
/// seconds more each time, up to the last.
pub fn after_attempt(attempt: u32, ok: bool) -> (r: RetryStep)
    ensures
        r == (if ok {
            RetryStep::Done
        } else if attempt < MAX_ATTEMPTS {
            RetryStep::RetryAfter((2 * attempt) as u64)
        } else {
            RetryStep::GiveUp
        }),
{
    if ok {
        RetryStep::Done
    } else if attempt < MAX_ATTEMPTS {
        RetryStep::RetryAfter(2 * attempt as u64)
    } else {
        RetryStep::GiveUp
    }
}

/// The outcomes of the attempts, told in order, that end a download: the number of attempts made.
pub open spec fn attempts_made(outcomes: spec_fn(int) -> bool, attempt: nat) -> nat
    decreases 8 - attempt,
{
    if outcomes(attempt as int) || attempt >= 8 {
        attempt
    } else {
        attempts_made(outcomes, attempt + 1)
    }
}

/// A download ends after the first attempt that succeeds, or after the last one allowed.
pub proof fn lemma_attempts_bounded(outcomes: spec_fn(int) -> bool, attempt: nat)
    requires
        1 <= attempt <= MAX_ATTEMPTS,
    ensures
        attempt <= attempts_made(outcomes, attempt) <= MAX_ATTEMPTS,
        outcomes(attempts_made(outcomes, attempt) as int) || attempts_made(outcomes, attempt)
            == MAX_ATTEMPTS,
        forall|k: int| attempt <= k < attempts_made(outcomes, attempt) ==> !#[trigger] outcomes(k),
    decreases 8 - attempt,
{
    if !(outcomes(attempt as int) || attempt >= 8) {
        lemma_attempts_bounded(outcomes, attempt + 1);
    }
}

// ---------------------------------------------------------------------------
// Requests and responses
// ---------------------------------------------------------------------------

/// The range to ask for: what follows the bytes that are there, or everything.
pub fn range_header(offset: u64) -> (r: Option<String>)
    ensures
        offset == 0 ==> r is None,
        offset > 0 ==> (r matches Some(h) && h@ == "bytes="@ + decimal(offset as nat) + "-"@),
{
    if offset > 0 {
        Some(joined3("bytes=", decimal_string(offset).as_str(), "-"))
    } else {
        None
    }
}

/// What to do with a response.
#[derive(Clone, Copy, PartialEq, Eq, Structural, Debug)]
pub enum ResponseStep {
    /// Nothing is missing.
    Complete,
    /// The server refuses.
    Refused,
    /// Append the body to the bytes that are there.
    Append,
    /// Drop the bytes that are there and write the body.
    Rewrite,
}

/// What to do with the response to a request made with `offset` bytes at hand: an unsatisfiable
/// range means that nothing is missing; a whole file in place of a range is written afresh.
pub fn on_response(offset: u64, status: i32) -> (r: ResponseStep)
    ensures
        r == (if offset > 0 && status == 416 {
            ResponseStep::Complete
        } else if status != 200 && status != 206 {
            ResponseStep::Refused
        } else if offset > 0 && status == 200 {
            ResponseStep::Rewrite
        } else {
            ResponseStep::Append
        }),
{
    if offset > 0 && status == 416 {
        return ResponseStep::Complete;
    }
    if status != 200 && status != 206 {
        return ResponseStep::Refused;
    }
    if offset > 0 && status != 206 {
        ResponseStep::Rewrite
    } else {
        ResponseStep::Append
    }
}

/// The size of the whole file: what follows the slash of the content range of a partial response,
/// else the content length.
pub open spec fn full_size_spec(
    status: int,
    range: Option<Seq<char>>,
    length: Option<Seq<char>>,
) -> Option<u64> {
    if status == 206 {
        match range {
            Some(v) => u64_value(trimmed(after_last_spec(v, '/'))),
            None => None,
        }
    } else {
        match length {
            Some(v) => u64_value(v),
            None => None,
        }
    }
}

/// The size of the whole file, if the response tells it.
pub fn full_size(status: i32, range: &Option<String>, length: &Option<String>) -> (r: Option<u64>)
    ensures
        r == full_size_spec(status as int, text_view(*range), text_view(*length)),
{
    if status == 206 {
        match range {
            Some(v) => parse_u64(trim(after_last(v.as_str(), '/').as_str()).as_str()),
            None => None,
        }
    } else {
        match length {
            Some(v) => parse_u64(v.as_str()),
            None => None,
        }
    }
}

/// The size of the whole is what stands after the slash of a range, on a partial response, and the
/// length of the body on any other.
pub proof fn lemma_full_size(status: int, head: Seq<char>, n: u64, range: Option<Seq<char>>)
    ensures
        full_size_spec(206, Some(head + seq!['/'] + decimal(n as nat)), range) == Some(n),
        status != 206 ==> full_size_spec(status, range, Some(decimal(n as nat))) == Some(n),
        full_size_spec(206, None, range) is None,
        status != 206 ==> full_size_spec(status, range, None) is None,
{
    let d = decimal(n as nat);
    let s = head + seq!['/'] + d;
    crate::text::lemma_u64_reads_back(n);
    crate::text::lemma_decimal_reads_back(n as nat);
    crate::text::lemma_after_last(s, '/');
    let t = after_last_spec(s, '/');
    let k = s.len() - t.len();
    assert(s == s.take(k) + t);
    if k <= head.len() {
        assert(t[head.len() - k] == s[head.len() as int]);
        assert(t.contains('/'));
    } else if k > head.len() + 1 {
        let j = k - 1 - head.len() - 1;
        assert(s[k - 1] == d[j]);
        assert(crate::text::is_digit_char(d[j]));
    }
    assert(k == head.len() + 1);
    assert(s.skip(k) =~= t);
    assert(t =~= d);
    let (a, b) = crate::text::lemma_trim(d);
    if a > 0 {
        assert(crate::text::is_white(d[0]));
        assert(crate::text::is_digit_char(d[0]));
    }
    if b < d.len() {
        assert(crate::text::is_white(d[d.len() - 1]));
        assert(crate::text::is_digit_char(d[d.len() - 1]));
    }
    assert(d.subrange(0, d.len() as int) =~= d);
}

} // verus!

//! Decisions of the cursor-following fetch engine.
//!
//! Everything an upstream exchange needs that can be computed is here:
//! the request URL and token request body, the dispatch on a response's
//! status code, and the backoff step.  Sending the requests, the
//! per-attempt timeout and the retry loop around these decisions are
//! the caller's, since they are nothing but waiting.

use vstd::prelude::*;

use crate::digits::{append_bytes, dec_digits, u64_to_dec};
use crate::search::{matches_at, rfind_subslice};

verus! {

/// Outcome of one fetch call, as handed to the polling loop.
#[derive(Clone, Copy, PartialEq, Eq, Debug, Default)]
pub enum FetchResult {
    /// The page was fetched and its records were merged.
    #[default]
    Fetched,
    /// The upstream reported the cursor as too old to page from.
    CursorTooOld,
}

/// The scores endpoint.  The bytes of `https://osu.ppy.sh/api/v2/scores`.
pub open spec fn scores_base() -> Seq<u8> {
    seq![104u8, 116u8, 116u8, 112u8, 115u8, 58u8, 47u8, 47u8, 111u8, 115u8, 117u8, 46u8, 112u8, 112u8, 121u8, 46u8, 115u8, 104u8, 47u8, 97u8, 112u8, 105u8, 47u8, 118u8, 50u8, 47u8, 115u8, 99u8, 111u8, 114u8, 101u8, 115u8]
}

/// The query that filters by ruleset.  The bytes of `?ruleset=`.
pub open spec fn ruleset_query() -> Seq<u8> {
    seq![63u8, 114u8, 117u8, 108u8, 101u8, 115u8, 101u8, 116u8, 61u8]
}

/// The query key that pages by cursor id.  The bytes of `cursor[id]=`.
pub open spec fn cursor_query() -> Seq<u8> {
    seq![99u8, 117u8, 114u8, 115u8, 111u8, 114u8, 91u8, 105u8, 100u8, 93u8, 61u8]
}

/// The error body marking a stale cursor.  The bytes of `"error":"cursor is too old"`.
pub open spec fn too_old_needle() -> Seq<u8> {
    seq![34u8, 101u8, 114u8, 114u8, 111u8, 114u8, 34u8, 58u8, 34u8, 99u8, 117u8, 114u8, 115u8, 111u8, 114u8, 32u8, 105u8, 115u8, 32u8, 116u8, 111u8, 111u8, 32u8, 111u8, 108u8, 100u8, 34u8]
}

/// The client id key of the token request body.  The bytes of `client_id=`.
pub open spec fn body_head() -> Seq<u8> {
    seq![99u8, 108u8, 105u8, 101u8, 110u8, 116u8, 95u8, 105u8, 100u8, 61u8]
}

/// The client secret key of the token request body.  The bytes of `&client_secret=`.
pub open spec fn body_secret_key() -> Seq<u8> {
    seq![38u8, 99u8, 108u8, 105u8, 101u8, 110u8, 116u8, 95u8, 115u8, 101u8, 99u8, 114u8, 101u8, 116u8, 61u8]
}

/// The fixed grant and scope of the token request body.  The bytes of `&grant_type=client_credentials&scope=public`.
pub open spec fn body_tail() -> Seq<u8> {
    seq![38u8, 103u8, 114u8, 97u8, 110u8, 116u8, 95u8, 116u8, 121u8, 112u8, 101u8, 61u8, 99u8, 108u8, 105u8, 101u8, 110u8, 116u8, 95u8, 99u8, 114u8, 101u8, 100u8, 101u8, 110u8, 116u8, 105u8, 97u8, 108u8, 115u8, 38u8, 115u8, 99u8, 111u8, 112u8, 101u8, 61u8, 112u8, 117u8, 98u8, 108u8, 105u8, 99u8]
}

/// The URL of a scores request: the endpoint, a ruleset filter if one
/// is configured, and the cursor id if one is set.
pub open spec fn scores_url_spec(ruleset: Option<Seq<u8>>, cursor: Option<u64>) -> Seq<u8> {
    let base = scores_base() + match ruleset {
        Some(rs) => ruleset_query() + rs,
        None => Seq::<u8>::empty(),
    };
    match cursor {
        Some(c) => base + (if ruleset is Some {
            seq![38u8]
        } else {
            seq![63u8]
        }) + cursor_query() + dec_digits(c as nat),
        None => base,
    }
}

/// The form body of a token request.
pub open spec fn token_body_spec(client_id: u64, client_secret: Seq<u8>) -> Seq<u8> {
    body_head() + dec_digits(client_id as nat) + body_secret_key() + client_secret + body_tail()
}

fn scores_base_vec() -> (r: Vec<u8>)
    ensures
        r@ == scores_base(),
{
    let mut v: Vec<u8> = Vec::new();
    v.push(104);
    v.push(116);
    v.push(116);
    v.push(112);
    v.push(115);
    v.push(58);
    v.push(47);
    v.push(47);
    v.push(111);
    v.push(115);
    v.push(117);
    v.push(46);
    v.push(112);
    v.push(112);
    v.push(121);
    v.push(46);
    v.push(115);
    v.push(104);
    v.push(47);
    v.push(97);
    v.push(112);
    v.push(105);
    v.push(47);
    v.push(118);
    v.push(50);
    v.push(47);
    v.push(115);
    v.push(99);
    v.push(111);
    v.push(114);
    v.push(101);
    v.push(115);
    proof {
        assert(v@ =~= scores_base());
    }
    v
}

fn ruleset_query_vec() -> (r: Vec<u8>)
    ensures
        r@ == ruleset_query(),
{
    let mut v: Vec<u8> = Vec::new();
    v.push(63);
    v.push(114);
    v.push(117);
    v.push(108);
    v.push(101);
    v.push(115);
    v.push(101);
    v.push(116);
    v.push(61);
    proof {
        assert(v@ =~= ruleset_query());
    }
    v
}

fn cursor_query_vec() -> (r: Vec<u8>)
    ensures
        r@ == cursor_query(),
{
    let mut v: Vec<u8> = Vec::new();
    v.push(99);
    v.push(117);
    v.push(114);
    v.push(115);
    v.push(111);
    v.push(114);
    v.push(91);
    v.push(105);
    v.push(100);
    v.push(93);
    v.push(61);
    proof {
        assert(v@ =~= cursor_query());
    }
    v
}

fn too_old_needle_vec() -> (r: Vec<u8>)
    ensures
        r@ == too_old_needle(),
{
    let mut v: Vec<u8> = Vec::new();
    v.push(34);
    v.push(101);
    v.push(114);
    v.push(114);
    v.push(111);
    v.push(114);
    v.push(34);
    v.push(58);
    v.push(34);
    v.push(99);
    v.push(117);
    v.push(114);
    v.push(115);
    v.push(111);
    v.push(114);
    v.push(32);
    v.push(105);
    v.push(115);
    v.push(32);
    v.push(116);
    v.push(111);
    v.push(111);
    v.push(32);
    v.push(111);
    v.push(108);
    v.push(100);
    v.push(34);
    proof {
        assert(v@ =~= too_old_needle());
    }
    v
}

fn body_head_vec() -> (r: Vec<u8>)
    ensures
        r@ == body_head(),
{
    let mut v: Vec<u8> = Vec::new();
    v.push(99);
    v.push(108);
    v.push(105);
    v.push(101);
    v.push(110);
    v.push(116);
    v.push(95);
    v.push(105);
    v.push(100);
    v.push(61);
    proof {
        assert(v@ =~= body_head());
    }
    v
}

fn body_secret_key_vec() -> (r: Vec<u8>)
    ensures
        r@ == body_secret_key(),
{
    let mut v: Vec<u8> = Vec::new();
    v.push(38);
    v.push(99);
    v.push(108);
    v.push(105);
    v.push(101);
    v.push(110);
    v.push(116);
    v.push(95);
    v.push(115);
    v.push(101);
    v.push(99);
    v.push(114);
    v.push(101);
    v.push(116);
    v.push(61);
    proof {
        assert(v@ =~= body_secret_key());
    }
    v
}

fn body_tail_vec() -> (r: Vec<u8>)
    ensures
        r@ == body_tail(),
{
    let mut v: Vec<u8> = Vec::new();
    v.push(38);
    v.push(103);
    v.push(114);
    v.push(97);
    v.push(110);
    v.push(116);
    v.push(95);
    v.push(116);
    v.push(121);
    v.push(112);
    v.push(101);
    v.push(61);
    v.push(99);
    v.push(108);
    v.push(105);
    v.push(101);
    v.push(110);
    v.push(116);
    v.push(95);
    v.push(99);
    v.push(114);
    v.push(101);
    v.push(100);
    v.push(101);
    v.push(110);
    v.push(116);
    v.push(105);
    v.push(97);
    v.push(108);
    v.push(115);
    v.push(38);
    v.push(115);
    v.push(99);
    v.push(111);
    v.push(112);
    v.push(101);
    v.push(61);
    v.push(112);
    v.push(117);
    v.push(98);
    v.push(108);
    v.push(105);
    v.push(99);
    proof {
        assert(v@ =~= body_tail());
    }
    v
}

/// Builds the scores request URL, as `scores_url_spec` states.
pub fn scores_url(ruleset: Option<&Vec<u8>>, cursor: Option<u64>) -> (r: Vec<u8>)
    ensures
        r@ == scores_url_spec(
            match ruleset {
                Some(rs) => Some(rs@),
                None => None,
            },
            cursor,
        ),
{
    let mut v = scores_base_vec();
    match ruleset {
        Some(rs) => {
            let q = ruleset_query_vec();
            append_bytes(&mut v, q.as_slice());
            append_bytes(&mut v, rs.as_slice());
        },
        None => {},
    }
    match cursor {
        Some(c) => {
            match ruleset {
                Some(_) => v.push(38),
                None => v.push(63),
            }
            let q = cursor_query_vec();
            append_bytes(&mut v, q.as_slice());
            let d = u64_to_dec(c);
            append_bytes(&mut v, d.as_slice());
            proof {
                assert(v@ =~= scores_url_spec(
                    match ruleset {
                        Some(rs) => Some(rs@),
                        None => None,
                    },
                    cursor,
                ));
            }
        },
        None => {},
    }
    v
}

/// Builds the token request body, as `token_body_spec` states.
pub fn token_request_body(client_id: u64, client_secret: &Vec<u8>) -> (r: Vec<u8>)
    ensures
        r@ == token_body_spec(client_id, client_secret@),
{
    let mut v = body_head_vec();
    let d = u64_to_dec(client_id);
    append_bytes(&mut v, d.as_slice());
    let k = body_secret_key_vec();
    append_bytes(&mut v, k.as_slice());
    append_bytes(&mut v, client_secret.as_slice());
    let t = body_tail_vec();
    append_bytes(&mut v, t.as_slice());
    proof {
        assert(v@ =~= token_body_spec(client_id, client_secret@));
    }
    v
}

/// What the fetch engine does with a scores response.
#[derive(Clone, Copy, PartialEq, Eq, Debug)]
pub enum ScoresStep {
    /// 200: parse the body and merge its records.
    Parse,
    /// A first 401: reauthorize, then retry the fetch once.
    Reauthorize,
    /// A 401 right after reauthorizing: fatal for this call.
    FatalAfterReauth,
    /// 422 naming a stale cursor: expected, ends the call.
    CursorTooOld,
    /// 429: fatal for this call.
    FatalRateLimited,
    /// 503: fatal for this call.
    FatalUnavailable,
    /// Any other status: fatal for this call.
    FatalStatus,
}

/// Whether a response body names a stale cursor.
pub open spec fn body_reports_stale_cursor(body: Seq<u8>) -> bool {
    exists|j: int| matches_at(body, too_old_needle(), j)
}

/// The dispatch on a scores response.
pub open spec fn classify_scores_spec(status: u16, body: Seq<u8>, just_authorized: bool) -> ScoresStep {
    if status == 200 {
        ScoresStep::Parse
    } else if status == 401 {
        if just_authorized {
            ScoresStep::FatalAfterReauth
        } else {
            ScoresStep::Reauthorize
        }
    } else if status == 422 && body_reports_stale_cursor(body) {
        ScoresStep::CursorTooOld
    } else if status == 429 {
        ScoresStep::FatalRateLimited
    } else if status == 503 {
        ScoresStep::FatalUnavailable
    } else {
        ScoresStep::FatalStatus
    }
}

/// Dispatches on a scores response, as `classify_scores_spec` states.
pub fn classify_scores_response(status: u16, body: &[u8], just_authorized: bool) -> (r: ScoresStep)
    ensures
        r == classify_scores_spec(status, body@, just_authorized),
{
    if status == 200 {
        ScoresStep::Parse
    } else if status == 401 {
        if just_authorized {
            ScoresStep::FatalAfterReauth
        } else {
            ScoresStep::Reauthorize
        }
    } else if status == 422 {
        let needle = too_old_needle_vec();
        match rfind_subslice(body, needle.as_slice()) {
            Some(_) => ScoresStep::CursorTooOld,
            None => {
                proof {
                    assert(!body_reports_stale_cursor(body@));
                }
                classify_rest(status)
            },
        }
    } else {
        classify_rest(status)
    }
}

fn classify_rest(status: u16) -> (r: ScoresStep)
    requires
        status != 200 && status != 401,
    ensures
        r == if status == 429 {
            ScoresStep::FatalRateLimited
        } else if status == 503 {
            ScoresStep::FatalUnavailable
        } else {
            ScoresStep::FatalStatus
        },
{
    if status == 429 {
        ScoresStep::FatalRateLimited
    } else if status == 503 {
        ScoresStep::FatalUnavailable
    } else {
        ScoresStep::FatalStatus
    }
}

/// What the fetch engine does with a token response.
#[derive(Clone, Copy, PartialEq, Eq, Debug)]
pub enum TokenStep {
    /// 200: parse the body and store the new token.
    Store,
    /// 401: the configured credentials are invalid.
    FatalUnauthorized,
    /// 429: fatal for this call.
    FatalRateLimited,
    /// 503: fatal for this call.
    FatalUnavailable,
    /// Any other status: fatal for this call.
    FatalStatus,
}

/// The dispatch on a token response.
pub open spec fn classify_token_spec(status: u16) -> TokenStep {
    if status == 200 {
        TokenStep::Store
    } else if status == 401 {
        TokenStep::FatalUnauthorized
    } else if status == 429 {
        TokenStep::FatalRateLimited
    } else if status == 503 {
        TokenStep::FatalUnavailable
    } else {
        TokenStep::FatalStatus
    }
}

/// Dispatches on a token response, as `classify_token_spec` states.
pub fn classify_token_response(status: u16) -> (r: TokenStep)
    ensures
        r == classify_token_spec(status),
{
    if status == 200 {
        TokenStep::Store
    } else if status == 401 {
        TokenStep::FatalUnauthorized
    } else if status == 429 {
        TokenStep::FatalRateLimited
    } else if status == 503 {
        TokenStep::FatalUnavailable
    } else {
        TokenStep::FatalStatus
    }
}

/// The next retry delay: doubled, capped at 120 seconds.
pub fn next_backoff(b: u64) -> (r: u64)
    ensures
        r == if 2 * (b as int) >= 120 {
            120int
        } else {
            2 * (b as int)
        },
{
    if b >= 60 {
        120
    } else {
        b * 2
    }
}

/// Law: a fetch that is answered 401 reauthorizes exactly once.  The
/// first 401 leads to reauthorization and a single retry; a 401 on the
/// retried call is fatal for the call, whatever the bodies hold.
pub proof fn lemma_single_reauthorization(body1: Seq<u8>, body2: Seq<u8>)
    ensures
        classify_scores_spec(401, body1, false) == ScoresStep::Reauthorize,
        classify_scores_spec(401, body2, true) == ScoresStep::FatalAfterReauth,
{
}

} // verus!

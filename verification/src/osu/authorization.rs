//! The bearer token handed to every upstream request.
//!
//! The token endpoint answers with a JSON body holding an
//! `"access_token"` entry; the value between its quotes, prefixed with
//! `Bearer `, becomes the authorization header for later requests.

use vstd::prelude::*;

use crate::search::{
    byte_pos_from, find_byte, find_subslice, lemma_byte_pos_found, lemma_byte_pos_none,
    lemma_match_pos_found, lemma_match_pos_none, match_pos_from,
};

verus! {

/// The key `"access_token":` as bytes.
pub open spec fn token_needle() -> Seq<u8> {
    seq![
        34u8,
        97u8,
        99u8,
        99u8,
        101u8,
        115u8,
        115u8,
        95u8,
        116u8,
        111u8,
        107u8,
        101u8,
        110u8,
        34u8,
        58u8,
    ]
}

/// The bytes of `Bearer `.
pub open spec fn bearer_prefix() -> Seq<u8> {
    seq![66u8, 101u8, 97u8, 114u8, 101u8, 114u8, 32u8]
}

/// Ways a token response can be malformed.
#[derive(Clone, Copy, PartialEq, Eq, Debug)]
pub enum AuthError {
    /// The body holds no `"access_token":` key.
    MissingToken,
    /// No quoted value follows the key.
    MissingQuotes,
    /// The quoted value is not a valid UTF-8 string.
    InvalidUtf8,
}

/// The token of a response body: the bytes between the first pair of
/// quotes after the first `"access_token":` key, which must form a
/// valid UTF-8 string.
pub open spec fn token_of(s: Seq<u8>) -> Result<Seq<u8>, AuthError> {
    let k = match_pos_from(s, token_needle(), 0);
    if k >= s.len() {
        Err(AuthError::MissingToken)
    } else {
        let q1 = byte_pos_from(s, 34, k + 15);
        if q1 >= s.len() {
            Err(AuthError::MissingQuotes)
        } else {
            let q2 = byte_pos_from(s, 34, q1 + 1);
            if q2 >= s.len() {
                Err(AuthError::MissingQuotes)
            } else if !vstd::utf8::valid_utf8(s.subrange(q1 + 1, q2)) {
                Err(AuthError::InvalidUtf8)
            } else {
                Ok(s.subrange(q1 + 1, q2))
            }
        }
    }
}

/// Whether `bytes` form a valid UTF-8 encoding, as vstd's `valid_utf8`
/// states: each position starts a well-formed scalar encoding that is
/// neither overlong nor in the surrogate range.
pub fn is_valid_utf8(bytes: &[u8]) -> (r: bool)
    ensures
        r == vstd::utf8::valid_utf8(bytes@),
{
    let ghost t = bytes@;
    let len = bytes.len();
    let mut i: usize = 0;
    while i < len
        invariant
            i <= len,
            len == t.len(),
            t == bytes@,
            vstd::utf8::partial_valid_utf8(t, i as int),
        decreases len - i,
    {
        let ghost rest = t.subrange(i as int, len as int);
        proof {
            assert(rest.len() == len - i);
            assert(rest[0] == t[i as int]);
        }
        let b0 = bytes[i];
        let width: usize = if b0 <= 0x7f {
            proof {
                assert(b0 & 0x7f == b0) by (bit_vector)
                    requires
                        b0 <= 0x7f,
                ;
                assert(vstd::utf8::decode_first_codepoint(rest) == b0 as u32);
                assert(vstd::utf8::valid_first_scalar(rest));
                assert(vstd::utf8::length_of_first_scalar(rest) == 1);
            }
            1
        } else if 0xc0 <= b0 && b0 <= 0xdf {
            if i + 1 >= len || !is_continuation(bytes[i + 1]) {
                proof {
                    reject(t, i as int);
                }
                return false;
            }
            let b1 = bytes[i + 1];
            let ghost cp: u32 = (((b0 & 0x1f) as u32) << 6) | ((b1 & 0x3f) as u32);
            proof {
                assert(rest[1] == b1);
                assert(vstd::utf8::decode_first_codepoint(rest) == cp);
                assert(vstd::utf8::length_of_first_codepoint(rest) == 2);
            }
            if b0 < 0xc2 {
                proof {
                    assert(cp < 0x80) by (bit_vector)
                        requires
                            cp == (((b0 & 0x1f) as u32) << 6) | ((b1 & 0x3f) as u32) && 0xc0 <= b0
                                <= 0xc1,
                    ;
                    reject(t, i as int);
                }
                return false;
            }
            proof {
                assert(0x80 <= cp && cp <= 0x7ff) by (bit_vector)
                    requires
                        cp == (((b0 & 0x1f) as u32) << 6) | ((b1 & 0x3f) as u32) && 0xc2 <= b0
                            <= 0xdf,
                ;
                assert(vstd::utf8::valid_first_scalar(rest));
                assert(vstd::utf8::length_of_first_scalar(rest) == 2);
            }
            2
        } else if 0xe0 <= b0 && b0 <= 0xef {
            if len - i < 3 || !is_continuation(bytes[i + 1]) || !is_continuation(bytes[i + 2]) {
                proof {
                    reject(t, i as int);
                }
                return false;
            }
            let b1 = bytes[i + 1];
            let b2 = bytes[i + 2];
            let ghost cp: u32 = (((b0 & 0x0f) as u32) << 12) | (((b1 & 0x3f) as u32) << 6) | ((b2
                & 0x3f) as u32);
            proof {
                assert(rest[1] == b1 && rest[2] == b2);
                assert(vstd::utf8::decode_first_codepoint(rest) == cp);
                assert(vstd::utf8::length_of_first_codepoint(rest) == 3);
            }
            if b0 == 0xe0 && b1 < 0xa0 {
                proof {
                    assert(cp < 0x800) by (bit_vector)
                        requires
                            cp == (((b0 & 0x0f) as u32) << 12) | (((b1 & 0x3f) as u32) << 6) | ((b2
                                & 0x3f) as u32) && b0 == 0xe0 && 0x80 <= b1 && b1 < 0xa0,
                    ;
                    reject(t, i as int);
                }
                return false;
            }
            if b0 == 0xed && b1 >= 0xa0 {
                proof {
                    assert(0xd800 <= cp && cp <= 0xdfff) by (bit_vector)
                        requires
                            cp == (((b0 & 0x0f) as u32) << 12) | (((b1 & 0x3f) as u32) << 6) | ((b2
                                & 0x3f) as u32) && b0 == 0xed && 0xa0 <= b1 <= 0xbf,
                    ;
                    reject(t, i as int);
                }
                return false;
            }
            proof {
                assert(0x800 <= cp && !(0xd800 <= cp && cp <= 0xdfff)) by (bit_vector)
                    requires
                        cp == (((b0 & 0x0f) as u32) << 12) | (((b1 & 0x3f) as u32) << 6) | ((b2
                            & 0x3f) as u32) && 0xe0 <= b0 <= 0xef && 0x80 <= b1 <= 0xbf && !(b0
                            == 0xe0 && b1 < 0xa0) && !(b0 == 0xed && b1 >= 0xa0),
                ;
                assert(vstd::utf8::valid_first_scalar(rest));
                assert(vstd::utf8::length_of_first_scalar(rest) == 3);
            }
            3
        } else if 0xf0 <= b0 && b0 <= 0xf7 {
            if len - i < 4 || !is_continuation(bytes[i + 1]) || !is_continuation(bytes[i + 2])
                || !is_continuation(bytes[i + 3]) {
                proof {
                    reject(t, i as int);
                }
                return false;
            }
            let b1 = bytes[i + 1];
            let b2 = bytes[i + 2];
            let b3 = bytes[i + 3];
            let ghost cp: u32 = (((b0 & 0x07) as u32) << 18) | (((b1 & 0x3f) as u32) << 12) | (((b2
                & 0x3f) as u32) << 6) | ((b3 & 0x3f) as u32);
            proof {
                assert(rest[1] == b1 && rest[2] == b2 && rest[3] == b3);
                assert(vstd::utf8::decode_first_codepoint(rest) == cp);
                assert(vstd::utf8::length_of_first_codepoint(rest) == 4);
            }
            if (b0 == 0xf0 && b1 < 0x90) || b0 >= 0xf5 || (b0 == 0xf4 && b1 >= 0x90) {
                proof {
                    assert(!(0x10000 <= cp && cp <= 0x10ffff)) by (bit_vector)
                        requires
                            cp == (((b0 & 0x07) as u32) << 18) | (((b1 & 0x3f) as u32) << 12) | ((
                            (b2 & 0x3f) as u32) << 6) | ((b3 & 0x3f) as u32) && 0xf0 <= b0 <= 0xf7
                                && 0x80 <= b1 <= 0xbf && ((b0 == 0xf0 && b1 < 0x90) || b0 >= 0xf5
                                || (b0 == 0xf4 && b1 >= 0x90)),
                    ;
                    reject(t, i as int);
                }
                return false;
            }
            proof {
                assert(0x10000 <= cp && cp <= 0x10ffff) by (bit_vector)
                    requires
                        cp == (((b0 & 0x07) as u32) << 18) | (((b1 & 0x3f) as u32) << 12) | (((b2
                            & 0x3f) as u32) << 6) | ((b3 & 0x3f) as u32) && 0xf0 <= b0 <= 0xf7
                            && 0x80 <= b1 <= 0xbf && !((b0 == 0xf0 && b1 < 0x90) || b0 >= 0xf5 || (
                        b0 == 0xf4 && b1 >= 0x90)),
                ;
                assert(vstd::utf8::valid_first_scalar(rest));
                assert(vstd::utf8::length_of_first_scalar(rest) == 4);
            }
            4
        } else {
            proof {
                reject(t, i as int);
            }
            return false;
        };
        proof {
            vstd::utf8::partial_valid_utf8_extend(t, i as int);
        }
        i = i + width;
    }
    proof {
        assert(t.subrange(0, len as int) =~= t);
    }
    true
}

/// Whether a byte has the continuation form `10xxxxxx`.
fn is_continuation(b: u8) -> (r: bool)
    ensures
        r == vstd::utf8::is_continuation_byte(b),
{
    0x80 <= b && b <= 0xbf
}

/// A byte run whose head is no well-formed scalar encoding is not
/// valid UTF-8, and neither is anything it ends.
proof fn reject(t: Seq<u8>, i: int)
    requires
        vstd::utf8::partial_valid_utf8(t, i),
        i < t.len(),
        !vstd::utf8::valid_first_scalar(t.subrange(i, t.len() as int)),
    ensures
        !vstd::utf8::valid_utf8(t),
{
    let rest = t.subrange(i, t.len() as int);
    assert(rest.len() > 0);
    assert(!vstd::utf8::valid_utf8(rest));
    vstd::utf8::partial_valid_partial_invalid_utf8(t, i);
}

fn token_needle_vec() -> (r: Vec<u8>)
    ensures
        r@ == token_needle(),
{
    let mut v: Vec<u8> = Vec::new();
    v.push(34);
    v.push(97);
    v.push(99);
    v.push(99);
    v.push(101);
    v.push(115);
    v.push(115);
    v.push(95);
    v.push(116);
    v.push(111);
    v.push(107);
    v.push(101);
    v.push(110);
    v.push(34);
    v.push(58);
    proof {
        assert(v@ =~= token_needle());
    }
    v
}

/// The authorization header value.  Empty before the first successful
/// parse; afterwards `Bearer ` followed by the latest token.
pub struct Authorization {
    value: Vec<u8>,
}

impl View for Authorization {
    type V = Seq<u8>;

    closed spec fn view(&self) -> Seq<u8> {
        self.value@
    }
}

impl Default for Authorization {
    fn default() -> (r: Authorization)
        ensures
            r@ == Seq::<u8>::empty(),
    {
        let r = Authorization { value: Vec::new() };
        proof {
            assert(r@ =~= Seq::<u8>::empty());
        }
        r
    }
}

impl Authorization {
    /// The current header value.
    pub fn as_bytes(&self) -> (r: &[u8])
        ensures
            r@ == self@,
    {
        self.value.as_slice()
    }

    /// Reads the token out of a token response body and stores it as
    /// the new header value; a malformed body changes nothing.
    pub fn parse(&mut self, bytes: &[u8]) -> (r: Result<(), AuthError>)
        ensures
            ({
                match token_of(bytes@) {
                    Ok(tok) => r is Ok && final(self)@ == bearer_prefix() + tok,
                    Err(e) => r == Err::<(), AuthError>(e) && final(self)@ == old(self)@,
                }
            }),
    {
        let ghost s = bytes@;
        let len = bytes.len();
        let needle = token_needle_vec();
        let k: usize = match find_subslice(bytes, needle.as_slice()) {
            None => {
                proof {
                    lemma_match_pos_none(s, token_needle(), 0);
                }
                return Err(AuthError::MissingToken);
            },
            Some(k) => {
                proof {
                    lemma_match_pos_found(s, token_needle(), 0, k as int);
                }
                k
            },
        };
        proof {
            assert(token_needle().len() == 15);
            assert(k + 15 <= len);
        }
        let q1: usize = match find_byte(34, &bytes[k + 15..len]) {
            None => {
                proof {
                    assert forall|j: int| k + 15 <= j < len implies s[j] != 34 by {
                        assert(s.subrange(k as int + 15, len as int)[j - (k + 15)] == s[j]);
                    }
                    lemma_byte_pos_none(s, 34, k as int + 15);
                }
                return Err(AuthError::MissingQuotes);
            },
            Some(o) => {
                let q1 = k + 15 + o;
                proof {
                    assert forall|j: int| k + 15 <= j < q1 implies s[j] != 34 by {
                        assert(s.subrange(k as int + 15, len as int)[j - (k + 15)] == s[j]);
                    }
                    assert(s.subrange(k as int + 15, len as int)[q1 - (k + 15)] == s[q1 as int]);
                    lemma_byte_pos_found(s, 34, k as int + 15, q1 as int);
                }
                q1
            },
        };
        let q2: usize = match find_byte(34, &bytes[q1 + 1..len]) {
            None => {
                proof {
                    assert forall|j: int| q1 + 1 <= j < len implies s[j] != 34 by {
                        assert(s.subrange(q1 as int + 1, len as int)[j - (q1 + 1)] == s[j]);
                    }
                    lemma_byte_pos_none(s, 34, q1 as int + 1);
                }
                return Err(AuthError::MissingQuotes);
            },
            Some(o) => {
                let q2 = q1 + 1 + o;
                proof {
                    assert forall|j: int| q1 + 1 <= j < q2 implies s[j] != 34 by {
                        assert(s.subrange(q1 as int + 1, len as int)[j - (q1 + 1)] == s[j]);
                    }
                    assert(s.subrange(q1 as int + 1, len as int)[q2 - (q1 + 1)] == s[q2 as int]);
                    lemma_byte_pos_found(s, 34, q1 as int + 1, q2 as int);
                }
                q2
            },
        };
        if !is_valid_utf8(&bytes[q1 + 1..q2]) {
            return Err(AuthError::InvalidUtf8);
        }
        let mut value: Vec<u8> = Vec::new();
        value.push(66);
        value.push(101);
        value.push(97);
        value.push(114);
        value.push(101);
        value.push(114);
        value.push(32);
        proof {
            assert(value@ =~= bearer_prefix());
        }
        crate::digits::append_bytes(&mut value, &bytes[q1 + 1..q2]);
        self.value = value;
        Ok(())
    }
}

} // verus!

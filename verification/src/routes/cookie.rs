//! The `recipe` cookie of `/7/...`: its value after the first `=`, decoded
//! from standard base64.
use vstd::prelude::*;

use base64::Engine;
use vstd::string::StringSliceAdditionalSpecFns;

use crate::bakery::RecipeParseError;

verus! {

#[verifier::external_type_specification]
#[verifier::external_body]
pub struct ExDecodeError(base64::DecodeError);

/// What `base64::engine::general_purpose::STANDARD` decodes `input` to, or
/// `None` when it refuses it.
pub uninterp spec fn base64_standard_decode(input: Seq<u8>) -> Option<Seq<u8>>;

/// Calls `base64::Engine::decode` of the standard engine
/// (`base64::engine::general_purpose::STANDARD`: standard alphabet, canonical
/// padding required). Claimed: it succeeds exactly when
/// [`base64_standard_decode`] of the input is some bytes, and then returns
/// those bytes. The decoding itself is left to the name.
#[verifier::external_body]
fn decode_standard(input: &[u8]) -> (r: Result<Vec<u8>, base64::DecodeError>)
    ensures
        r is Ok <==> base64_standard_decode(input@) is Some,
        r matches Ok(v) ==> v@ == base64_standard_decode(input@).unwrap(),
{
    base64::engine::general_purpose::STANDARD.decode(input)
}

/// The index of the first `b` in `s`, or `s.len()` when there is none.
pub open spec fn first_byte_index(s: Seq<u8>, b: u8) -> int
    decreases s.len(),
{
    if s.len() == 0 {
        0
    } else if s[0] == b {
        0
    } else {
        1 + first_byte_index(s.drop_first(), b)
    }
}

/// The value of a cookie written `name=value`: the bytes after its first `=`,
/// or `None` when it has none.
pub open spec fn cookie_value(cookie: Seq<u8>) -> Option<Seq<u8>> {
    let i = first_byte_index(cookie, 61);
    if 0 <= i < cookie.len() {
        Some(cookie.subrange(i + 1, cookie.len() as int))
    } else {
        None
    }
}

/// What the recipe cookie decodes to, or why it decodes to nothing.
pub open spec fn decoded_recipe(cookie: Seq<u8>) -> Result<Seq<u8>, RecipeParseError> {
    match cookie_value(cookie) {
        None => Err(RecipeParseError::BadlyFormedCookie),
        Some(value) => match base64_standard_decode(value) {
            None => Err(RecipeParseError::Base64Decode),
            Some(bytes) => Ok(bytes),
        },
    }
}

proof fn lemma_first_byte_index_at(s: Seq<u8>, b: u8, k: int)
    requires
        0 <= k <= s.len(),
        forall|m: int| 0 <= m < k ==> s[m] != b,
        k < s.len() ==> s[k] == b,
    ensures
        first_byte_index(s, b) == k,
    decreases s.len(),
{
    if s.len() > 0 && k > 0 {
        assert forall|m: int| 0 <= m < k - 1 implies s.drop_first()[m] != b by {
            assert(s.drop_first()[m] == s[m + 1]);
        }
        lemma_first_byte_index_at(s.drop_first(), b, k - 1);
    }
}

/// A cookie's value is what follows its first `=`: a name free of `=`, then
/// `=`, then any bytes, has exactly those bytes as its value; a cookie without
/// `=` has none.
pub proof fn law_cookie_value_after_first_equals(name: Seq<u8>, value: Seq<u8>)
    requires
        forall|k: int| 0 <= k < name.len() ==> #[trigger] name[k] != 61,
    ensures
        cookie_value(name + seq![61u8] + value) == Some(value),
        cookie_value(name) is None,
{
    let c = name + seq![61u8] + value;
    assert forall|m: int| 0 <= m < name.len() implies c[m] != 61 by {
        assert(c[m] == name[m]);
    }
    assert(c[name.len() as int] == 61);
    lemma_first_byte_index_at(c, 61, name.len() as int);
    assert(c.subrange(name.len() as int + 1, c.len() as int) =~= value);
    lemma_first_byte_index_at(name, 61, name.len() as int);
}

/// The value of a cookie written `name=value` (the bytes after its first
/// `=`), or `None` when it has no `=`.
pub fn recipe_cookie_value(cookie: &str) -> (r: Option<&[u8]>)
    ensures
        match cookie_value(cookie.spec_bytes()) {
            None => r is None,
            Some(v) => r matches Some(x) && x@ == v,
        },
{
    let bytes = cookie.as_bytes();
    let mut i: usize = 0;
    while i < bytes.len() && bytes[i] != 61
        invariant
            i <= bytes@.len(),
            forall|m: int| 0 <= m < i ==> bytes@[m] != 61,
        decreases bytes.len() - i,
    {
        i = i + 1;
    }
    proof {
        lemma_first_byte_index_at(bytes@, 61, i as int);
    }
    if i == bytes.len() {
        None
    } else {
        Some(&bytes[i + 1..bytes.len()])
    }
}

/// The recipe carried by a cookie written `recipe=<base64>`: its value decoded
/// from standard base64. `BadlyFormedCookie` when the cookie has no `=`,
/// `Base64Decode` when the value is not standard base64.
pub fn get_recipe_from_header(cookie: &str) -> (r: Result<Vec<u8>, RecipeParseError>)
    ensures
        match decoded_recipe(cookie.spec_bytes()) {
            Err(e) => r == Err::<Vec<u8>, RecipeParseError>(e),
            Ok(bytes) => r matches Ok(v) && v@ == bytes,
        },
{
    let value = match recipe_cookie_value(cookie) {
        None => {
            return Err(RecipeParseError::BadlyFormedCookie);
        },
        Some(value) => value,
    };
    match decode_standard(value) {
        Ok(bytes) => Ok(bytes),
        Err(_) => Err(RecipeParseError::Base64Decode),
    }
}

} // verus!

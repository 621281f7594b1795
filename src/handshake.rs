//! The opening handshake: checks the client's protocol version and derives
//! the `Sec-WebSocket-Accept` token from its key (RFC 6455, section 4.2.2).
use vstd::prelude::*;
use crypto::digest::Digest;
use vstd::string::StringSliceAdditionalSpecFns;

verus! {

/// The GUID that RFC 6455 appends to every client key.
pub const WS_GUID: &'static str = "258EAFA5-E914-47DA-95CA-C5AB0DC85B11";

/// The request header that carries the client's key.
pub const KEY_HEADER: &'static str = "Sec-WebSocket-Key";

/// The request header that carries the protocol version.
pub const VERSION_HEADER: &'static str = "Sec-WebSocket-Version";

/// Why an upgrade request is refused.
#[derive(Debug)]
pub enum UpgradeError {
    /// The version is missing its number or is not 13.
    InvalidVersion,
    /// A header that the handshake needs is absent; it holds the header's name.
    HeaderNotFound(String),
}

/// The SHA-1 digest of `data`.
pub uninterp spec fn sha1_of(data: Seq<u8>) -> Seq<u8>;

/// The character of the standard base64 alphabet for the six-bit value `v`.
pub open spec fn base64_digit(v: int) -> char
    recommends
        0 <= v < 64,
{
    if v < 26 {
        ((65 + v) as u8) as char
    } else if v < 52 {
        ((97 + v - 26) as u8) as char
    } else if v < 62 {
        ((48 + v - 52) as u8) as char
    } else if v == 62 {
        '+'
    } else {
        '/'
    }
}

/// The standard base64 encoding of `data`: each group of three bytes
/// becomes four characters, and a last group of one or two bytes is padded
/// with `=` to four.
pub open spec fn base64_of(data: Seq<u8>) -> Seq<char>
    decreases data.len(),
{
    let b0 = if data.len() > 0 { data[0] as int } else { 0 };
    let b1 = if data.len() > 1 { data[1] as int } else { 0 };
    let b2 = if data.len() > 2 { data[2] as int } else { 0 };
    if data.len() == 0 {
        Seq::empty()
    } else if data.len() == 1 {
        seq![base64_digit(b0 / 4), base64_digit((b0 % 4) * 16), '=', '=']
    } else if data.len() == 2 {
        seq![
            base64_digit(b0 / 4),
            base64_digit((b0 % 4) * 16 + b1 / 16),
            base64_digit((b1 % 16) * 4),
            '=',
        ]
    } else {
        seq![
            base64_digit(b0 / 4),
            base64_digit((b0 % 4) * 16 + b1 / 16),
            base64_digit((b1 % 16) * 4 + b2 / 64),
            base64_digit(b2 % 64),
        ] + base64_of(data.subrange(3, data.len() as int))
    }
}

/// A base64 encoding has four characters for each started group of three
/// bytes.
pub proof fn lemma_base64_len(data: Seq<u8>)
    ensures
        base64_of(data).len() == 4 * ((data.len() + 2) / 3),
    decreases data.len(),
{
    if data.len() >= 3 {
        lemma_base64_len(data.subrange(3, data.len() as int));
    }
}

/// The accept token for a client key.
pub open spec fn accept_token(key: Seq<u8>) -> Seq<char> {
    base64_of(sha1_of(key + WS_GUID.spec_bytes()))
}

/// A decimal digit.
pub open spec fn is_digit(c: char) -> bool {
    '0' <= c <= '9'
}

/// The number that the decimal digits `s` write.
pub open spec fn digits_value(s: Seq<char>) -> int
    decreases s.len(),
{
    if s.len() == 0 {
        0
    } else {
        digits_value(s.drop_last()) * 10 + (s.last() as u32 - '0' as u32)
    }
}

/// The `i32` that `s` writes as an optional sign followed by one or more
/// decimal digits, if there is one.
pub open spec fn i32_of(s: Seq<char>) -> Option<int> {
    let signed = s.len() > 0 && (s[0] == '+' || s[0] == '-');
    let digits = if signed {
        s.drop_first()
    } else {
        s
    };
    let value = if signed && s[0] == '-' {
        -digits_value(digits)
    } else {
        digits_value(digits)
    };
    if digits.len() > 0 && (forall|i: int| 0 <= i < digits.len() ==> is_digit(#[trigger] digits[i]))
        && i32::MIN <= value <= i32::MAX {
        Some(value)
    } else {
        None
    }
}

/// The version header holds the protocol version this server speaks.
pub open spec fn version_ok(version: Seq<char>) -> bool {
    i32_of(version) == Some(13int)
}

/// Relies on `<i32 as FromStr>::from_str`: an optional `+` or `-` followed by
/// decimal digits, within the range of `i32`; anything else is an error.
#[verifier::external_body]
fn parse_i32(s: &str) -> (r: Option<i32>)
    ensures
        r matches Some(v) ==> i32_of(s@) == Some(v as int),
        r is None ==> i32_of(s@) is None,
{
    s.parse::<i32>().ok()
}

/// Relies on rust-crypto's `Sha1` (`new`, `input`, `result`): the 20-byte
/// digest of `data`. It panics once the bit count overflows a `u64`.
#[verifier::external_body]
fn sha1_digest(data: &[u8]) -> (r: Vec<u8>)
    requires
        data@.len() < 0x2000_0000_0000_0000,
    ensures
        r@ == sha1_of(data@),
        r@.len() == 20,
{
    let mut hasher = crypto::sha1::Sha1::new();
    hasher.input(data);
    let mut out = vec![0u8; hasher.output_bytes()];
    hasher.result(&mut out);
    out
}

/// Relies on `base64::encode`: the standard alphabet, with padding, as
/// `base64_of` states it. It panics where the encoded length overflows a
/// `usize`.
#[verifier::external_body]
fn base64_encode(data: &[u8]) -> (r: String)
    requires
        data@.len() < 0x4000_0000_0000_0000,
    ensures
        r@ == base64_of(data@),
{
    base64::encode(data)
}

/// The elements of `a` followed by those of `b`.
pub fn concat<T: Copy>(a: &[T], b: &[T]) -> (r: Vec<T>)
    requires
        a@.len() + b@.len() <= usize::MAX,
    ensures
        r@ == a@ + b@,
{
    let mut r: Vec<T> = Vec::new();
    let mut i: usize = 0;
    while i < a.len()
        invariant
            i <= a@.len(),
            r@ == a@.subrange(0, i as int),
        decreases a@.len() - i,
    {
        r.push(a[i]);
        i += 1;
        assert(r@ =~= a@.subrange(0, i as int));
    }
    let mut k: usize = 0;
    while k < b.len()
        invariant
            k <= b@.len(),
            a@.len() + b@.len() <= usize::MAX,
            r@ == a@ + b@.subrange(0, k as int),
        decreases b@.len() - k,
    {
        r.push(b[k]);
        k += 1;
        assert(r@ =~= a@ + b@.subrange(0, k as int));
    }
    assert(b@.subrange(0, k as int) =~= b@);
    r
}

/// The length in bytes of the protocol GUID.
proof fn lemma_guid_len()
    ensures
        WS_GUID.spec_bytes().len() == 36,
{
    reveal_strlit("258EAFA5-E914-47DA-95CA-C5AB0DC85B11");
    assert(vstd::string::is_ascii(WS_GUID));
    vstd::string::is_ascii_spec_bytes(WS_GUID);
}

/// The `Sec-WebSocket-Accept` token for the client key `websocket_key`: the
/// base64 encoding of the SHA-1 digest of the key followed by the GUID.
pub fn generate_accept_key(websocket_key: &[u8]) -> (r: String)
    requires
        websocket_key@.len() + 36 <= usize::MAX,
        websocket_key@.len() < 0x1000_0000_0000_0000,
    ensures
        r@ == accept_token(websocket_key@),
        r@.len() == 28,
{
    let guid = WS_GUID.as_bytes();
    proof {
        lemma_guid_len();
    }
    let combined = concat(websocket_key, guid);
    let digest = sha1_digest(combined.as_slice());
    proof {
        lemma_base64_len(digest@);
    }
    base64_encode(digest.as_slice())
}

/// Decides an upgrade request from its `Sec-WebSocket-Key` and
/// `Sec-WebSocket-Version` header values (`None` where a header is absent),
/// checked in that order: on success, the token for `Sec-WebSocket-Accept`.
pub fn negotiate(key: Option<&[u8]>, version: Option<&str>) -> (r: Result<String, UpgradeError>)
    requires
        key matches Some(k) ==> k@.len() + 36 <= usize::MAX && k@.len() < 0x1000_0000_0000_0000,
    ensures
        match (key, version) {
            (None, _) => r matches Err(UpgradeError::HeaderNotFound(name)) && name@ == KEY_HEADER@,
            (Some(_), None) => r matches Err(UpgradeError::HeaderNotFound(name)) && name@
                == VERSION_HEADER@,
            (Some(k), Some(v)) => if version_ok(v@) {
                r matches Ok(token) && token@ == accept_token(k@)
            } else {
                r matches Err(UpgradeError::InvalidVersion)
            },
        },
{
    let key = match key {
        Some(k) => k,
        None => return Err(UpgradeError::HeaderNotFound(KEY_HEADER.to_string())),
    };
    let version = match version {
        Some(v) => v,
        None => return Err(UpgradeError::HeaderNotFound(VERSION_HEADER.to_string())),
    };
    match parse_i32(version) {
        Some(13) => Ok(generate_accept_key(key)),
        _ => Err(UpgradeError::InvalidVersion),
    }
}

/// Only a version that reads as 13 is accepted: "13" is, and "12", the
/// empty string and "abc" are not.
pub proof fn lemma_version_examples()
    ensures
        version_ok("13"@),
        !version_ok("12"@),
        !version_ok(""@),
        !version_ok("abc"@),
{
    reveal_strlit("13");
    reveal_strlit("12");
    reveal_strlit("");
    reveal_strlit("abc");
    let thirteen = "13"@;
    assert(thirteen.drop_last().drop_last() =~= Seq::<char>::empty());
    assert(thirteen[0] == '1' && thirteen[1] == '3');
    assert(thirteen.drop_last().last() == '1');
    assert(digits_value(thirteen.drop_last().drop_last()) == 0);
    assert(digits_value(thirteen.drop_last()) == 1);
    assert(digits_value(thirteen) == 13);
    assert(is_digit(thirteen[0]) && is_digit(thirteen[1]));
    let twelve = "12"@;
    assert(twelve.drop_last().drop_last() =~= Seq::<char>::empty());
    assert(twelve[0] == '1' && twelve[1] == '2');
    assert(twelve.drop_last().last() == '1');
    assert(digits_value(twelve.drop_last().drop_last()) == 0);
    assert(digits_value(twelve.drop_last()) == 1);
    assert(digits_value(twelve) == 12);
    assert(!is_digit("abc"@[0]));
}

} // verus!

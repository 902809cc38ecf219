//! Client identity: a process-unique identifier minted per accepted
//! connection, carried to the client in a strict, HTTP-only cookie, and used
//! to address one exact connection independent of any topic subscription.
//!
//! The identifier travels as its canonical hyphenated text (eight, four,
//! four, four and twelve lowercase hex digits). [`ClientId::issue_identity`]
//! mints it, [`identity_cookie`] renders the cookie that carries it to the
//! client, and [`extract_client_id`] recovers it from a cookie header.

use vstd::prelude::*;
use vstd::string::StrSliceExecFns;
use vstd::string::StringExecFns;

verus! {

/// Identifies one accepted connection. The value is the 128-bit big-endian
/// form of a version-4 identifier.
#[derive(Clone, Copy, Debug, PartialEq, Eq, Structural, Hash)]
pub struct ClientId(pub u128);

/// A well-formed identity: the version nibble reads 4 and the variant bits
/// read binary 10, as minted identifiers always have.
pub open spec fn spec_id_well_formed(raw: u128) -> bool {
    &&& (raw >> 76) & 0xf == 4
    &&& (raw >> 62) & 0x3 == 2
}

/// Relies on `uuid::Uuid::new_v4`, which draws 128 random bits and then
/// forces the version nibble to 4 and the variant bits to binary 10, and on
/// `uuid::Uuid::as_u128`, which reads the identifier back as its big-endian
/// 128-bit value. Nothing is promised of the random bits.
#[verifier::external_body]
fn mint_raw_id() -> (r: u128)
    ensures
        spec_id_well_formed(r),
{
    uuid::Uuid::new_v4().as_u128()
}

impl ClientId {
    /// Mints a fresh identity for a newly accepted connection.
    pub fn issue_identity() -> (c: ClientId)
        ensures
            spec_id_well_formed(c.0),
    {
        ClientId(mint_raw_id())
    }
}

/// Sixteen to the power `e`.
pub open spec fn pow16(e: nat) -> int
    decreases e,
{
    if e == 0 {
        1
    } else {
        16 * pow16((e - 1) as nat)
    }
}

pub proof fn lemma_pow16_pos(e: nat)
    ensures
        pow16(e) >= 1,
    decreases e,
{
    if e > 0 {
        lemma_pow16_pos((e - 1) as nat);
    }
}

/// The lowercase hex digit for a nibble value.
pub open spec fn spec_hex_digit(v: int) -> char {
    if v == 0 {
        '0'
    } else if v == 1 {
        '1'
    } else if v == 2 {
        '2'
    } else if v == 3 {
        '3'
    } else if v == 4 {
        '4'
    } else if v == 5 {
        '5'
    } else if v == 6 {
        '6'
    } else if v == 7 {
        '7'
    } else if v == 8 {
        '8'
    } else if v == 9 {
        '9'
    } else if v == 10 {
        'a'
    } else if v == 11 {
        'b'
    } else if v == 12 {
        'c'
    } else if v == 13 {
        'd'
    } else if v == 14 {
        'e'
    } else {
        'f'
    }
}

/// How many hyphens stand before position `p` of the hyphenated text.
pub open spec fn spec_dashes_before(p: int) -> int {
    if p > 23 {
        4
    } else if p > 18 {
        3
    } else if p > 13 {
        2
    } else if p > 8 {
        1
    } else {
        0
    }
}

/// The character at position `p` of the hyphenated text of `n`: a hyphen at
/// positions 8, 13, 18 and 23, otherwise the hex digit of the nibble that
/// position carries, most significant first.
pub open spec fn spec_uuid_char(n: u128, p: int) -> char {
    if p == 8 || p == 13 || p == 18 || p == 23 {
        '-'
    } else {
        spec_hex_digit((n as int / pow16((31 - (p - spec_dashes_before(p))) as nat)) % 16)
    }
}

/// The canonical hyphenated text of the 128-bit identity `n`.
pub open spec fn spec_uuid_text(n: u128) -> Seq<char> {
    Seq::new(36, |p: int| spec_uuid_char(n, p))
}

/// The one-character text of a nibble's lowercase hex digit.
fn hex_digit_str(v: u8) -> (r: &'static str)
    requires
        v < 16,
    ensures
        r@ =~= seq![spec_hex_digit(v as int)],
{
    proof {
        reveal_strlit("0");
        reveal_strlit("1");
        reveal_strlit("2");
        reveal_strlit("3");
        reveal_strlit("4");
        reveal_strlit("5");
        reveal_strlit("6");
        reveal_strlit("7");
        reveal_strlit("8");
        reveal_strlit("9");
        reveal_strlit("a");
        reveal_strlit("b");
        reveal_strlit("c");
        reveal_strlit("d");
        reveal_strlit("e");
        reveal_strlit("f");
    }
    match v {
        0 => "0",
        1 => "1",
        2 => "2",
        3 => "3",
        4 => "4",
        5 => "5",
        6 => "6",
        7 => "7",
        8 => "8",
        9 => "9",
        10 => "a",
        11 => "b",
        12 => "c",
        13 => "d",
        14 => "e",
        _ => "f",
    }
}

/// Renders an identity as its canonical hyphenated lowercase text.
pub fn format_client_id(c: ClientId) -> (r: String)
    ensures
        r@ == spec_uuid_text(c.0),
{
    let n = c.0;
    let mut rev: Vec<u8> = Vec::new();
    let mut acc: u128 = n;
    let mut j: usize = 0;
    proof {
        assert(acc as int == n as int / pow16(0));
    }
    while j < 32
        invariant
            j <= 32,
            rev@.len() == j,
            acc as int == n as int / pow16(j as nat),
            forall|t: int|
                0 <= t < j ==> (#[trigger] rev@[t]) as int == (n as int / pow16(t as nat)) % 16,
        decreases 32 - j,
    {
        let d: u8 = (acc % 16) as u8;
        rev.push(d);
        proof {
            lemma_pow16_pos(j as nat);
            vstd::arithmetic::div_mod::lemma_div_denominator(n as int, pow16(j as nat), 16);
            assert(pow16((j + 1) as nat) == pow16(j as nat) * 16);
        }
        acc = acc / 16;
        j = j + 1;
    }
    let mut r = String::new();
    let mut p: usize = 0;
    let mut digits: usize = 0;
    proof {
        reveal_strlit("-");
    }
    while p < 36
        invariant
            p <= 36,
            digits as int == p - spec_dashes_before(p as int),
            digits <= 32,
            rev@.len() == 32,
            forall|t: int|
                0 <= t < 32 ==> (#[trigger] rev@[t]) as int == (n as int / pow16(t as nat)) % 16,
            r@.len() == p,
            forall|t: int| 0 <= t < p ==> (#[trigger] r@[t]) == spec_uuid_char(n, t),
        decreases 36 - p,
    {
        if p == 8 || p == 13 || p == 18 || p == 23 {
            r.append("-");
            proof {
                reveal_strlit("-");
                assert(r@.last() == '-');
            }
        } else {
            let d = rev[31 - digits];
            proof {
                assert(rev@[31 - digits as int] as int == (n as int / pow16(
                    (31 - digits as int) as nat,
                )) % 16);
            }
            r.append(hex_digit_str(d));
            digits = digits + 1;
        }
        p = p + 1;
    }
    proof {
        assert(r@ =~= spec_uuid_text(n));
    }
    r
}

/// The nibble value of one hex digit character; uppercase digits are
/// accepted as well.
pub open spec fn spec_nibble(ch: char) -> Option<u8> {
    let c = ch as int;
    if 48 <= c <= 57 {
        Option::Some((c - 48) as u8)
    } else if 97 <= c <= 102 {
        Option::Some((c - 87) as u8)
    } else if 65 <= c <= 70 {
        Option::Some((c - 55) as u8)
    } else {
        Option::None
    }
}

fn nibble_of(ch: char) -> (r: Option<u8>)
    ensures
        r == spec_nibble(ch),
{
    let c = ch as u32;
    if 48 <= c && c <= 57 {
        Option::Some((c - 48) as u8)
    } else if 97 <= c && c <= 102 {
        Option::Some((c - 87) as u8)
    } else if 65 <= c && c <= 70 {
        Option::Some((c - 55) as u8)
    } else {
        Option::None
    }
}

/// The text position of digit `d` of the hyphenated form.
pub open spec fn spec_digit_pos(d: int) -> int {
    if d >= 20 {
        d + 4
    } else if d >= 16 {
        d + 3
    } else if d >= 12 {
        d + 2
    } else if d >= 8 {
        d + 1
    } else {
        d
    }
}

/// Folds the 32 hex digits of a hyphenated text into a value, most
/// significant digit first; `None` on the first non-digit.
pub open spec fn spec_parse_digits(s: Seq<char>, d: int, acc: int) -> Option<int>
    decreases 32 - d,
{
    if d < 0 || d >= 32 {
        Option::Some(acc)
    } else {
        match spec_nibble(s[spec_digit_pos(d)]) {
            Option::None => Option::None,
            Option::Some(v) => spec_parse_digits(s, d + 1, acc * 16 + v),
        }
    }
}

/// The value of a canonical hyphenated identity text: 36 characters with
/// hyphens at positions 8, 13, 18 and 23 and hex digits everywhere else.
pub open spec fn spec_parse_uuid(s: Seq<char>) -> Option<int> {
    if s.len() == 36 && s[8] == '-' && s[13] == '-' && s[18] == '-' && s[23] == '-' {
        spec_parse_digits(s, 0, 0)
    } else {
        Option::None
    }
}

/// Parses a hyphenated identity text; hex digits of either case are
/// accepted, any other shape is rejected.
pub fn parse_client_id(s: &str) -> (r: Option<ClientId>)
    ensures
        match r {
            Option::Some(c) => spec_parse_uuid(s@) == Option::Some(c.0 as int),
            Option::None => spec_parse_uuid(s@) is None,
        },
{
    let len = s.unicode_len();
    if len != 36 {
        return Option::None;
    }
    if !(s.get_char(8) == '-' && s.get_char(13) == '-' && s.get_char(18) == '-' && s.get_char(23)
        == '-') {
        return Option::None;
    }
    let mut acc: u128 = 0;
    let mut d: usize = 0;
    proof {
        assert(pow16(0) == 1);
    }
    while d < 32
        invariant
            d <= 32,
            s@.len() == 36,
            (acc as int) < pow16(d as nat),
            spec_parse_digits(s@, 0, 0) == spec_parse_digits(s@, d as int, acc as int),
        decreases 32 - d,
    {
        let pos: usize = if d >= 20 {
            d + 4
        } else if d >= 16 {
            d + 3
        } else if d >= 12 {
            d + 2
        } else if d >= 8 {
            d + 1
        } else {
            d
        };
        let ch = s.get_char(pos);
        proof {
            assert(pos as int == spec_digit_pos(d as int));
        }
        match nibble_of(ch) {
            Option::None => {
                return Option::None;
            },
            Option::Some(v) => {
                proof {
                    lemma_pow16_pos(d as nat);
                    assert(pow16((d + 1) as nat) == 16 * pow16(d as nat));
                    assert(pow16((d + 1) as nat) <= pow16(32)) by {
                        lemma_pow16_mono((d + 1) as nat, 32);
                    }
                    assert(pow16(32) == 0x100000000000000000000000000000000) by {
                        reveal_with_fuel(pow16, 33);
                    }
                    assert((acc as int) * 16 + v < pow16((d + 1) as nat)) by (nonlinear_arith)
                        requires
                            (acc as int) < pow16(d as nat),
                            v < 16,
                            pow16((d + 1) as nat) == 16 * pow16(d as nat);
                }
                acc = acc * 16 + (v as u128);
                d = d + 1;
            },
        }
    }
    Option::Some(ClientId(acc))
}

/// `pow16` grows with its exponent.
pub proof fn lemma_pow16_mono(a: nat, b: nat)
    requires
        a <= b,
    ensures
        pow16(a) <= pow16(b),
    decreases b,
{
    if a < b {
        lemma_pow16_mono(a, (b - 1) as nat);
        lemma_pow16_pos((b - 1) as nat);
    }
}

/// Round trip: parsing the canonical text of an identity yields the
/// identity back.
pub proof fn lemma_uuid_text_roundtrip(n: u128)
    ensures
        spec_parse_uuid(spec_uuid_text(n)) == Option::Some(n as int),
{
    let s = spec_uuid_text(n);
    assert(s[8] == '-' && s[13] == '-' && s[18] == '-' && s[23] == '-');
    lemma_parse_digits_from(n, 0);
    assert(n as int / pow16(32) == 0) by {
        assert(pow16(32) == 0x100000000000000000000000000000000) by {
            reveal_with_fuel(pow16, 33);
        }
    }
}

/// Folding the digits of the canonical text from digit `d` on, with the
/// already-read high digits as the accumulator, recovers the identity.
proof fn lemma_parse_digits_from(n: u128, d: int)
    requires
        0 <= d <= 32,
    ensures
        spec_parse_digits(spec_uuid_text(n), d, n as int / pow16((32 - d) as nat)) == Option::Some(
            n as int,
        ),
    decreases 32 - d,
{
    let s = spec_uuid_text(n);
    if d == 32 {
        assert(n as int / pow16(0) == n as int);
    } else {
        let p = spec_digit_pos(d);
        assert(s[p] == spec_hex_digit((n as int / pow16((31 - d) as nat)) % 16)) by {
            assert(p - spec_dashes_before(p) == d);
        }
        let x = n as int / pow16((31 - d) as nat);
        let v = x % 16;
        assert(0 <= v < 16);
        assert(spec_nibble(spec_hex_digit(v)) == Option::Some(v as u8));
        let accd = n as int / pow16((32 - d) as nat);
        assert(accd == x / 16) by {
            lemma_pow16_pos((31 - d) as nat);
            vstd::arithmetic::div_mod::lemma_div_denominator(
                n as int,
                pow16((31 - d) as nat),
                16,
            );
            assert(pow16((32 - d) as nat) == pow16((31 - d) as nat) * 16);
        }
        assert(accd * 16 + v == x) by {
            vstd::arithmetic::div_mod::lemma_fundamental_div_mod(x, 16);
        }
        lemma_parse_digits_from(n, d + 1);
    }
}

/// Error of a failed identity lookup in a cookie header.
#[derive(Clone, Copy, Debug, PartialEq, Eq, Structural)]
pub enum IdentityError {
    /// No `socket_client_id` cookie stands in the header.
    CookieNotFound,
    /// The cookie value is not a well-formed identity text.
    InvalidId,
}

impl IdentityError {
    /// A short description for callers that report the failure.
    pub fn describe(&self) -> (r: String)
        ensures
            (*self is CookieNotFound) ==> r@ == "socket_client_id cookie not found"@,
            (*self is InvalidId) ==> r@ == "invalid identity in socket_client_id cookie"@,
    {
        match self {
            IdentityError::CookieNotFound => "socket_client_id cookie not found".to_owned(),
            IdentityError::InvalidId => "invalid identity in socket_client_id cookie".to_owned(),
        }
    }
}

/// The `Set-Cookie` value that carries an identity to the client: the
/// identity as canonical text under the `socket_client_id` name, rooted at
/// `/`, HTTP-only and same-site strict.
pub open spec fn spec_identity_cookie(n: u128) -> Seq<char> {
    "socket_client_id="@ + spec_uuid_text(n) + "; Path=/; HttpOnly; SameSite=Strict"@
}

/// Builds the `Set-Cookie` value that carries `c` to the client.
pub fn identity_cookie(c: ClientId) -> (r: String)
    ensures
        r@ == spec_identity_cookie(c.0),
{
    let mut r = String::from_str("socket_client_id=");
    let text = format_client_id(c);
    r.append(text.as_str());
    r.append("; Path=/; HttpOnly; SameSite=Strict");
    r
}

/// Whether the cookie name (with its equals sign) stands at position `i`.
pub open spec fn spec_name_at(s: Seq<char>, i: int) -> bool {
    0 <= i && i + 17 <= s.len() && s.subrange(i, i + 17) == "socket_client_id="@
}

/// The first position at or after `i` where the cookie name stands.
pub open spec fn spec_find_name(s: Seq<char>, i: int) -> Option<int>
    decreases s.len() - i,
{
    if i < 0 || i + 17 > s.len() {
        Option::None
    } else if spec_name_at(s, i) {
        Option::Some(i)
    } else {
        spec_find_name(s, i + 1)
    }
}

/// The first position at or after `i` that holds a semicolon, or the end.
pub open spec fn spec_value_end(s: Seq<char>, i: int) -> int
    decreases s.len() - i,
{
    if i < 0 || i >= s.len() {
        i
    } else if s[i] == ';' {
        i
    } else {
        spec_value_end(s, i + 1)
    }
}

/// What scanning a cookie header for the identity yields: the value of the
/// first `socket_client_id` cookie, parsed as identity text; an error names
/// whether the cookie is missing or its value malformed.
pub open spec fn spec_extract(s: Seq<char>) -> Result<int, IdentityError> {
    match spec_find_name(s, 0) {
        Option::None => Result::Err(IdentityError::CookieNotFound),
        Option::Some(i) => {
            let start = i + 17;
            let end = spec_value_end(s, start);
            match spec_parse_uuid(s.subrange(start, end)) {
                Option::Some(v) => Result::Ok(v),
                Option::None => Result::Err(IdentityError::InvalidId),
            }
        },
    }
}

/// Scans a cookie header for the `socket_client_id` cookie and parses its
/// value. The caller that cannot even present a header reports that itself;
/// here a missing cookie and a malformed value each yield their own error,
/// never a silent no-op.
pub fn extract_client_id(header: &str) -> (r: Result<ClientId, IdentityError>)
    ensures
        match r {
            Result::Ok(c) => spec_extract(header@) == Result::<int, IdentityError>::Ok(
                c.0 as int,
            ),
            Result::Err(e) => spec_extract(header@) == Result::<int, IdentityError>::Err(e),
        },
{
    proof {
        reveal_strlit("socket_client_id=");
    }
    let name: &str = "socket_client_id=";
    let len = header.unicode_len();
    if len < 17 {
        proof {
            assert(spec_find_name(header@, 0) is None);
        }
        return Result::Err(IdentityError::CookieNotFound);
    }
    let mut i: usize = 0;
    while i <= len - 17
        invariant
            17 <= len,
            len == header@.len(),
            i <= len,
            name@ == "socket_client_id="@,
            name@.len() == 17,
            spec_find_name(header@, 0) == spec_find_name(header@, i as int),
        decreases len - i,
    {
        let mut t: usize = 0;
        let mut matched = true;
        while t < 17
            invariant
                t <= 17,
                i + 17 <= len,
                len == header@.len(),
                name@ == "socket_client_id="@,
                name@.len() == 17,
                matched == (forall|u: int|
                    0 <= u < t ==> header@[i + u] == #[trigger] name@[u]),
            decreases 17 - t,
        {
            if header.get_char(i + t) != name.get_char(t) {
                matched = false;
                proof {
                    assert(header@[i + t] != name@[t as int]);
                }
                t = 17;
            } else {
                proof {
                    assert(header@[i + t] == name@[t as int]);
                }
                t = t + 1;
            }
        }
        if matched {
            proof {
                assert(spec_name_at(header@, i as int)) by {
                    assert(header@.subrange(i as int, i + 17) =~= "socket_client_id="@);
                }
            }
            let start = i + 17;
            let mut end = start;
            while end < len && header.get_char(end) != ';'
                invariant
                    len == header@.len(),
                    start <= end <= len,
                    spec_value_end(header@, start as int) == spec_value_end(
                        header@,
                        end as int,
                    ),
                decreases len - end,
            {
                end = end + 1;
            }
            proof {
                assert(spec_value_end(header@, end as int) == end as int);
            }
            let value = header.substring_char(start, end);
            match parse_client_id(value) {
                Option::Some(c) => {
                    return Result::Ok(c);
                },
                Option::None => {
                    return Result::Err(IdentityError::InvalidId);
                },
            }
        } else {
            proof {
                let u = choose|u: int| 0 <= u < 17 && header@[i + u] != #[trigger] name@[u];
                assert(!spec_name_at(header@, i as int)) by {
                    if spec_name_at(header@, i as int) {
                        assert(header@.subrange(i as int, i + 17)[u] == header@[i + u]);
                    }
                }
            }
            i = i + 1;
        }
    }
    proof {
        assert(spec_find_name(header@, i as int) is None);
    }
    Result::Err(IdentityError::CookieNotFound)
}


/// Resolves `spec_value_end` when the first semicolon at or after `from`
/// stands at `end` (or `end` is the end of the text).
proof fn lemma_value_end_at(s: Seq<char>, from: int, end: int)
    requires
        0 <= from <= end <= s.len(),
        forall|i: int| from <= i < end ==> s[i] != ';',
        end == s.len() || s[end] == ';',
    ensures
        spec_value_end(s, from) == end,
    decreases end - from,
{
    if from < end {
        lemma_value_end_at(s, from + 1, end);
    }
}

/// Round trip through the transport: the cookie value built for an identity
/// reads back as exactly that identity.
pub proof fn lemma_identity_cookie_roundtrip(n: u128)
    ensures
        spec_extract(spec_identity_cookie(n)) == Result::<int, IdentityError>::Ok(n as int),
{
    reveal_strlit("socket_client_id=");
    reveal_strlit("; Path=/; HttpOnly; SameSite=Strict");
    let p = "socket_client_id="@;
    let u = spec_uuid_text(n);
    let x = "; Path=/; HttpOnly; SameSite=Strict"@;
    let s = spec_identity_cookie(n);
    assert(p.len() == 17);
    assert(u.len() == 36);
    assert(s.len() == 53 + x.len());
    assert(spec_name_at(s, 0)) by {
        assert(s.subrange(0, 17) =~= p);
    }
    assert(spec_find_name(s, 0) == Option::Some(0int));
    assert forall|i: int| 17 <= i < 53 implies s[i] != ';' by {
        assert(s[i] == u[i - 17]);
        let q = i - 17;
        if q == 8 || q == 13 || q == 18 || q == 23 {
            assert(u[q] == '-');
        } else {
            let v = (n as int / pow16((31 - (q - spec_dashes_before(q))) as nat)) % 16;
            assert(0 <= v < 16);
            assert(u[q] == spec_hex_digit(v));
            assert(spec_hex_digit(v) != ';');
        }
    }
    assert(s[53] == x[0]);
    assert(s[53] == ';');
    lemma_value_end_at(s, 17, 53);
    assert(s.subrange(17, 53) =~= u);
    lemma_uuid_text_roundtrip(n);
}

} // verus!

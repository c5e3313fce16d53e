//! Identifiers of thoughts and saved searches: UUIDs, as blobs and as text.

use vstd::prelude::*;

use crate::order::{blob_eq, same_name};

verus! {

/// A UUID: sixteen bytes, ordered as bytes.
#[derive(Debug, Clone, Copy, PartialEq, Eq, PartialOrd, Ord, Hash)]
pub struct Uuid {
    pub bytes: [u8; 16],
}

impl View for Uuid {
    type V = Seq<u8>;

    open spec fn view(&self) -> Seq<u8> {
        self.bytes@
    }
}

/// The lower-case hexadecimal digit of value `n`.
pub open spec fn hex_digit(n: int) -> char {
    if n < 10 {
        (48 + n) as char
    } else {
        (87 + n) as char
    }
}

/// The value of a hexadecimal digit of either case.
pub open spec fn hex_value(c: char) -> Option<int> {
    if '0' <= c && c <= '9' {
        Some(c as int - 48)
    } else if 'a' <= c && c <= 'f' {
        Some(c as int - 87)
    } else if 'A' <= c && c <= 'F' {
        Some(c as int - 55)
    } else {
        None
    }
}

/// The 32 digits of a UUID.
pub open spec fn simple_text(bytes: Seq<u8>) -> Seq<char> {
    Seq::new(
        32,
        |j: int|
            hex_digit(
                if j % 2 == 0 {
                    bytes[j / 2] as int / 16
                } else {
                    bytes[j / 2] as int % 16
                },
            ),
    )
}

/// The text of a UUID: its digits in groups of 8, 4, 4, 4 and 12.
pub open spec fn hyphenated(bytes: Seq<u8>) -> Seq<char> {
    let d = simple_text(bytes);
    d.subrange(0, 8) + seq!['-'] + d.subrange(8, 12) + seq!['-'] + d.subrange(12, 16) + seq!['-']
        + d.subrange(16, 20) + seq!['-'] + d.subrange(20, 32)
}

/// The sixteen bytes that 32 hexadecimal digits spell.
pub open spec fn hex_bytes(digits: Seq<char>) -> Option<Seq<u8>> {
    if digits.len() == 32 && (forall|i: int|
        0 <= i < 32 ==> hex_value(#[trigger] digits[i]) is Some) {
        Some(
            Seq::new(
                16,
                |i: int|
                    (16 * hex_value(digits[2 * i]).unwrap() + hex_value(
                        digits[2 * i + 1],
                    ).unwrap()) as u8,
            ),
        )
    } else {
        None
    }
}

/// The bytes that the five groups of digits between hyphens spell.
pub open spec fn hyphenated_bytes(s: Seq<char>) -> Option<Seq<u8>> {
    if s.len() == 36 && s[8] == '-' && s[13] == '-' && s[18] == '-' && s[23] == '-' {
        hex_bytes(
            s.subrange(0, 8) + s.subrange(9, 13) + s.subrange(14, 18) + s.subrange(19, 23)
                + s.subrange(24, 36),
        )
    } else {
        None
    }
}

/// The UUID that a text spells: as 32 digits, hyphenated, hyphenated in
/// braces, or hyphenated behind `urn:uuid:`.
pub open spec fn parsed_uuid(s: Seq<char>) -> Option<Seq<u8>> {
    if s.len() == 32 {
        hex_bytes(s)
    } else if s.len() == 38 && s[0] == '{' && s[37] == '}' {
        hyphenated_bytes(s.subrange(1, 37))
    } else if s.len() == 45 && same_name(
        s.subrange(0, 9),
        seq!['u', 'r', 'n', ':', 'u', 'u', 'i', 'd', ':'],
    ) {
        hyphenated_bytes(s.subrange(9, 45))
    } else {
        hyphenated_bytes(s)
    }
}

/// The marks of a random UUID: the version is 4, and the variant that of
/// RFC 4122.
pub open spec fn is_random(bytes: Seq<u8>) -> bool {
    bytes[6] / 16 == 4 && bytes[8] / 64 == 2
}

/// What the `uuid` crate says of a text that spells no UUID.
pub uninterp spec fn uuid_complaint(s: Seq<char>) -> Seq<char>;

/// `uuid::Uuid::new_v4`: sixteen random bytes, save for the marks of a random
/// UUID.
#[verifier::external_body]
fn random_uuid_bytes() -> (r: [u8; 16])
    ensures
        is_random(r@),
{
    uuid::Uuid::new_v4().into_bytes()
}

/// `uuid::Uuid::parse_str`: the bytes of the UUID that `s` spells in one of the
/// four forms of `parsed_uuid`; for any other text, the text of the crate's
/// error, named `uuid_complaint`.
#[verifier::external_body]
fn parse_uuid_bytes(s: &str) -> (r: Result<[u8; 16], String>)
    ensures
        match r {
            Ok(bytes) => parsed_uuid(s@) == Some(bytes@),
            Err(complaint) => parsed_uuid(s@) is None && complaint@ == uuid_complaint(s@),
        },
{
    match uuid::Uuid::parse_str(s) {
        Ok(id) => Ok(id.into_bytes()),
        Err(error) => Err(error.to_string()),
    }
}

/// `uuid::Uuid`'s `Display`: the lower-case hyphenated text.
#[verifier::external_body]
fn uuid_text(bytes: [u8; 16]) -> (r: String)
    ensures
        r@ == hyphenated(bytes@),
{
    uuid::Uuid::from_bytes(bytes).to_string()
}

impl Uuid {
    /// A fresh random identifier.
    pub fn new_v4() -> (id: Uuid)
        ensures
            is_random(id@),
    {
        Uuid { bytes: random_uuid_bytes() }
    }

    /// The identifier that `s` spells, or what is wrong with `s`.
    pub fn parse_str(s: &str) -> (r: Result<Uuid, String>)
        ensures
            match r {
                Ok(id) => parsed_uuid(s@) == Some(id@),
                Err(complaint) => parsed_uuid(s@) is None && complaint@ == uuid_complaint(s@),
            },
    {
        match parse_uuid_bytes(s) {
            Ok(bytes) => Ok(Uuid { bytes }),
            Err(complaint) => Err(complaint),
        }
    }

    /// The lower-case hyphenated text.
    pub fn text(&self) -> (r: String)
        ensures
            r@ == hyphenated(self@),
    {
        uuid_text(self.bytes)
    }

    /// The sixteen bytes as a blob.
    pub fn to_blob(&self) -> (blob: Vec<u8>)
        ensures
            blob@ == self@,
    {
        let mut blob: Vec<u8> = Vec::new();
        let mut i: usize = 0;
        while i < 16
            invariant
                i <= 16,
                blob@ == self@.take(i as int),
            decreases 16 - i,
        {
            blob.push(self.bytes[i]);
            i += 1;
            assert(blob@ =~= self@.take(i as int));
        }
        assert(self@.take(16) =~= self@);
        blob
    }

    /// The identifier that a blob of sixteen bytes holds.
    pub fn from_blob(blob: &[u8]) -> (r: Option<Uuid>)
        ensures
            match r {
                Some(id) => id@ == blob@,
                None => blob@.len() != 16,
            },
    {
        if blob.len() != 16 {
            return None;
        }
        let mut bytes: [u8; 16] = [0u8; 16];
        let mut i: usize = 0;
        while i < 16
            invariant
                i <= 16,
                blob@.len() == 16,
                forall|j: int| 0 <= j < i ==> bytes@[j] == blob@[j],
            decreases 16 - i,
        {
            bytes[i] = blob[i];
            i += 1;
        }
        assert(bytes@ =~= blob@);
        Some(Uuid { bytes })
    }

    /// Whether the blob holds this identifier.
    pub fn is_blob(&self, blob: &[u8]) -> (r: bool)
        ensures
            r == (blob@ == self@),
    {
        blob_eq(blob, self.bytes.as_slice())
    }

    /// Whether two identifiers are the same.
    pub fn same(&self, other: &Uuid) -> (r: bool)
        ensures
            r == (self@ == other@),
            r == (*self == *other),
    {
        let r = blob_eq(self.bytes.as_slice(), other.bytes.as_slice());
        proof {
            if self@ == other@ {
                law_uuid_injective(*self, *other);
            }
        }
        r
    }
}

/// Identifiers with the same bytes are the same identifier.
pub proof fn law_uuid_injective(a: Uuid, b: Uuid)
    requires
        a@ == b@,
    ensures
        a == b,
{
    assert forall|i: int| 0 <= i < 16 implies a.bytes[i] == b.bytes[i] by {
        assert(a@[i] == b@[i]);
    }
    assert(a.bytes =~= b.bytes);
}

/// Every identifier is read back from its text.
pub proof fn law_uuid_text_round_trips(id: Uuid)
    ensures
        parsed_uuid(hyphenated(id@)) == Some(id@),
        hyphenated(id@).len() == 36,
{
    let b = id@;
    let d = simple_text(b);
    let t = hyphenated(b);
    assert(t.len() == 36);
    let back = t.subrange(0, 8) + t.subrange(9, 13) + t.subrange(14, 18) + t.subrange(19, 23)
        + t.subrange(24, 36);
    assert(back =~= d);
    assert(t[8] == '-' && t[13] == '-' && t[18] == '-' && t[23] == '-');
    assert forall|i: int| 0 <= i < 32 implies hex_value(#[trigger] d[i]) is Some by {
        lemma_hex_digit(
            if i % 2 == 0 {
                b[i / 2] as int / 16
            } else {
                b[i / 2] as int % 16
            },
        );
    }
    let out = hex_bytes(d).unwrap();
    assert forall|i: int| 0 <= i < 16 implies out[i] == b[i] by {
        let x = b[i] as int;
        lemma_hex_digit(x / 16);
        lemma_hex_digit(x % 16);
        assert(d[2 * i] == hex_digit(x / 16)) by {
            assert((2 * i) % 2 == 0 && (2 * i) / 2 == i);
        }
        assert(d[2 * i + 1] == hex_digit(x % 16)) by {
            assert((2 * i + 1) % 2 == 1 && (2 * i + 1) / 2 == i);
        }
        assert(16 * (x / 16) + x % 16 == x);
    }
    assert(out =~= b);
}

proof fn lemma_hex_digit(n: int)
    requires
        0 <= n < 16,
    ensures
        hex_value(hex_digit(n)) == Some(n),
{
}

} // verus!

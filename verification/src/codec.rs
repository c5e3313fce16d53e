//! Cursors as text: a timestamp, an underscore and an identifier.

use vstd::prelude::*;
use vstd::string::*;

use crate::decimal::{decimal, is_digit, law_decimal_round_trips, parse_i64, parsed_i64, push_decimal};
use crate::ident::{hyphenated, law_uuid_text_round_trips, parsed_uuid, Uuid};
use crate::text::{chars_of, string_of};

verus! {

/// Where the first underscore stands at or behind `i`, or the length.
pub open spec fn underscore(s: Seq<char>, i: int) -> int
    decreases s.len() - i,
{
    if 0 <= i < s.len() && s[i] != '_' {
        underscore(s, i + 1)
    } else {
        i
    }
}

/// A key as text. The identifier's hyphens never collide with the underscore.
pub open spec fn key_text(time: i64, id: Seq<u8>) -> Seq<char> {
    decimal(time as int).push('_') + hyphenated(id)
}

/// What is wrong with a text that is no key.
#[derive(Debug, Clone, Copy, PartialEq, Eq, Structural)]
pub enum KeyFault {
    /// It has no underscore.
    Shape,
    /// What stands before the underscore is no timestamp.
    Time,
    /// What stands behind it is no identifier.
    Id,
}

/// The key that a text spells, or what is wrong with it.
pub open spec fn parsed_key(s: Seq<char>) -> Result<(i64, Seq<u8>), KeyFault> {
    let k = underscore(s, 0);
    if k >= s.len() {
        Err(KeyFault::Shape)
    } else {
        match parsed_i64(s.take(k)) {
            None => Err(KeyFault::Time),
            Some(time) => match parsed_uuid(s.skip(k + 1)) {
                None => Err(KeyFault::Id),
                Some(id) => Ok((time, id)),
            },
        }
    }
}

/// The text of a key.
pub fn encode_key(time: i64, id: &Uuid) -> (out: String)
    ensures
        out@ == key_text(time, id@),
{
    let mut out = String::new();
    push_decimal(&mut out, time);
    assert(out@ =~= decimal(time as int));
    out.push('_');
    out.append(id.text().as_str());
    out
}

/// The key that a text spells.
pub fn decode_key(text: &str) -> (r: Result<(i64, Uuid), KeyFault>)
    ensures
        match parsed_key(text@) {
            Ok((time, id)) => r matches Ok(key) && key.0 == time && key.1@ == id,
            Err(fault) => r == Err::<(i64, Uuid), KeyFault>(fault),
        },
{
    let chars = chars_of(text);
    let ghost s = text@;
    let mut k: usize = 0;
    while k < chars.len() && chars[k] != '_'
        invariant
            k <= chars@.len(),
            chars@ == s,
            underscore(s, 0) == underscore(s, k as int),
        decreases chars.len() - k,
    {
        k += 1;
    }
    if k == chars.len() {
        return Err(KeyFault::Shape);
    }
    let time_text = string_of(&chars, 0, k);
    let id_text = string_of(&chars, k + 1, chars.len());
    assert(time_text@ =~= s.take(k as int));
    assert(id_text@ =~= s.skip(k + 1));
    let time = match parse_i64(time_text.as_str()) {
        Some(time) => time,
        None => return Err(KeyFault::Time),
    };
    match Uuid::parse_str(id_text.as_str()) {
        Ok(id) => Ok((time, id)),
        Err(_) => Err(KeyFault::Id),
    }
}

proof fn lemma_underscore(s: Seq<char>, i: int, k: int)
    requires
        0 <= i <= k < s.len(),
        s[k] == '_',
        forall|j: int| i <= j < k ==> #[trigger] s[j] != '_',
    ensures
        underscore(s, i) == k,
    decreases k - i,
{
    if i < k {
        assert(s[i] != '_');
        lemma_underscore(s, i + 1, k);
    }
}

/// A key is read back from its text.
pub proof fn law_key_round_trips(time: i64, id: Uuid)
    ensures
        parsed_key(key_text(time, id@)) == Ok::<(i64, Seq<u8>), KeyFault>((time, id@)),
{
    let d = decimal(time as int);
    let s = key_text(time, id@);
    law_decimal_round_trips(time);
    law_uuid_text_round_trips(id);
    let k = d.len() as int;
    assert(s[k] == '_');
    assert forall|j: int| 0 <= j < k implies #[trigger] s[j] != '_' by {
        assert(s[j] == d[j]);
        assert(is_digit(d[j]) || d[j] == '-');
    }
    lemma_underscore(s, 0, k);
    assert(s.take(k) =~= d);
    assert(s.skip(k + 1) =~= hyphenated(id@));
}

/// A key is written as the time, an underscore and the identifier.
pub proof fn law_key_form(time: i64, id: Seq<u8>)
    ensures
        ({
            let d = decimal(time as int);
            let s = key_text(time, id);
            &&& s.len() == d.len() + 1 + hyphenated(id).len()
            &&& s.take(d.len() as int) == d
            &&& s[d.len() as int] == '_'
            &&& s.skip((d.len() + 1) as int) == hyphenated(id)
        }),
{
    let d = decimal(time as int);
    let s = key_text(time, id);
    assert(s.take(d.len() as int) =~= d);
    assert(s.skip((d.len() + 1) as int) =~= hyphenated(id));
}

/// A key is read by its first underscore, at `k`: what is before it is the time,
/// what is behind it the identifier. Without one it has not the right shape.
pub proof fn law_key_read(s: Seq<char>, k: int)
    requires
        0 <= k <= s.len(),
        forall|j: int| 0 <= j < k ==> #[trigger] s[j] != '_',
        k < s.len() ==> s[k] == '_',
    ensures
        parsed_key(s) == (if k == s.len() {
            Err::<(i64, Seq<u8>), KeyFault>(KeyFault::Shape)
        } else if parsed_i64(s.take(k)) is None {
            Err(KeyFault::Time)
        } else if parsed_uuid(s.skip(k + 1)) is None {
            Err(KeyFault::Id)
        } else {
            Ok((parsed_i64(s.take(k)).unwrap(), parsed_uuid(s.skip(k + 1)).unwrap()))
        }),
{
    if k < s.len() {
        lemma_underscore(s, 0, k);
    } else {
        lemma_no_underscore(s, 0);
    }
}

proof fn lemma_no_underscore(s: Seq<char>, i: int)
    requires
        0 <= i <= s.len(),
        forall|j: int| i <= j < s.len() ==> #[trigger] s[j] != '_',
    ensures
        underscore(s, i) == s.len(),
    decreases s.len() - i,
{
    if i < s.len() {
        assert(s[i] != '_');
        lemma_no_underscore(s, i + 1);
    }
}

} // verus!

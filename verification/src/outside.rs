//! The calls that leave this library. What is claimed of each is taken on
//! trust.
use chrono::DurationRound;
use vstd::prelude::*;

verus! {

/// An identifier with the version and variant of a random UUID.
pub open spec fn is_random_id(id: u128) -> bool {
    &&& id / 0x1000_0000_0000_0000_0000 % 16 == 4
    &&& id / 0x4000_0000_0000_0000 % 4 == 2
}

/// `uuid::Uuid::new_v4`, as its 128 bits. The value is drawn at random; whatever
/// is drawn, the version bits say 4 and the variant bits say RFC 9562. That two
/// draws differ is likely and not promised.
#[verifier::external_body]
pub(crate) fn fresh_id() -> (id: u128)
    ensures
        is_random_id(id),
{
    uuid::Uuid::new_v4().as_u128()
}

/// `chrono`'s `duration_trunc` on a UTC instant: the instant `nanos` after the
/// epoch, taken down to a multiple of `width_secs`, in seconds. The multiples are
/// counted from the epoch, and an instant before it goes down too.
#[verifier::external_body]
pub(crate) fn floor_secs(nanos: i64, width_secs: i64) -> (secs: i64)
    requires
        0 < width_secs <= 9_223_372_036,
    ensures
        secs == nanos as int / (width_secs * 1_000_000_000) * width_secs,
{
    chrono::DateTime::from_timestamp_nanos(nanos)
        .duration_trunc(chrono::TimeDelta::try_seconds(width_secs).unwrap())
        .unwrap()
        .timestamp()
}

/// What `char::to_uppercase` yields for a character.
pub uninterp spec fn uppercase_of(c: char) -> Seq<char>;

/// `char::to_uppercase`, collected: the uppercase of a character, which for a
/// lowercase ASCII letter is the capital of the same letter, and which is
/// otherwise left to the Unicode tables.
#[verifier::external_body]
pub(crate) fn uppercase(c: char) -> (r: String)
    ensures
        r@ == uppercase_of(c),
        'a' <= c <= 'z' ==> r@ == seq![((c as u32) - 32) as char],
{
    c.to_uppercase().collect()
}

/// A text as `{:?}` shows it: in quotes, with what is special escaped.
pub uninterp spec fn quoted_text(s: Seq<char>) -> Seq<char>;

/// The `Debug` form of a string slice, by `format!`. What it escapes is left to
/// the standard library.
#[verifier::external_body]
pub(crate) fn quoted(s: &str) -> (r: String)
    ensures
        r@ == quoted_text(s@),
{
    format!("{s:?}")
}

} // verus!

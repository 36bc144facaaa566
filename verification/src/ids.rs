//! Identifiers: 128-bit numbers, fresh ones from `ulid`, and their text form.

use vstd::prelude::*;

verus! {

/// Why a text is not the text form of an identifier.
#[derive(Clone, Copy, Debug, PartialEq, Eq, Structural)]
pub enum IdError {
    /// The text does not have the length of an identifier.
    InvalidLength,
    /// The text holds a character that no identifier holds.
    InvalidChar,
}

/// The text form of an identifier: what `ulid::Ulid::to_string` returns for it.
pub uninterp spec fn id_text(id: u128) -> Seq<char>;

/// The identifier that a text stands for: what `ulid::Ulid::from_string`
/// returns for it.
pub uninterp spec fn parsed_id(text: Seq<char>) -> Result<u128, IdError>;

/// Whether `text` reads back as `id`.
pub open spec fn reads_back_as(text: Seq<char>, id: u128) -> bool {
    parsed_id(text) == Ok::<u128, IdError>(id)
}

/// A fresh identifier, by `ulid::Ulid::new`: the present time in its upper
/// bits, random bits below. Nothing is claimed of the number that comes back.
#[verifier::external_body]
pub(crate) fn fresh_id() -> u128 {
    ulid::Ulid::new().0
}

/// The text form of `id`, by `ulid::Ulid::to_string`: 26 characters in
/// Crockford's base 32. The claim beyond the name is that the text reads
/// back as `id`: `from_string` folds the same 26 digits back into the number
/// that `to_string` took them from.
#[verifier::external_body]
pub(crate) fn id_to_text(id: u128) -> (r: String)
    ensures
        r@ == id_text(id),
        reads_back_as(r@, id),
{
    ulid::Ulid(id).to_string()
}

/// Reads an identifier from its text form, by `ulid::Ulid::from_string`, and
/// hands back the number or which of the crate's two errors came.
#[verifier::external_body]
pub(crate) fn id_from_text(text: &str) -> (r: Result<u128, IdError>)
    ensures
        r == parsed_id(text@),
{
    match ulid::Ulid::from_string(text) {
        Ok(id) => Ok(id.0),
        Err(ulid::DecodeError::InvalidLength) => Err(IdError::InvalidLength),
        Err(ulid::DecodeError::InvalidChar) => Err(IdError::InvalidChar),
    }
}

/// The text form of an identifier, as the store keeps it and as it is shown
/// to the user.
pub fn text_of_id(id: u128) -> (r: String)
    ensures
        r@ == id_text(id),
        reads_back_as(r@, id),
{
    id_to_text(id)
}

/// The identifier that a text stands for, or why it stands for none.
pub fn id_of_text(text: &str) -> (r: Result<u128, IdError>)
    ensures
        r == parsed_id(text@),
{
    id_from_text(text)
}

} // verus!

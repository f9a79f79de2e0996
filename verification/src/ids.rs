use vstd::prelude::*;

verus! {

/// The 128-bit value that a given string denotes as a primary identifier,
/// or `None` when the string is not a syntactically valid one.
pub uninterp spec fn parsed_id(s: Seq<char>) -> Option<u128>;

/// The canonical text of a primary identifier.
pub uninterp spec fn id_text(id: u128) -> Seq<char>;

/// Relies on `uuid::Uuid::try_parse`: whether a string parses, and the
/// 128-bit value it carries, depend on its characters alone.
#[verifier::external_body]
pub fn parse_primary_id(s: &str) -> (r: Option<u128>)
    ensures
        r == parsed_id(s@),
{
    match uuid::Uuid::try_parse(s) {
        Ok(u) => Some(u.as_u128()),
        Err(_) => None,
    }
}

/// Relies on `uuid::Uuid`'s display form: the hyphenated text of an
/// identifier depends on its 128-bit value alone.
#[verifier::external_body]
pub fn format_primary_id(id: u128) -> (r: String)
    ensures
        r@ == id_text(id),
{
    format!("{}", uuid::Uuid::from_u128(id))
}

} // verus!

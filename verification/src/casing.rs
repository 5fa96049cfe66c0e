//! Name casing for derived identifiers: the store key is the snake-case
//! form of a command's display name, the marker type is its upper-camel-case
//! form, and the constant is the upper-snake-case form of the marker name.
//! The case conversions come from the `convert_case` crate; each result is a
//! function of the input characters alone.

use vstd::prelude::*;

verus! {

/// The snake_case form of a name, as `convert_case` computes it.
pub uninterp spec fn snake_of(s: Seq<char>) -> Seq<char>;

/// The UpperCamelCase form of a name, as `convert_case` computes it.
pub uninterp spec fn upper_camel_of(s: Seq<char>) -> Seq<char>;

/// The UPPER_SNAKE_CASE form of a name, as `convert_case` computes it.
pub uninterp spec fn upper_snake_of(s: Seq<char>) -> Seq<char>;

/// Relies on `convert_case`'s `Casing::to_case` with `Case::Snake`: the
/// result depends on the input characters alone.
#[verifier::external_body]
pub fn to_snake(s: &str) -> (r: String)
    ensures
        r@ == snake_of(s@),
{
    convert_case::Casing::to_case(&s, convert_case::Case::Snake)
}

/// Relies on `convert_case`'s `Casing::to_case` with `Case::UpperCamel`: the
/// result depends on the input characters alone.
#[verifier::external_body]
pub fn to_upper_camel(s: &str) -> (r: String)
    ensures
        r@ == upper_camel_of(s@),
{
    convert_case::Casing::to_case(&s, convert_case::Case::UpperCamel)
}

/// Relies on `convert_case`'s `Casing::to_case` with `Case::UpperSnake`: the
/// result depends on the input characters alone.
#[verifier::external_body]
pub fn to_upper_snake(s: &str) -> (r: String)
    ensures
        r@ == upper_snake_of(s@),
{
    convert_case::Casing::to_case(&s, convert_case::Case::UpperSnake)
}

} // verus!

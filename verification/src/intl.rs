//! Documents as values of the Fluent localization system.

use crate::parser::{rendered_all, RichString};
use fluent_bundle::FluentValue;
use std::borrow::Cow;
use vstd::prelude::*;

verus! {

/// `fluent_bundle::FluentValue`: a value that a Fluent message takes as an
/// argument. It is carried through; nothing here looks inside it.
#[verifier::external_type_specification]
#[verifier::external_body]
pub struct ExFluentValue<'source>(FluentValue<'source>);

/// The `FluentValue::String` that holds `text`.
pub uninterp spec fn string_value(text: Seq<char>) -> FluentValue<'static>;

/// `FluentValue::String` around an owned string: the variant of the enum
/// `FluentValue` for text. The contract gives that value its name; what
/// Fluent does with it is not stated.
#[verifier::external_body]
fn fluent_string<'source>(text: String) -> (value: FluentValue<'source>)
    ensures
        value == string_value(text@),
{
    FluentValue::String(Cow::Owned(text))
}

impl<'a, 'source> From<RichString<'a>> for FluentValue<'source> {
    /// The document as it is printed, as a string value for Fluent.
    fn from(doc: RichString<'a>) -> (value: Self)
        ensures
            value == string_value(rendered_all(doc@)),
    {
        fluent_string(doc.to_string())
    }
}

impl<'a, 'source> vstd::std_specs::convert::FromSpecImpl<RichString<'a>> for FluentValue<'source> {
    open spec fn obeys_from_spec() -> bool {
        true
    }

    open spec fn from_spec(doc: RichString<'a>) -> Self {
        string_value(rendered_all(doc@))
    }
}

} // verus!

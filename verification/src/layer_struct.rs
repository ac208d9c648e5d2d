//! How the fields of a layer struct are told apart.
//!
//! Each field of a layer struct carries an attribute that says where its
//! value comes from: `#[layer]` for a layer from the registry, `#[default]`
//! for the default of its type, `#[value = ..]` for a given expression.
use vstd::prelude::*;

verus! {

/// Where the value of a field comes from.
#[derive(Clone, Copy, Debug, PartialEq, Eq)]
pub enum FieldKind {
    /// Another layer, taken from the registry.
    Layer,
    /// The default of the field's type.
    Default,
    /// An expression that the attribute gives.
    Data,
}

/// The shape of an attribute, with its name where it has a single one.
pub enum AttrShape {
    /// A list in parentheses, as in `#[derive(..)]`.
    List,
    /// A name and a value, as in `#[value = 39]`. `None` where the name is a
    /// path of several segments.
    NameValue(Option<String>),
    /// A bare name, as in `#[layer]`. `None` where the name is a path of
    /// several segments.
    Path(Option<String>),
}

/// Why an attribute says nothing of a field.
#[derive(Clone, Copy, Debug, PartialEq, Eq)]
pub enum AttrError {
    /// The attribute is none of `layer`, `default` and `value = ..`.
    Unexpected,
    /// The name of the attribute is a path of several segments.
    NotAnIdent,
}

/// What an attribute of the shape `shape` makes of its field.
pub open spec fn kind_of(shape: AttrShape) -> Result<FieldKind, AttrError> {
    match shape {
        AttrShape::List => Err(AttrError::Unexpected),
        AttrShape::NameValue(None) => Err(AttrError::NotAnIdent),
        AttrShape::NameValue(Some(name)) => if name@ == "value"@ {
            Ok(FieldKind::Data)
        } else {
            Err(AttrError::Unexpected)
        },
        AttrShape::Path(None) => Err(AttrError::NotAnIdent),
        AttrShape::Path(Some(name)) => if name@ == "default"@ {
            Ok(FieldKind::Default)
        } else if name@ == "layer"@ {
            Ok(FieldKind::Layer)
        } else {
            Err(AttrError::Unexpected)
        },
    }
}

/// Tells from the first attribute of a field where the value of the field
/// comes from.
pub fn field_kind(shape: &AttrShape) -> (kind: Result<FieldKind, AttrError>)
    ensures
        kind == kind_of(*shape),
{
    match shape {
        AttrShape::List => Err(AttrError::Unexpected),
        AttrShape::NameValue(None) => Err(AttrError::NotAnIdent),
        AttrShape::NameValue(Some(name)) => {
            if *name == "value".to_owned() {
                Ok(FieldKind::Data)
            } else {
                Err(AttrError::Unexpected)
            }
        },
        AttrShape::Path(None) => Err(AttrError::NotAnIdent),
        AttrShape::Path(Some(name)) => {
            if *name == "default".to_owned() {
                Ok(FieldKind::Default)
            } else if *name == "layer".to_owned() {
                Ok(FieldKind::Layer)
            } else {
                Err(AttrError::Unexpected)
            }
        },
    }
}

} // verus!

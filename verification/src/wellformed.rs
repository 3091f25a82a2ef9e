//! Which signature values the writer and the reader agree on: the values whose text
//! reads back as the same value.
use vstd::prelude::*;

use crate::signature::{
    SpecClassSignature, SpecClassTypeSignature, SpecMethodSignature, SpecSignatureType,
    SpecSimpleClassTypeSignature, SpecThrowsSignature, SpecTypeArgument, SpecTypeParameter,
};

verus! {

/// A non-empty name that holds none of the `forbidden` characters.
pub open spec fn valid_name(name: Seq<char>, forbidden: Seq<char>) -> bool {
    &&& name.len() > 0
    &&& forall|i: int| 0 <= i < name.len() ==> !forbidden.contains(#[trigger] name[i])
}

/// Characters that end a package or outer class name.
pub open spec fn class_name_stops() -> Seq<char> {
    seq!['/', ';', '<', '.']
}

/// Characters that end an inner class name.
pub open spec fn inner_name_stops() -> Seq<char> {
    seq![';', '<', '.']
}

pub open spec fn wf_type(t: SpecSignatureType) -> bool
    decreases t,
{
    match t {
        SpecSignatureType::Base(_) => true,
        SpecSignatureType::TypeVariable(name) => valid_name(name, seq![';']),
        SpecSignatureType::Array(element) => wf_type(*element),
        SpecSignatureType::Class(c) => wf_class_type(c),
    }
}

/// A well-formed class type, type variable or array type.
pub open spec fn wf_reference(t: SpecSignatureType) -> bool {
    !(t is Base) && wf_type(t)
}

pub open spec fn wf_class_type(c: SpecClassTypeSignature) -> bool
    decreases c,
{
    &&& forall|i: int|
        0 <= i < c.package_specifier.len() ==> valid_name(
            #[trigger] c.package_specifier[i],
            class_name_stops(),
        )
    &&& wf_simple_class(c.simple_class, class_name_stops())
    &&& wf_suffixes(c.suffixes)
}

pub open spec fn wf_suffixes(s: Seq<SpecSimpleClassTypeSignature>) -> bool
    decreases s,
{
    if s.len() == 0 {
        true
    } else {
        wf_suffixes(s.drop_last()) && wf_simple_class(s.last(), inner_name_stops())
    }
}

pub open spec fn wf_simple_class(c: SpecSimpleClassTypeSignature, stops: Seq<char>) -> bool
    decreases c,
{
    valid_name(c.name, stops) && wf_arguments(c.type_arguments)
}

pub open spec fn wf_arguments(s: Seq<SpecTypeArgument>) -> bool
    decreases s,
{
    if s.len() == 0 {
        true
    } else {
        wf_arguments(s.drop_last()) && wf_argument(s.last())
    }
}

pub open spec fn wf_argument(a: SpecTypeArgument) -> bool
    decreases a,
{
    match a {
        SpecTypeArgument::Any => true,
        SpecTypeArgument::Exact(t) => !(t is Base) && wf_type(t),
        SpecTypeArgument::Extends(t) => !(t is Base) && wf_type(t),
        SpecTypeArgument::Super(t) => !(t is Base) && wf_type(t),
    }
}

/// Whether a character could start a reference type.
pub open spec fn starts_reference(c: char) -> bool {
    c == 'L' || c == 'T' || c == '['
}

pub open spec fn wf_type_parameter(p: SpecTypeParameter) -> bool {
    &&& valid_name(p.name, seq![':'])
    &&& p.name[0] != '>'
    &&& p.class_bound matches Some(t) ==> wf_reference(t)
    &&& forall|i: int|
        0 <= i < p.interface_bounds.len() ==> wf_reference(#[trigger] p.interface_bounds[i])
}

/// Each parameter is well formed, and a parameter with no bounds at all is not
/// followed by one whose name starts like a reference type (it would read as its bound).
pub open spec fn wf_type_parameters(ps: Seq<SpecTypeParameter>) -> bool {
    &&& forall|i: int| 0 <= i < ps.len() ==> wf_type_parameter(#[trigger] ps[i])
    &&& forall|i: int|
        0 <= i && i + 1 < ps.len() && (#[trigger] ps[i]).class_bound is None
            && ps[i].interface_bounds.len() == 0 ==> !starts_reference(ps[i + 1].name[0])
}

pub open spec fn wf_throws(t: SpecThrowsSignature) -> bool {
    match t {
        SpecThrowsSignature::Class(c) => wf_class_type(c),
        SpecThrowsSignature::TypeVariable(name) => valid_name(name, seq![';']),
    }
}

pub open spec fn wf_class_signature(c: SpecClassSignature) -> bool {
    &&& wf_type_parameters(c.type_parameters)
    &&& wf_class_type(c.super_class)
    &&& forall|i: int| 0 <= i < c.interfaces.len() ==> wf_class_type(#[trigger] c.interfaces[i])
}

pub open spec fn wf_method_signature(m: SpecMethodSignature) -> bool {
    &&& wf_type_parameters(m.type_parameters)
    &&& forall|i: int| 0 <= i < m.parameter_types.len() ==> wf_type(#[trigger] m.parameter_types[i])
    &&& wf_type(m.return_type)
    &&& forall|i: int| 0 <= i < m.throws.len() ==> wf_throws(#[trigger] m.throws[i])
}

} // verus!

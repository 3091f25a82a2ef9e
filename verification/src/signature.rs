use vstd::prelude::*;

use crate::types::Type;

pub use crate::parser::{parse_class_signature, parse_field_signature, parse_method_signature};

verus! {

/// A generic class signature: `<type parameters> superclass interfaces...`.
#[derive(Debug, PartialEq, Eq)]
pub struct ClassSignature {
    pub type_parameters: Vec<TypeParameter>,
    pub super_class: ClassTypeSignature,
    pub interfaces: Vec<ClassTypeSignature>,
}

/// A generic method signature: `<type parameters>(parameters)return^throws...`.
#[derive(Debug, PartialEq, Eq)]
pub struct MethodSignature {
    pub type_parameters: Vec<TypeParameter>,
    pub parameter_types: Vec<SignatureType>,
    pub return_type: SignatureType,
    pub throws: Vec<ThrowsSignature>,
}

/// A formal type parameter with its optional class bound and its interface bounds.
#[derive(Debug, PartialEq, Eq)]
pub struct TypeParameter {
    pub name: String,
    pub class_bound: Option<SignatureType>,
    pub interface_bounds: Vec<SignatureType>,
}

/// One entry of a method's `throws` clause.
#[derive(Debug, PartialEq, Eq)]
pub enum ThrowsSignature {
    Class(ClassTypeSignature),
    TypeVariable(String),
}

/// A Java type as it appears in a signature.
#[derive(Debug, PartialEq, Eq)]
pub enum SignatureType {
    Base(Type),
    TypeVariable(String),
    Array(Box<SignatureType>),
    Class(ClassTypeSignature),
}

/// A (possibly parameterized, possibly nested) class type.
#[derive(Debug, PartialEq, Eq)]
pub struct ClassTypeSignature {
    pub package_specifier: Vec<String>,
    pub simple_class: SimpleClassTypeSignature,
    pub suffixes: Vec<SimpleClassTypeSignature>,
}

/// A class name together with its type arguments.
#[derive(Debug, PartialEq, Eq)]
pub struct SimpleClassTypeSignature {
    pub name: String,
    pub type_arguments: Vec<TypeArgument>,
}

/// A type argument: a wildcard, an exact type or a bounded wildcard.
#[derive(Debug, PartialEq, Eq)]
pub enum TypeArgument {
    Any,
    Exact(SignatureType),
    Extends(SignatureType),
    Super(SignatureType),
}

/// Why a signature was rejected.
#[derive(Debug, PartialEq, Eq)]
pub enum SignatureError {
    UnexpectedEof,
    Invalid { offset: usize, message: String },
}

// ---------------------------------------------------------------------------
// Mathematical models of the signature types: names become character sequences
// and vectors become sequences.
// ---------------------------------------------------------------------------

pub enum SpecSignatureType {
    Base(Type),
    TypeVariable(Seq<char>),
    Array(Box<SpecSignatureType>),
    Class(SpecClassTypeSignature),
}

pub struct SpecClassTypeSignature {
    pub package_specifier: Seq<Seq<char>>,
    pub simple_class: SpecSimpleClassTypeSignature,
    pub suffixes: Seq<SpecSimpleClassTypeSignature>,
}

pub struct SpecSimpleClassTypeSignature {
    pub name: Seq<char>,
    pub type_arguments: Seq<SpecTypeArgument>,
}

pub enum SpecTypeArgument {
    Any,
    Exact(SpecSignatureType),
    Extends(SpecSignatureType),
    Super(SpecSignatureType),
}

pub struct SpecTypeParameter {
    pub name: Seq<char>,
    pub class_bound: Option<SpecSignatureType>,
    pub interface_bounds: Seq<SpecSignatureType>,
}

pub enum SpecThrowsSignature {
    Class(SpecClassTypeSignature),
    TypeVariable(Seq<char>),
}

pub struct SpecClassSignature {
    pub type_parameters: Seq<SpecTypeParameter>,
    pub super_class: SpecClassTypeSignature,
    pub interfaces: Seq<SpecClassTypeSignature>,
}

pub struct SpecMethodSignature {
    pub type_parameters: Seq<SpecTypeParameter>,
    pub parameter_types: Seq<SpecSignatureType>,
    pub return_type: SpecSignatureType,
    pub throws: Seq<SpecThrowsSignature>,
}

pub enum SpecSignatureError {
    UnexpectedEof,
    Invalid { offset: int, message: Seq<char> },
}

pub open spec fn signature_type_model(t: SignatureType) -> SpecSignatureType
    decreases t,
{
    match t {
        SignatureType::Base(b) => SpecSignatureType::Base(b),
        SignatureType::TypeVariable(n) => SpecSignatureType::TypeVariable(n@),
        SignatureType::Array(e) => SpecSignatureType::Array(Box::new(signature_type_model(*e))),
        SignatureType::Class(c) => SpecSignatureType::Class(class_type_model(c)),
    }
}

pub open spec fn class_type_model(c: ClassTypeSignature) -> SpecClassTypeSignature
    decreases c,
{
    SpecClassTypeSignature {
        package_specifier: c.package_specifier@.map_values(|n: String| n@),
        simple_class: simple_class_model(c.simple_class),
        suffixes: simple_classes_model(c.suffixes@),
    }
}

pub open spec fn simple_class_model(s: SimpleClassTypeSignature) -> SpecSimpleClassTypeSignature
    decreases s,
{
    SpecSimpleClassTypeSignature {
        name: s.name@,
        type_arguments: type_arguments_model(s.type_arguments@),
    }
}

pub open spec fn simple_classes_model(s: Seq<SimpleClassTypeSignature>) -> Seq<
    SpecSimpleClassTypeSignature,
>
    decreases s,
{
    if s.len() == 0 {
        seq![]
    } else {
        simple_classes_model(s.drop_last()).push(simple_class_model(s.last()))
    }
}

pub open spec fn type_arguments_model(s: Seq<TypeArgument>) -> Seq<SpecTypeArgument>
    decreases s,
{
    if s.len() == 0 {
        seq![]
    } else {
        type_arguments_model(s.drop_last()).push(type_argument_model(s.last()))
    }
}

pub open spec fn type_argument_model(a: TypeArgument) -> SpecTypeArgument
    decreases a,
{
    match a {
        TypeArgument::Any => SpecTypeArgument::Any,
        TypeArgument::Exact(t) => SpecTypeArgument::Exact(signature_type_model(t)),
        TypeArgument::Extends(t) => SpecTypeArgument::Extends(signature_type_model(t)),
        TypeArgument::Super(t) => SpecTypeArgument::Super(signature_type_model(t)),
    }
}

pub open spec fn type_parameter_model(p: TypeParameter) -> SpecTypeParameter {
    SpecTypeParameter {
        name: p.name@,
        class_bound: match p.class_bound {
            Some(t) => Some(signature_type_model(t)),
            None => None,
        },
        interface_bounds: p.interface_bounds@.map_values(|t: SignatureType| signature_type_model(t)),
    }
}

pub open spec fn throws_model(t: ThrowsSignature) -> SpecThrowsSignature {
    match t {
        ThrowsSignature::Class(c) => SpecThrowsSignature::Class(class_type_model(c)),
        ThrowsSignature::TypeVariable(n) => SpecThrowsSignature::TypeVariable(n@),
    }
}

pub open spec fn class_signature_model(c: ClassSignature) -> SpecClassSignature {
    SpecClassSignature {
        type_parameters: c.type_parameters@.map_values(|p: TypeParameter| type_parameter_model(p)),
        super_class: class_type_model(c.super_class),
        interfaces: c.interfaces@.map_values(|i: ClassTypeSignature| class_type_model(i)),
    }
}

pub open spec fn method_signature_model(m: MethodSignature) -> SpecMethodSignature {
    SpecMethodSignature {
        type_parameters: m.type_parameters@.map_values(|p: TypeParameter| type_parameter_model(p)),
        parameter_types: m.parameter_types@.map_values(|t: SignatureType| signature_type_model(t)),
        return_type: signature_type_model(m.return_type),
        throws: m.throws@.map_values(|t: ThrowsSignature| throws_model(t)),
    }
}

pub open spec fn error_model(e: SignatureError) -> SpecSignatureError {
    match e {
        SignatureError::UnexpectedEof => SpecSignatureError::UnexpectedEof,
        SignatureError::Invalid { offset, message } => SpecSignatureError::Invalid {
            offset: offset as int,
            message: message@,
        },
    }
}

impl View for SignatureType {
    type V = SpecSignatureType;

    open spec fn view(&self) -> SpecSignatureType {
        signature_type_model(*self)
    }
}

impl View for ClassTypeSignature {
    type V = SpecClassTypeSignature;

    open spec fn view(&self) -> SpecClassTypeSignature {
        class_type_model(*self)
    }
}

impl View for SimpleClassTypeSignature {
    type V = SpecSimpleClassTypeSignature;

    open spec fn view(&self) -> SpecSimpleClassTypeSignature {
        simple_class_model(*self)
    }
}

impl View for TypeArgument {
    type V = SpecTypeArgument;

    open spec fn view(&self) -> SpecTypeArgument {
        type_argument_model(*self)
    }
}

impl View for TypeParameter {
    type V = SpecTypeParameter;

    open spec fn view(&self) -> SpecTypeParameter {
        type_parameter_model(*self)
    }
}

impl View for ThrowsSignature {
    type V = SpecThrowsSignature;

    open spec fn view(&self) -> SpecThrowsSignature {
        throws_model(*self)
    }
}

impl View for ClassSignature {
    type V = SpecClassSignature;

    open spec fn view(&self) -> SpecClassSignature {
        class_signature_model(*self)
    }
}

impl View for MethodSignature {
    type V = SpecMethodSignature;

    open spec fn view(&self) -> SpecMethodSignature {
        method_signature_model(*self)
    }
}

impl View for SignatureError {
    type V = SpecSignatureError;

    open spec fn view(&self) -> SpecSignatureError {
        error_model(*self)
    }
}

impl SignatureType {
    /// A primitive type.
    pub fn base(ty: Type) -> (res: Self)
        ensures
            res@ == SpecSignatureType::Base(ty),
    {
        Self::Base(ty)
    }

    /// The class type, when this is one.
    pub fn as_class(&self) -> (res: Option<&ClassTypeSignature>)
        ensures
            match *self {
                SignatureType::Class(c) => res == Some(&c),
                _ => res is None,
            },
    {
        match self {
            SignatureType::Class(class) => Some(class),
            _ => None,
        }
    }
}

} // verus!

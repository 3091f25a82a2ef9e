//! The signature grammar as spec functions over the UTF-8 bytes of a signature.
//!
//! Each `*_at` function reads from position `pos` of the byte sequence `s` and gives
//! either the value it read with the position just after it, or the error that the
//! reader reports.  A few recursive calls are guarded by a check that the position
//! moved forward; `lemma_*_advances` shows that those guards never fire.
use vstd::prelude::*;
use vstd::utf8::{decode_utf8, valid_utf8};

use crate::signature::{SpecClassSignature, SpecMethodSignature, SpecThrowsSignature, SpecTypeParameter, SpecClassTypeSignature, SpecSignatureError, SpecSignatureType, SpecSimpleClassTypeSignature, SpecTypeArgument};
use crate::types::Type;

verus! {

// The bytes that the grammar gives a meaning to.
pub const CLASS_START: u8 = 0x4C;
pub const TYPE_VARIABLE_START: u8 = 0x54;
pub const ARRAY_START: u8 = 0x5B;
pub const SEMICOLON: u8 = 0x3B;
pub const SLASH: u8 = 0x2F;
pub const DOT: u8 = 0x2E;
pub const OPEN_ANGLE: u8 = 0x3C;
pub const CLOSE_ANGLE: u8 = 0x3E;
pub const COLON: u8 = 0x3A;
pub const STAR: u8 = 0x2A;
pub const PLUS: u8 = 0x2B;
pub const MINUS: u8 = 0x2D;
pub const BYTE_LETTER: u8 = 0x42;
pub const CHAR_LETTER: u8 = 0x43;
pub const DOUBLE_LETTER: u8 = 0x44;
pub const FLOAT_LETTER: u8 = 0x46;
pub const INT_LETTER: u8 = 0x49;
pub const LONG_LETTER: u8 = 0x4A;
pub const SHORT_LETTER: u8 = 0x53;
pub const BOOLEAN_LETTER: u8 = 0x5A;
pub const VOID_LETTER: u8 = 0x56;
pub const OPEN_PAREN: u8 = 0x28;
pub const CLOSE_PAREN: u8 = 0x29;
pub const CARET: u8 = 0x5E;

/// A value read from a signature together with the position just after it.
pub type Parsed<T> = Result<(T, int), SpecSignatureError>;

pub open spec fn invalid<T>(offset: int, message: Seq<char>) -> Parsed<T> {
    Err(SpecSignatureError::Invalid { offset, message })
}

/// A message that ends in the given byte (read as a Latin-1 character) between quotes.
pub open spec fn quoted(prefix: Seq<char>, byte: u8) -> Seq<char> {
    prefix + seq![byte as char] + "'"@
}

pub open spec fn expected_message(expected: u8, found: u8) -> Seq<char> {
    quoted(quoted("expected '"@, expected) + ", found '"@, found)
}

pub open spec fn peek_at(s: Seq<u8>, pos: int) -> Result<u8, SpecSignatureError> {
    if 0 <= pos < s.len() {
        Ok(s[pos])
    } else {
        Err(SpecSignatureError::UnexpectedEof)
    }
}

pub open spec fn expect_at(s: Seq<u8>, pos: int, expected: u8) -> Result<int, SpecSignatureError> {
    match peek_at(s, pos) {
        Err(e) => Err(e),
        Ok(b) => if b == expected {
            Ok(pos + 1)
        } else {
            Err(SpecSignatureError::Invalid { offset: pos, message: expected_message(expected, b) })
        },
    }
}

/// Delimiters of package and outer class names.
pub open spec fn class_name_delimiters() -> Seq<u8> {
    seq![SLASH, SEMICOLON, OPEN_ANGLE, DOT]
}

/// Delimiters of inner class names.
pub open spec fn inner_name_delimiters() -> Seq<u8> {
    seq![SEMICOLON, OPEN_ANGLE, DOT]
}

/// The first position at or after `pos` that holds a delimiter, or the end.
pub open spec fn identifier_end(s: Seq<u8>, pos: int, delimiters: Seq<u8>) -> int
    decreases s.len() - pos,
{
    if pos < 0 || pos >= s.len() || delimiters.contains(s[pos]) {
        pos
    } else {
        identifier_end(s, pos + 1, delimiters)
    }
}

pub open spec fn identifier_at(s: Seq<u8>, pos: int, delimiters: Seq<u8>) -> Parsed<Seq<char>> {
    let end = identifier_end(s, pos, delimiters);
    if end == pos {
        invalid(pos, "expected identifier"@)
    } else if !valid_utf8(s.subrange(pos, end)) {
        invalid(end, "invalid utf-8"@)
    } else {
        Ok((decode_utf8(s.subrange(pos, end)), end))
    }
}

pub proof fn lemma_identifier_end(s: Seq<u8>, pos: int, delimiters: Seq<u8>)
    requires
        0 <= pos <= s.len(),
    ensures
        pos <= identifier_end(s, pos, delimiters) <= s.len(),
        forall|i: int|
            pos <= i < identifier_end(s, pos, delimiters) ==> !delimiters.contains(#[trigger] s[i]),
        identifier_end(s, pos, delimiters) < s.len() ==> delimiters.contains(
            s[identifier_end(s, pos, delimiters)],
        ),
    decreases s.len() - pos,
{
    if pos < s.len() && !delimiters.contains(s[pos]) {
        lemma_identifier_end(s, pos + 1, delimiters);
    }
}

pub proof fn lemma_identifier_at(s: Seq<u8>, pos: int, delimiters: Seq<u8>)
    requires
        0 <= pos <= s.len(),
    ensures
        identifier_at(s, pos, delimiters) matches Ok((_, end)) ==> pos < end <= s.len(),
{
    lemma_identifier_end(s, pos, delimiters);
}

pub open spec fn type_variable_at(s: Seq<u8>, pos: int) -> Parsed<Seq<char>> {
    match expect_at(s, pos, TYPE_VARIABLE_START) {
        Err(e) => Err(e),
        Ok(p1) => match identifier_at(s, p1, seq![SEMICOLON]) {
            Err(e) => Err(e),
            Ok((name, p2)) => match expect_at(s, p2, SEMICOLON) {
                Err(e) => Err(e),
                Ok(p3) => Ok((name, p3)),
            },
        },
    }
}

/// The primitive type that a one-letter descriptor names, if it names one.
pub open spec fn base_type_of(b: u8) -> Option<Type> {
    if b == BYTE_LETTER {
        Some(Type::Byte)
    } else if b == CHAR_LETTER {
        Some(Type::Char)
    } else if b == DOUBLE_LETTER {
        Some(Type::Double)
    } else if b == FLOAT_LETTER {
        Some(Type::Float)
    } else if b == INT_LETTER {
        Some(Type::Int)
    } else if b == LONG_LETTER {
        Some(Type::Long)
    } else if b == SHORT_LETTER {
        Some(Type::Short)
    } else if b == BOOLEAN_LETTER {
        Some(Type::Boolean)
    } else if b == VOID_LETTER {
        Some(Type::Void)
    } else {
        None
    }
}

/// A primitive type, or else a reference type.
pub open spec fn java_type_at(s: Seq<u8>, pos: int) -> Parsed<SpecSignatureType>
    decreases s.len() - pos, 4int,
{
    match peek_at(s, pos) {
        Err(e) => Err(e),
        Ok(b) => match base_type_of(b) {
            Some(t) => Ok((SpecSignatureType::Base(t), pos + 1)),
            None => reference_type_at(s, pos),
        },
    }
}

/// A class type, a type variable or an array type.
pub open spec fn reference_type_at(s: Seq<u8>, pos: int) -> Parsed<SpecSignatureType>
    decreases s.len() - pos, 3int,
{
    match peek_at(s, pos) {
        Err(e) => Err(e),
        Ok(b) => if b == CLASS_START {
            match class_type_at(s, pos) {
                Err(e) => Err(e),
                Ok((c, p)) => Ok((SpecSignatureType::Class(c), p)),
            }
        } else if b == TYPE_VARIABLE_START {
            match type_variable_at(s, pos) {
                Err(e) => Err(e),
                Ok((n, p)) => Ok((SpecSignatureType::TypeVariable(n), p)),
            }
        } else if b == ARRAY_START {
            match java_type_at(s, pos + 1) {
                Err(e) => Err(e),
                Ok((t, p)) => Ok((SpecSignatureType::Array(Box::new(t)), p)),
            }
        } else {
            invalid(pos, quoted("expected reference type signature, found '"@, b))
        },
    }
}

/// `L` package/.../Name<args>.Inner<args>... `;`
pub open spec fn class_type_at(s: Seq<u8>, pos: int) -> Parsed<SpecClassTypeSignature>
    decreases s.len() - pos, 2int,
{
    match expect_at(s, pos, CLASS_START) {
        Err(e) => Err(e),
        Ok(p1) => match identifier_at(s, p1, class_name_delimiters()) {
            Err(e) => Err(e),
            Ok((first, p2)) => {
                proof {
                    lemma_identifier_at(s, p1, class_name_delimiters());
                }
                match package_at(s, p2, seq![], first) {
                    Err(e) => Err(e),
                    Ok((names, p3)) => {
                        proof {
                            lemma_package_at(s, p2, seq![], first);
                        }
                        match simple_class_at(s, p3, names.1) {
                            Err(e) => Err(e),
                            Ok((simple, p4)) => if p4 < p3 || p4 > s.len() {
                                Err(SpecSignatureError::UnexpectedEof)
                            } else {
                                match suffixes_at(s, p4, seq![]) {
                                    Err(e) => Err(e),
                                    Ok((suffixes, p5)) => match expect_at(s, p5, SEMICOLON) {
                                        Err(e) => Err(e),
                                        Ok(p6) => Ok(
                                            (
                                                SpecClassTypeSignature {
                                                    package_specifier: names.0,
                                                    simple_class: simple,
                                                    suffixes,
                                                },
                                                p6,
                                            ),
                                        ),
                                    },
                                }
                            },
                        }
                    },
                }
            },
        },
    }
}

/// Reads `/name` segments after the first name; gives the package names and the
/// class name that follows them.
pub open spec fn package_at(s: Seq<u8>, pos: int, packages: Seq<Seq<char>>, name: Seq<char>) -> Parsed<
    (Seq<Seq<char>>, Seq<char>),
>
    decreases s.len() - pos,
{
    match peek_at(s, pos) {
        Err(e) => Err(e),
        Ok(b) => if b == SLASH {
            match identifier_at(s, pos + 1, class_name_delimiters()) {
                Err(e) => Err(e),
                Ok((next, p)) => {
                    proof {
                        lemma_identifier_at(s, pos + 1, class_name_delimiters());
                    }
                    package_at(s, p, packages.push(name), next)
                },
            }
        } else {
            Ok(((packages, name), pos))
        },
    }
}

pub proof fn lemma_package_at(s: Seq<u8>, pos: int, packages: Seq<Seq<char>>, name: Seq<char>)
    requires
        0 <= pos <= s.len(),
    ensures
        package_at(s, pos, packages, name) matches Ok((_, end)) ==> pos <= end < s.len(),
    decreases s.len() - pos,
{
    if 0 <= pos < s.len() && s[pos] == SLASH {
        lemma_identifier_at(s, pos + 1, class_name_delimiters());
        if let Ok((next, p)) = identifier_at(s, pos + 1, class_name_delimiters()) {
            lemma_package_at(s, p, packages.push(name), next);
        }
    }
}

/// A class name followed by its type arguments, if a `<` follows it.
pub open spec fn simple_class_at(s: Seq<u8>, pos: int, name: Seq<char>) -> Parsed<
    SpecSimpleClassTypeSignature,
>
    decreases s.len() - pos, 1int,
{
    if 0 <= pos < s.len() && s[pos] == OPEN_ANGLE {
        match type_arguments_at(s, pos) {
            Err(e) => Err(e),
            Ok((args, p)) => Ok((SpecSimpleClassTypeSignature { name, type_arguments: args }, p)),
        }
    } else {
        Ok((SpecSimpleClassTypeSignature { name, type_arguments: seq![] }, pos))
    }
}

/// `.Inner<args>` segments, up to the first byte that is not a `.`.
pub open spec fn suffixes_at(s: Seq<u8>, pos: int, acc: Seq<SpecSimpleClassTypeSignature>) -> Parsed<
    Seq<SpecSimpleClassTypeSignature>,
>
    decreases s.len() - pos, 0int,
{
    match peek_at(s, pos) {
        Err(e) => Err(e),
        Ok(b) => if b == DOT {
            match identifier_at(s, pos + 1, inner_name_delimiters()) {
                Err(e) => Err(e),
                Ok((name, p1)) => {
                    proof {
                        lemma_identifier_at(s, pos + 1, inner_name_delimiters());
                    }
                    match simple_class_at(s, p1, name) {
                        Err(e) => Err(e),
                        Ok((simple, p2)) => if p2 < p1 || p2 > s.len() {
                            Err(SpecSignatureError::UnexpectedEof)
                        } else {
                            suffixes_at(s, p2, acc.push(simple))
                        },
                    }
                },
            }
        } else {
            Ok((acc, pos))
        },
    }
}

/// `<` type arguments `>`.
pub open spec fn type_arguments_at(s: Seq<u8>, pos: int) -> Parsed<Seq<SpecTypeArgument>>
    decreases s.len() - pos, 0int,
{
    match expect_at(s, pos, OPEN_ANGLE) {
        Err(e) => Err(e),
        Ok(p1) => match arguments_at(s, p1, seq![]) {
            Err(e) => Err(e),
            Ok((args, p2)) => match expect_at(s, p2, CLOSE_ANGLE) {
                Err(e) => Err(e),
                Ok(p3) => Ok((args, p3)),
            },
        },
    }
}

/// Type arguments up to the closing `>` (which it does not read).
pub open spec fn arguments_at(s: Seq<u8>, pos: int, acc: Seq<SpecTypeArgument>) -> Parsed<
    Seq<SpecTypeArgument>,
>
    decreases s.len() - pos, 5int,
{
    match peek_at(s, pos) {
        Err(e) => Err(e),
        Ok(b) => if b == CLOSE_ANGLE {
            Ok((acc, pos))
        } else {
            match type_argument_at(s, pos) {
                Err(e) => Err(e),
                Ok((arg, p)) => if p <= pos || p > s.len() {
                    Err(SpecSignatureError::UnexpectedEof)
                } else {
                    arguments_at(s, p, acc.push(arg))
                },
            }
        },
    }
}

/// `*`, `+` type, `-` type, or a type.
pub open spec fn type_argument_at(s: Seq<u8>, pos: int) -> Parsed<SpecTypeArgument>
    decreases s.len() - pos, 4int,
{
    match peek_at(s, pos) {
        Err(e) => Err(e),
        Ok(b) => if b == STAR {
            Ok((SpecTypeArgument::Any, pos + 1))
        } else if b == PLUS {
            match reference_type_at(s, pos + 1) {
                Err(e) => Err(e),
                Ok((t, p)) => Ok((SpecTypeArgument::Extends(t), p)),
            }
        } else if b == MINUS {
            match reference_type_at(s, pos + 1) {
                Err(e) => Err(e),
                Ok((t, p)) => Ok((SpecTypeArgument::Super(t), p)),
            }
        } else {
            match reference_type_at(s, pos) {
                Err(e) => Err(e),
                Ok((t, p)) => Ok((SpecTypeArgument::Exact(t), p)),
            }
        },
    }
}

pub proof fn lemma_type_variable_at(s: Seq<u8>, pos: int)
    requires
        0 <= pos <= s.len(),
    ensures
        type_variable_at(s, pos) matches Ok((_, p)) ==> pos < p <= s.len(),
{
    if let Ok(p1) = expect_at(s, pos, TYPE_VARIABLE_START) {
        lemma_identifier_at(s, p1, seq![SEMICOLON]);
    }
}

pub proof fn lemma_java_type_advances(s: Seq<u8>, pos: int)
    requires
        0 <= pos <= s.len(),
    ensures
        java_type_at(s, pos) matches Ok((_, p)) ==> pos < p <= s.len(),
    decreases s.len() - pos, 4int,
{
    if 0 <= pos < s.len() && base_type_of(s[pos]) is None {
        lemma_reference_type_advances(s, pos);
    }
}

pub proof fn lemma_reference_type_advances(s: Seq<u8>, pos: int)
    requires
        0 <= pos <= s.len(),
    ensures
        reference_type_at(s, pos) matches Ok((_, p)) ==> pos < p <= s.len(),
    decreases s.len() - pos, 3int,
{
    if 0 <= pos < s.len() {
        let b = s[pos];
        if b == CLASS_START {
            lemma_class_type_advances(s, pos);
        } else if b == TYPE_VARIABLE_START {
            lemma_type_variable_at(s, pos);
        } else if b == ARRAY_START {
            lemma_java_type_advances(s, pos + 1);
        }
    }
}

pub proof fn lemma_class_type_advances(s: Seq<u8>, pos: int)
    requires
        0 <= pos <= s.len(),
    ensures
        class_type_at(s, pos) matches Ok((_, p)) ==> pos < p <= s.len(),
    decreases s.len() - pos, 2int,
{
    if let Ok(p1) = expect_at(s, pos, CLASS_START) {
        lemma_identifier_at(s, p1, class_name_delimiters());
        if let Ok((first, p2)) = identifier_at(s, p1, class_name_delimiters()) {
            lemma_package_at(s, p2, seq![], first);
            if let Ok((names, p3)) = package_at(s, p2, seq![], first) {
                lemma_simple_class_advances(s, p3, names.1);
                if let Ok((simple, p4)) = simple_class_at(s, p3, names.1) {
                    lemma_suffixes_advance(s, p4, seq![]);
                }
            }
        }
    }
}

pub proof fn lemma_simple_class_advances(s: Seq<u8>, pos: int, name: Seq<char>)
    requires
        0 <= pos <= s.len(),
    ensures
        simple_class_at(s, pos, name) matches Ok((_, p)) ==> pos <= p <= s.len(),
    decreases s.len() - pos, 1int,
{
    if 0 <= pos < s.len() && s[pos] == OPEN_ANGLE {
        lemma_type_arguments_advance(s, pos);
    }
}

pub proof fn lemma_suffixes_advance(s: Seq<u8>, pos: int, acc: Seq<SpecSimpleClassTypeSignature>)
    requires
        0 <= pos <= s.len(),
    ensures
        suffixes_at(s, pos, acc) matches Ok((_, p)) ==> pos <= p <= s.len(),
    decreases s.len() - pos, 0int,
{
    if 0 <= pos < s.len() && s[pos] == DOT {
        lemma_identifier_at(s, pos + 1, inner_name_delimiters());
        if let Ok((name, p1)) = identifier_at(s, pos + 1, inner_name_delimiters()) {
            lemma_simple_class_advances(s, p1, name);
            if let Ok((simple, p2)) = simple_class_at(s, p1, name) {
                lemma_suffixes_advance(s, p2, acc.push(simple));
            }
        }
    }
}

pub proof fn lemma_type_arguments_advance(s: Seq<u8>, pos: int)
    requires
        0 <= pos <= s.len(),
    ensures
        type_arguments_at(s, pos) matches Ok((_, p)) ==> pos < p <= s.len(),
    decreases s.len() - pos, 0int,
{
    if let Ok(p1) = expect_at(s, pos, OPEN_ANGLE) {
        lemma_arguments_advance(s, p1, seq![]);
    }
}

pub proof fn lemma_arguments_advance(s: Seq<u8>, pos: int, acc: Seq<SpecTypeArgument>)
    requires
        0 <= pos <= s.len(),
    ensures
        arguments_at(s, pos, acc) matches Ok((_, p)) ==> pos <= p < s.len(),
    decreases s.len() - pos, 5int,
{
    if 0 <= pos < s.len() && s[pos] != CLOSE_ANGLE {
        lemma_type_argument_advances(s, pos);
        if let Ok((arg, p)) = type_argument_at(s, pos) {
            lemma_arguments_advance(s, p, acc.push(arg));
        }
    }
}

pub proof fn lemma_type_argument_advances(s: Seq<u8>, pos: int)
    requires
        0 <= pos <= s.len(),
    ensures
        type_argument_at(s, pos) matches Ok((_, p)) ==> pos < p <= s.len(),
    decreases s.len() - pos, 4int,
{
    if 0 <= pos < s.len() {
        let b = s[pos];
        if b == PLUS || b == MINUS {
            lemma_reference_type_advances(s, pos + 1);
        } else if b != STAR {
            lemma_reference_type_advances(s, pos);
        }
    }
}

// ---------------------------------------------------------------------------
// Type parameters and whole signatures.
// ---------------------------------------------------------------------------

/// `<` type parameters `>`, or nothing when the next byte is not `<`.
pub open spec fn type_parameters_at(s: Seq<u8>, pos: int) -> Parsed<Seq<SpecTypeParameter>> {
    if pos < 0 || pos >= s.len() || s[pos] != OPEN_ANGLE {
        Ok((seq![], pos))
    } else {
        match parameter_list_at(s, pos + 1, seq![]) {
            Err(e) => Err(e),
            Ok((params, p1)) => match expect_at(s, p1, CLOSE_ANGLE) {
                Err(e) => Err(e),
                Ok(p2) => Ok((params, p2)),
            },
        }
    }
}

/// Type parameters up to the closing `>` (which it does not read).
pub open spec fn parameter_list_at(s: Seq<u8>, pos: int, acc: Seq<SpecTypeParameter>) -> Parsed<
    Seq<SpecTypeParameter>,
>
    decreases s.len() - pos,
{
    match peek_at(s, pos) {
        Err(e) => Err(e),
        Ok(b) => if b == CLOSE_ANGLE {
            Ok((acc, pos))
        } else {
            match type_parameter_at(s, pos) {
                Err(e) => Err(e),
                Ok((param, p)) => {
                    proof {
                        lemma_type_parameter_advances(s, pos);
                    }
                    parameter_list_at(s, p, acc.push(param))
                },
            }
        },
    }
}

/// `name:` optional class bound, then `:`-prefixed interface bounds.
pub open spec fn type_parameter_at(s: Seq<u8>, pos: int) -> Parsed<SpecTypeParameter> {
    match identifier_at(s, pos, seq![COLON]) {
        Err(e) => Err(e),
        Ok((name, p1)) => match expect_at(s, p1, COLON) {
            Err(e) => Err(e),
            Ok(p2) => match class_bound_at(s, p2) {
                Err(e) => Err(e),
                Ok((class_bound, p3)) => match interface_bounds_at(s, p3, seq![]) {
                    Err(e) => Err(e),
                    Ok((interface_bounds, p4)) => Ok(
                        (SpecTypeParameter { name, class_bound, interface_bounds }, p4),
                    ),
                },
            },
        },
    }
}

/// A class bound is present exactly when a reference type starts here.
pub open spec fn class_bound_at(s: Seq<u8>, pos: int) -> Parsed<Option<SpecSignatureType>> {
    match peek_at(s, pos) {
        Err(e) => Err(e),
        Ok(b) => if b == CLASS_START || b == TYPE_VARIABLE_START || b == ARRAY_START {
            match reference_type_at(s, pos) {
                Err(e) => Err(e),
                Ok((t, p)) => Ok((Some(t), p)),
            }
        } else {
            Ok((None, pos))
        },
    }
}

/// `:` reference type, as many times as a `:` follows.
pub open spec fn interface_bounds_at(s: Seq<u8>, pos: int, acc: Seq<SpecSignatureType>) -> Parsed<
    Seq<SpecSignatureType>,
>
    decreases s.len() - pos,
{
    match peek_at(s, pos) {
        Err(e) => Err(e),
        Ok(b) => if b == COLON {
            match reference_type_at(s, pos + 1) {
                Err(e) => Err(e),
                Ok((t, p)) => {
                    proof {
                        lemma_reference_type_advances(s, pos + 1);
                    }
                    interface_bounds_at(s, p, acc.push(t))
                },
            }
        } else {
            Ok((acc, pos))
        },
    }
}

pub proof fn lemma_interface_bounds_advance(s: Seq<u8>, pos: int, acc: Seq<SpecSignatureType>)
    requires
        0 <= pos <= s.len(),
    ensures
        interface_bounds_at(s, pos, acc) matches Ok((_, p)) ==> pos <= p <= s.len(),
    decreases s.len() - pos,
{
    if 0 <= pos < s.len() && s[pos] == COLON {
        lemma_reference_type_advances(s, pos + 1);
        if let Ok((t, p)) = reference_type_at(s, pos + 1) {
            lemma_interface_bounds_advance(s, p, acc.push(t));
        }
    }
}

pub proof fn lemma_type_parameters_advance(s: Seq<u8>, pos: int)
    requires
        0 <= pos <= s.len(),
    ensures
        type_parameters_at(s, pos) matches Ok((_, p)) ==> pos <= p <= s.len(),
{
    if 0 <= pos < s.len() && s[pos] == OPEN_ANGLE {
        lemma_parameter_list_advance(s, pos + 1, seq![]);
    }
}

pub proof fn lemma_parameter_list_advance(s: Seq<u8>, pos: int, acc: Seq<SpecTypeParameter>)
    requires
        0 <= pos <= s.len(),
    ensures
        parameter_list_at(s, pos, acc) matches Ok((_, p)) ==> pos <= p < s.len(),
    decreases s.len() - pos,
{
    if 0 <= pos < s.len() && s[pos] != CLOSE_ANGLE {
        lemma_type_parameter_advances(s, pos);
        if let Ok((param, p)) = type_parameter_at(s, pos) {
            lemma_parameter_list_advance(s, p, acc.push(param));
        }
    }
}

pub proof fn lemma_type_parameter_advances(s: Seq<u8>, pos: int)
    ensures
        0 <= pos <= s.len() ==> (type_parameter_at(s, pos) matches Ok((_, p)) ==> pos < p
            <= s.len()),
{
    if 0 <= pos <= s.len() {
        lemma_identifier_at(s, pos, seq![COLON]);
        if let Ok((name, p1)) = identifier_at(s, pos, seq![COLON]) {
            if let Ok(p2) = expect_at(s, p1, COLON) {
                if 0 <= p2 < s.len() {
                    lemma_reference_type_advances(s, p2);
                }
                if let Ok((class_bound, p3)) = class_bound_at(s, p2) {
                    lemma_interface_bounds_advance(s, p3, seq![]);
                }
            }
        }
    }
}

pub open spec fn class_signature_of(s: Seq<u8>) -> Result<SpecClassSignature, SpecSignatureError> {
    match type_parameters_at(s, 0) {
        Err(e) => Err(e),
        Ok((type_parameters, p1)) => match class_type_at(s, p1) {
            Err(e) => Err(e),
            Ok((super_class, p2)) => match interfaces_at(s, p2, seq![]) {
                Err(e) => Err(e),
                Ok(interfaces) => Ok(SpecClassSignature { type_parameters, super_class, interfaces }),
            },
        },
    }
}

/// Class types up to the end of the input.
pub open spec fn interfaces_at(s: Seq<u8>, pos: int, acc: Seq<SpecClassTypeSignature>) -> Result<
    Seq<SpecClassTypeSignature>,
    SpecSignatureError,
>
    decreases s.len() - pos,
{
    if pos < 0 || pos >= s.len() {
        Ok(acc)
    } else {
        match class_type_at(s, pos) {
            Err(e) => Err(e),
            Ok((c, p)) => {
                proof {
                    lemma_class_type_advances(s, pos);
                }
                interfaces_at(s, p, acc.push(c))
            },
        }
    }
}

pub open spec fn method_signature_of(s: Seq<u8>) -> Result<SpecMethodSignature, SpecSignatureError> {
    match type_parameters_at(s, 0) {
        Err(e) => Err(e),
        Ok((type_parameters, p1)) => match expect_at(s, p1, OPEN_PAREN) {
            Err(e) => Err(e),
            Ok(p2) => match parameters_at(s, p2, seq![]) {
                Err(e) => Err(e),
                Ok((parameter_types, p3)) => match expect_at(s, p3, CLOSE_PAREN) {
                    Err(e) => Err(e),
                    Ok(p4) => match return_type_at(s, p4) {
                        Err(e) => Err(e),
                        Ok((return_type, p5)) => match throws_at(s, p5, seq![]) {
                            Err(e) => Err(e),
                            Ok(throws) => Ok(
                                SpecMethodSignature {
                                    type_parameters,
                                    parameter_types,
                                    return_type,
                                    throws,
                                },
                            ),
                        },
                    },
                },
            },
        },
    }
}

/// Parameter types up to the closing `)` (which it does not read).
pub open spec fn parameters_at(s: Seq<u8>, pos: int, acc: Seq<SpecSignatureType>) -> Parsed<
    Seq<SpecSignatureType>,
>
    decreases s.len() - pos,
{
    match peek_at(s, pos) {
        Err(e) => Err(e),
        Ok(b) => if b == CLOSE_PAREN {
            Ok((acc, pos))
        } else {
            match java_type_at(s, pos) {
                Err(e) => Err(e),
                Ok((t, p)) => {
                    proof {
                        lemma_java_type_advances(s, pos);
                    }
                    parameters_at(s, p, acc.push(t))
                },
            }
        },
    }
}

pub proof fn lemma_parameters_advance(s: Seq<u8>, pos: int, acc: Seq<SpecSignatureType>)
    requires
        0 <= pos <= s.len(),
    ensures
        parameters_at(s, pos, acc) matches Ok((_, p)) ==> pos <= p < s.len(),
    decreases s.len() - pos,
{
    if 0 <= pos < s.len() && s[pos] != CLOSE_PAREN {
        lemma_java_type_advances(s, pos);
        if let Ok((t, p)) = java_type_at(s, pos) {
            lemma_parameters_advance(s, p, acc.push(t));
        }
    }
}

pub open spec fn return_type_at(s: Seq<u8>, pos: int) -> Parsed<SpecSignatureType> {
    match peek_at(s, pos) {
        Err(e) => Err(e),
        Ok(b) => if b == VOID_LETTER {
            Ok((SpecSignatureType::Base(Type::Void), pos + 1))
        } else {
            java_type_at(s, pos)
        },
    }
}

/// `^`-prefixed exceptions up to the end of the input.
pub open spec fn throws_at(s: Seq<u8>, pos: int, acc: Seq<SpecThrowsSignature>) -> Result<
    Seq<SpecThrowsSignature>,
    SpecSignatureError,
>
    decreases s.len() - pos,
{
    if pos < 0 || pos >= s.len() {
        Ok(acc)
    } else {
        match expect_at(s, pos, CARET) {
            Err(e) => Err(e),
            Ok(p1) => match throw_at(s, p1) {
                Err(e) => Err(e),
                Ok((t, p2)) => {
                    proof {
                        lemma_throw_advances(s, p1);
                    }
                    throws_at(s, p2, acc.push(t))
                },
            },
        }
    }
}

pub open spec fn throw_at(s: Seq<u8>, pos: int) -> Parsed<SpecThrowsSignature> {
    match peek_at(s, pos) {
        Err(e) => Err(e),
        Ok(b) => if b == CLASS_START {
            match class_type_at(s, pos) {
                Err(e) => Err(e),
                Ok((c, p)) => Ok((SpecThrowsSignature::Class(c), p)),
            }
        } else if b == TYPE_VARIABLE_START {
            match type_variable_at(s, pos) {
                Err(e) => Err(e),
                Ok((n, p)) => Ok((SpecThrowsSignature::TypeVariable(n), p)),
            }
        } else {
            invalid(pos, quoted("invalid throws signature start '"@, b))
        },
    }
}

pub proof fn lemma_throw_advances(s: Seq<u8>, pos: int)
    ensures
        0 <= pos <= s.len() ==> (throw_at(s, pos) matches Ok((_, p)) ==> pos < p <= s.len()),
{
    if 0 <= pos <= s.len() {
        lemma_class_type_advances(s, pos);
        lemma_type_variable_at(s, pos);
    }
}

pub open spec fn field_signature_of(s: Seq<u8>) -> Result<SpecSignatureType, SpecSignatureError> {
    match reference_type_at(s, 0) {
        Err(e) => Err(e),
        Ok((t, p)) => if p >= s.len() {
            Ok(t)
        } else {
            Err(SpecSignatureError::Invalid { offset: p, message: "trailing input"@ })
        },
    }
}

} // verus!

//! The reader of signatures: each method reads what the corresponding `*_at` spec
//! function of `grammar` describes, from the same position, and reports the same
//! value, end position or error.
use vstd::prelude::*;
use vstd::utf8::{decode_utf8, encode_utf8};

use crate::grammar::{
    arguments_at, class_name_delimiters, inner_name_delimiters, class_bound_at, class_signature_of, class_type_at, expect_at, field_signature_of,
    identifier_at, identifier_end, interface_bounds_at, interfaces_at, java_type_at,
    lemma_arguments_advance, lemma_class_type_advances, lemma_identifier_end,
    lemma_interface_bounds_advance, lemma_java_type_advances, lemma_reference_type_advances,
    lemma_simple_class_advances, lemma_suffixes_advance, lemma_throw_advances,
    lemma_type_argument_advances, lemma_type_arguments_advance, lemma_type_parameter_advances,
    method_signature_of, package_at, parameter_list_at, parameters_at, peek_at, reference_type_at,
    return_type_at, simple_class_at, suffixes_at, throw_at, throws_at, type_argument_at,
    type_arguments_at, type_parameter_at, type_parameters_at, type_variable_at, Parsed,
    ARRAY_START, BOOLEAN_LETTER, BYTE_LETTER, CARET, CHAR_LETTER, CLASS_START, CLOSE_ANGLE,
    CLOSE_PAREN, COLON, DOT, DOUBLE_LETTER, FLOAT_LETTER, INT_LETTER, LONG_LETTER, MINUS,
    OPEN_ANGLE, OPEN_PAREN, PLUS, SEMICOLON, SHORT_LETTER, SLASH, STAR, TYPE_VARIABLE_START,
    VOID_LETTER,
};
use crate::signature::{
    class_type_model, error_model, signature_type_model, simple_class_model, simple_classes_model,
    type_argument_model, type_arguments_model, type_parameter_model, throws_model,
    ClassSignature, ClassTypeSignature, MethodSignature, SignatureError, SignatureType, SpecClassTypeSignature,
    SimpleClassTypeSignature, SpecClassSignature, SpecMethodSignature, SpecSignatureError,
    SpecSignatureType, SpecSimpleClassTypeSignature, SpecThrowsSignature, SpecTypeArgument, SpecTypeParameter, ThrowsSignature,
    TypeArgument, TypeParameter,
};
use crate::text::{contains_byte, quoted_byte_message, str_from_utf8};
use crate::types::Type;

verus! {

/// `res` is what `expected` describes: the same value (seen through `model`) and
/// the same end position, or the same error.
pub open spec fn parsed_as<T, V>(
    res: Result<T, SignatureError>,
    end: int,
    expected: Parsed<V>,
    model: spec_fn(T) -> V,
) -> bool {
    match res {
        Ok(v) => expected == Ok::<(V, int), SpecSignatureError>((model(v), end)),
        Err(e) => expected == Err::<(V, int), SpecSignatureError>(error_model(e)),
    }
}

/// `res` is the value or the error that `expected` describes.
pub open spec fn result_as<T, V>(
    res: Result<T, SignatureError>,
    expected: Result<V, SpecSignatureError>,
    model: spec_fn(T) -> V,
) -> bool {
    match res {
        Ok(v) => expected == Ok::<V, SpecSignatureError>(model(v)),
        Err(e) => expected == Err::<V, SpecSignatureError>(error_model(e)),
    }
}

pub proof fn lemma_type_arguments_model_push(s: Seq<TypeArgument>, a: TypeArgument)
    ensures
        type_arguments_model(s.push(a)) == type_arguments_model(s).push(type_argument_model(a)),
{
    assert(s.push(a).drop_last() =~= s);
}

pub proof fn lemma_simple_classes_model_push(s: Seq<SimpleClassTypeSignature>, c: SimpleClassTypeSignature)
    ensures
        simple_classes_model(s.push(c)) == simple_classes_model(s).push(simple_class_model(c)),
{
    assert(s.push(c).drop_last() =~= s);
}

struct Parser<'a> {
    bytes: &'a [u8],
    pos: usize,
}

impl<'a> Parser<'a> {
    spec fn ok(&self) -> bool {
        self.pos <= self.bytes@.len() <= usize::MAX
    }

    spec fn s(&self) -> Seq<u8> {
        self.bytes@
    }

    spec fn at(&self) -> int {
        self.pos as int
    }

    fn new(signature: &'a str) -> (p: Self)
        ensures
            p.bytes@ == encode_utf8(signature@),
            p.pos == 0,
            p.ok(),
    {
        let bytes = signature.as_bytes();
        let _ = bytes.len();
        Self { bytes, pos: 0 }
    }

    fn is_eof(&self) -> (res: bool)
        ensures
            res == (self.pos >= self.bytes@.len()),
    {
        self.pos >= self.bytes.len()
    }

    fn error(&self, message: String) -> (e: SignatureError)
        ensures
            e@ == (SpecSignatureError::Invalid { offset: self.pos as int, message: message@ }),
    {
        SignatureError::Invalid { offset: self.pos, message }
    }

    fn finish(&self) -> (res: Result<(), SignatureError>)
        ensures
            res is Ok <==> self.pos >= self.bytes@.len(),
            res matches Err(e) ==> e@ == (SpecSignatureError::Invalid {
                offset: self.pos as int,
                message: "trailing input"@,
            }),
    {
        if self.is_eof() {
            Ok(())
        } else {
            Err(self.error(String::from_str("trailing input")))
        }
    }

    fn peek(&self) -> (res: Result<u8, SignatureError>)
        ensures
            match peek_at(self.bytes@, self.pos as int) {
                Ok(b) => res == Ok::<u8, SignatureError>(b),
                Err(e) => res matches Err(r) && r@ == e,
            },
    {
        if self.pos < self.bytes.len() {
            Ok(self.bytes[self.pos])
        } else {
            Err(SignatureError::UnexpectedEof)
        }
    }

    fn expect(&mut self, expected: u8) -> (res: Result<(), SignatureError>)
        requires
            old(self).ok(),
        ensures
            final(self).bytes@ == old(self).bytes@,
            final(self).ok(),
            match expect_at(old(self).bytes@, old(self).pos as int, expected) {
                Ok(p) => res is Ok && final(self).pos == p,
                Err(e) => res matches Err(r) && r@ == e,
            },
            res is Err ==> final(self).pos == old(self).pos,
    {
        let actual = match self.peek() {
            Ok(b) => b,
            Err(e) => return Err(e),
        };
        if actual != expected {
            let mut message = quoted_byte_message("expected '", expected);
            message.append(", found '");
            let message = quoted_byte_message(message.as_str(), actual);
            return Err(self.error(message));
        }
        self.pos += 1;
        Ok(())
    }

    fn parse_identifier(&mut self, delimiters: &[u8]) -> (res: Result<String, SignatureError>)
        requires
            old(self).ok(),
        ensures
            final(self).bytes@ == old(self).bytes@,
            final(self).ok(),
            parsed_as(
                res,
                final(self).pos as int,
                identifier_at(old(self).bytes@, old(self).pos as int, delimiters@),
                |v: String| v@,
            ),
            res is Ok ==> old(self).pos < final(self).pos,
            res is Err ==> final(self).pos == identifier_end(
                old(self).bytes@,
                old(self).pos as int,
                delimiters@,
            ),
    {
        let start = self.pos;
        let ghost s = self.bytes@;
        proof {
            lemma_identifier_end(s, start as int, delimiters@);
        }
        loop
            invariant
                self.bytes@ == s,
                start <= self.pos <= s.len(),
                identifier_end(s, start as int, delimiters@) == identifier_end(
                    s,
                    self.pos as int,
                    delimiters@,
                ),
            ensures
                self.bytes@ == s,
                self.pos == identifier_end(s, start as int, delimiters@),
            decreases s.len() - self.pos,
        {
            if self.pos >= self.bytes.len() {
                break;
            }
            if contains_byte(delimiters, self.bytes[self.pos]) {
                break;
            }
            self.pos += 1;
        }
        if self.pos == start {
            return Err(self.error(String::from_str("expected identifier")));
        }
        let segment = &self.bytes[start..self.pos];
        match str_from_utf8(segment) {
            Some(value) => {
                proof {
                    vstd::utf8::encode_utf8_decode_utf8(value@);
                }
                Ok(String::from_str(value))
            },
            None => Err(self.error(String::from_str("invalid utf-8"))),
        }
    }

    fn parse_type_variable_name(&mut self) -> (res: Result<String, SignatureError>)
        requires
            old(self).ok(),
        ensures
            final(self).bytes@ == old(self).bytes@,
            final(self).ok(),
            parsed_as(
                res,
                final(self).pos as int,
                type_variable_at(old(self).bytes@, old(self).pos as int),
                |v: String| v@,
            ),
            res is Ok ==> old(self).pos < final(self).pos,
    {
        match self.expect(TYPE_VARIABLE_START) {
            Ok(()) => {},
            Err(e) => return Err(e),
        }
        let delimiters = [SEMICOLON];
        assert(delimiters@ =~= seq![SEMICOLON]);
        let name = match self.parse_identifier(&delimiters) {
            Ok(name) => name,
            Err(e) => return Err(e),
        };
        match self.expect(SEMICOLON) {
            Ok(()) => {},
            Err(e) => return Err(e),
        }
        Ok(name)
    }

    fn parse_java_type_signature(&mut self) -> (res: Result<SignatureType, SignatureError>)
        requires
            old(self).ok(),
        ensures
            final(self).bytes@ == old(self).bytes@,
            final(self).ok(),
            parsed_as(
                res,
                final(self).pos as int,
                java_type_at(old(self).bytes@, old(self).pos as int),
                |v: SignatureType| v@,
            ),
            res is Ok ==> old(self).pos < final(self).pos,
        decreases old(self).bytes@.len() - old(self).pos, 4int,
    {
        proof {
            lemma_java_type_advances(self.bytes@, self.pos as int);
        }
        let b = match self.peek() {
            Ok(b) => b,
            Err(e) => return Err(e),
        };
        let base = if b == BYTE_LETTER {
            Type::Byte
        } else if b == CHAR_LETTER {
            Type::Char
        } else if b == DOUBLE_LETTER {
            Type::Double
        } else if b == FLOAT_LETTER {
            Type::Float
        } else if b == INT_LETTER {
            Type::Int
        } else if b == LONG_LETTER {
            Type::Long
        } else if b == SHORT_LETTER {
            Type::Short
        } else if b == BOOLEAN_LETTER {
            Type::Boolean
        } else if b == VOID_LETTER {
            Type::Void
        } else {
            return self.parse_reference_type_signature();
        };
        self.pos += 1;
        Ok(SignatureType::Base(base))
    }

    fn parse_reference_type_signature(&mut self) -> (res: Result<SignatureType, SignatureError>)
        requires
            old(self).ok(),
        ensures
            final(self).bytes@ == old(self).bytes@,
            final(self).ok(),
            parsed_as(
                res,
                final(self).pos as int,
                reference_type_at(old(self).bytes@, old(self).pos as int),
                |v: SignatureType| v@,
            ),
            res is Ok ==> old(self).pos < final(self).pos,
        decreases old(self).bytes@.len() - old(self).pos, 3int,
    {
        proof {
            lemma_reference_type_advances(self.bytes@, self.pos as int);
        }
        let b = match self.peek() {
            Ok(b) => b,
            Err(e) => return Err(e),
        };
        if b == CLASS_START {
            match self.parse_class_type_signature() {
                Ok(c) => Ok(SignatureType::Class(c)),
                Err(e) => Err(e),
            }
        } else if b == TYPE_VARIABLE_START {
            match self.parse_type_variable_name() {
                Ok(n) => Ok(SignatureType::TypeVariable(n)),
                Err(e) => Err(e),
            }
        } else if b == ARRAY_START {
            self.pos += 1;
            match self.parse_java_type_signature() {
                Ok(t) => Ok(SignatureType::Array(Box::new(t))),
                Err(e) => Err(e),
            }
        } else {
            Err(self.error(quoted_byte_message("expected reference type signature, found '", b)))
        }
    }

    fn parse_class_type_signature(&mut self) -> (res: Result<ClassTypeSignature, SignatureError>)
        requires
            old(self).ok(),
        ensures
            final(self).bytes@ == old(self).bytes@,
            final(self).ok(),
            parsed_as(
                res,
                final(self).pos as int,
                class_type_at(old(self).bytes@, old(self).pos as int),
                |v: ClassTypeSignature| v@,
            ),
            res is Ok ==> old(self).pos < final(self).pos,
        decreases old(self).bytes@.len() - old(self).pos, 2int,
    {
        let ghost s = self.bytes@;
        let ghost start = self.pos as int;
        proof {
            lemma_class_type_advances(s, start);
        }
        match self.expect(CLASS_START) {
            Ok(()) => {},
            Err(e) => return Err(e),
        }
        let delimiters = [SLASH, SEMICOLON, OPEN_ANGLE, DOT];
        assert(delimiters@ =~= class_name_delimiters());
        let first = match self.parse_identifier(&delimiters) {
            Ok(name) => name,
            Err(e) => return Err(e),
        };
        let (package_specifier, simple_name) = match self.parse_package(first, &delimiters) {
            Ok(names) => names,
            Err(e) => return Err(e),
        };
        let simple_class = match self.parse_simple_class_type_signature(simple_name) {
            Ok(c) => c,
            Err(e) => return Err(e),
        };
        let suffixes = match self.parse_suffixes() {
            Ok(suffixes) => suffixes,
            Err(e) => return Err(e),
        };
        match self.expect(SEMICOLON) {
            Ok(()) => {},
            Err(e) => return Err(e),
        }
        Ok(ClassTypeSignature { package_specifier, simple_class, suffixes })
    }

    /// Reads `/name` segments; gives the package names and the class name after them.
    fn parse_package(&mut self, first: String, delimiters: &[u8]) -> (res: Result<
        (Vec<String>, String),
        SignatureError,
    >)
        requires
            old(self).ok(),
            delimiters@ == class_name_delimiters(),
        ensures
            final(self).bytes@ == old(self).bytes@,
            final(self).ok(),
            parsed_as(
                res,
                final(self).pos as int,
                package_at(old(self).bytes@, old(self).pos as int, seq![], first@),
                |v: (Vec<String>, String)| (v.0@.map_values(|n: String| n@), v.1@),
            ),
            res is Ok ==> old(self).pos <= final(self).pos,
    {
        let ghost s = self.bytes@;
        let ghost start = self.pos as int;
        let mut package_specifier: Vec<String> = Vec::new();
        let mut simple_name = first;
        assert(package_specifier@.map_values(|n: String| n@) =~= seq![]);
        loop
            invariant
                self.bytes@ == s,
                old(self).bytes@ == s,
                old(self).pos == start,
                self.ok(),
                start <= self.pos,
                delimiters@ == class_name_delimiters(),
                package_at(s, start, seq![], first@) == package_at(
                    s,
                    self.pos as int,
                    package_specifier@.map_values(|n: String| n@),
                    simple_name@,
                ),
            ensures
                self.bytes@ == s,
                self.ok(),
                start <= self.pos,
                package_at(s, start, seq![], first@) == Ok::<((Seq<Seq<char>>, Seq<char>), int), SpecSignatureError>(
                    ((package_specifier@.map_values(|n: String| n@), simple_name@), self.pos as int),
                ),
            decreases s.len() - self.pos,
        {
            let b = match self.peek() {
                Ok(b) => b,
                Err(e) => return Err(e),
            };
            if b != SLASH {
                break;
            }
            self.pos += 1;
            let next = match self.parse_identifier(delimiters) {
                Ok(name) => name,
                Err(e) => return Err(e),
            };
            let ghost old_packages = package_specifier@;
            package_specifier.push(simple_name);
            assert(package_specifier@.map_values(|n: String| n@) =~= old_packages.map_values(
                |n: String| n@,
            ).push(simple_name@));
            simple_name = next;
        }
        Ok((package_specifier, simple_name))
    }

    /// Reads `.Inner<args>` segments.
    fn parse_suffixes(&mut self) -> (res: Result<Vec<SimpleClassTypeSignature>, SignatureError>)
        requires
            old(self).ok(),
        ensures
            final(self).bytes@ == old(self).bytes@,
            final(self).ok(),
            parsed_as(
                res,
                final(self).pos as int,
                suffixes_at(old(self).bytes@, old(self).pos as int, seq![]),
                |v: Vec<SimpleClassTypeSignature>| simple_classes_model(v@),
            ),
            res is Ok ==> old(self).pos <= final(self).pos,
        decreases old(self).bytes@.len() - old(self).pos, 5int,
    {
        let ghost s = self.bytes@;
        let ghost start = self.pos as int;
        let mut suffixes: Vec<SimpleClassTypeSignature> = Vec::new();
        let delimiters = [SEMICOLON, OPEN_ANGLE, DOT];
        assert(delimiters@ =~= inner_name_delimiters());
        assert(simple_classes_model(suffixes@) =~= seq![]);
        loop
            invariant
                self.bytes@ == s,
                old(self).bytes@ == s,
                old(self).pos == start,
                self.ok(),
                start <= self.pos,
                delimiters@ == inner_name_delimiters(),
                suffixes_at(s, start, seq![]) == suffixes_at(
                    s,
                    self.pos as int,
                    simple_classes_model(suffixes@),
                ),
            ensures
                self.bytes@ == s,
                self.ok(),
                start <= self.pos,
                suffixes_at(s, start, seq![]) == Ok::<(Seq<SpecSimpleClassTypeSignature>, int), SpecSignatureError>(
                    (simple_classes_model(suffixes@), self.pos as int),
                ),
            decreases s.len() - self.pos,
        {
            let b = match self.peek() {
                Ok(b) => b,
                Err(e) => return Err(e),
            };
            if b != DOT {
                break;
            }
            self.pos += 1;
            let name = match self.parse_identifier(&delimiters) {
                Ok(name) => name,
                Err(e) => return Err(e),
            };
            let suffix = match self.parse_simple_class_type_signature(name) {
                Ok(c) => c,
                Err(e) => return Err(e),
            };
            proof {
                lemma_simple_classes_model_push(suffixes@, suffix);
            }
            suffixes.push(suffix);
        }
        Ok(suffixes)
    }

    fn parse_simple_class_type_signature(&mut self, name: String) -> (res: Result<
        SimpleClassTypeSignature,
        SignatureError,
    >)
        requires
            old(self).ok(),
        ensures
            final(self).bytes@ == old(self).bytes@,
            final(self).ok(),
            parsed_as(
                res,
                final(self).pos as int,
                simple_class_at(old(self).bytes@, old(self).pos as int, name@),
                |v: SimpleClassTypeSignature| v@,
            ),
            res is Ok ==> old(self).pos <= final(self).pos,
        decreases old(self).bytes@.len() - old(self).pos, 1int,
    {
        proof {
            lemma_simple_class_advances(self.bytes@, self.pos as int, name@);
        }
        if !self.is_eof() && self.bytes[self.pos] == OPEN_ANGLE {
            match self.parse_type_arguments() {
                Ok(type_arguments) => Ok(SimpleClassTypeSignature { name, type_arguments }),
                Err(e) => Err(e),
            }
        } else {
            let type_arguments: Vec<TypeArgument> = Vec::new();
            assert(type_arguments_model(type_arguments@) =~= seq![]);
            Ok(SimpleClassTypeSignature { name, type_arguments })
        }
    }

    fn parse_type_argument(&mut self) -> (res: Result<TypeArgument, SignatureError>)
        requires
            old(self).ok(),
        ensures
            final(self).bytes@ == old(self).bytes@,
            final(self).ok(),
            parsed_as(
                res,
                final(self).pos as int,
                type_argument_at(old(self).bytes@, old(self).pos as int),
                |v: TypeArgument| v@,
            ),
            res is Ok ==> old(self).pos < final(self).pos,
        decreases old(self).bytes@.len() - old(self).pos, 4int,
    {
        let b = match self.peek() {
            Ok(b) => b,
            Err(e) => return Err(e),
        };
        if b == STAR {
            self.pos += 1;
            Ok(TypeArgument::Any)
        } else if b == PLUS {
            self.pos += 1;
            match self.parse_reference_type_signature() {
                Ok(t) => Ok(TypeArgument::Extends(t)),
                Err(e) => Err(e),
            }
        } else if b == MINUS {
            self.pos += 1;
            match self.parse_reference_type_signature() {
                Ok(t) => Ok(TypeArgument::Super(t)),
                Err(e) => Err(e),
            }
        } else {
            match self.parse_reference_type_signature() {
                Ok(t) => Ok(TypeArgument::Exact(t)),
                Err(e) => Err(e),
            }
        }
    }

    fn parse_type_arguments(&mut self) -> (res: Result<Vec<TypeArgument>, SignatureError>)
        requires
            old(self).ok(),
        ensures
            final(self).bytes@ == old(self).bytes@,
            final(self).ok(),
            parsed_as(
                res,
                final(self).pos as int,
                type_arguments_at(old(self).bytes@, old(self).pos as int),
                |v: Vec<TypeArgument>| type_arguments_model(v@),
            ),
        decreases old(self).bytes@.len() - old(self).pos, 0int,
    {
        let ghost s = self.bytes@;
        let ghost start = self.pos as int;
        match self.expect(OPEN_ANGLE) {
            Ok(()) => {},
            Err(e) => return Err(e),
        }
        let ghost p1 = self.pos as int;
        let mut arguments: Vec<TypeArgument> = Vec::new();
        assert(type_arguments_model(arguments@) =~= seq![]);
        loop
            invariant
                expect_at(s, start, OPEN_ANGLE) == Ok::<int, SpecSignatureError>(p1),
                self.bytes@ == s,
                old(self).bytes@ == s,
                old(self).pos == start,
                self.ok(),
                start < self.pos,
                arguments_at(s, p1, seq![]) == arguments_at(
                    s,
                    self.pos as int,
                    type_arguments_model(arguments@),
                ),
            ensures
                self.bytes@ == s,
                self.ok(),
                start < self.pos,
                arguments_at(s, p1, seq![]) == Ok::<(Seq<SpecTypeArgument>, int), SpecSignatureError>(
                    (type_arguments_model(arguments@), self.pos as int),
                ),
            decreases s.len() - self.pos,
        {
            let b = match self.peek() {
                Ok(b) => b,
                Err(e) => return Err(e),
            };
            if b == CLOSE_ANGLE {
                break;
            }
            let argument = match self.parse_type_argument() {
                Ok(a) => a,
                Err(e) => return Err(e),
            };
            proof {
                lemma_type_arguments_model_push(arguments@, argument);
            }
            arguments.push(argument);
        }
        match self.expect(CLOSE_ANGLE) {
            Ok(()) => {},
            Err(e) => return Err(e),
        }
        Ok(arguments)
    }

    fn parse_type_parameters(&mut self) -> (res: Result<Vec<TypeParameter>, SignatureError>)
        requires
            old(self).ok(),
        ensures
            final(self).bytes@ == old(self).bytes@,
            final(self).ok(),
            parsed_as(
                res,
                final(self).pos as int,
                type_parameters_at(old(self).bytes@, old(self).pos as int),
                |v: Vec<TypeParameter>| v@.map_values(|p: TypeParameter| type_parameter_model(p)),
            ),
    {
        let ghost s = self.bytes@;
        let ghost start = self.pos as int;
        let mut parameters: Vec<TypeParameter> = Vec::new();
        assert(parameters@.map_values(|p: TypeParameter| type_parameter_model(p)) =~= seq![]);
        if self.is_eof() || self.bytes[self.pos] != OPEN_ANGLE {
            return Ok(parameters);
        }
        self.pos += 1;
        loop
            invariant
                self.bytes@ == s,
                old(self).bytes@ == s,
                old(self).pos == start,
                0 <= start < s.len(),
                s[start] == OPEN_ANGLE,
                self.ok(),
                start < self.pos,
                parameter_list_at(s, start + 1, seq![]) == parameter_list_at(
                    s,
                    self.pos as int,
                    parameters@.map_values(|p: TypeParameter| type_parameter_model(p)),
                ),
            ensures
                self.bytes@ == s,
                self.ok(),
                parameter_list_at(s, start + 1, seq![]) == Ok::<
                    (Seq<SpecTypeParameter>, int),
                    SpecSignatureError,
                >((parameters@.map_values(|p: TypeParameter| type_parameter_model(p)), self.pos as int)),
            decreases s.len() - self.pos,
        {
            let b = match self.peek() {
                Ok(b) => b,
                Err(e) => return Err(e),
            };
            if b == CLOSE_ANGLE {
                break;
            }
            proof {
                lemma_type_parameter_advances(s, self.pos as int);
            }
            let parameter = match self.parse_type_parameter() {
                Ok(p) => p,
                Err(e) => return Err(e),
            };
            let ghost before = parameters@;
            parameters.push(parameter);
            assert(parameters@.map_values(|p: TypeParameter| type_parameter_model(p)) =~= before.map_values(
                |p: TypeParameter| type_parameter_model(p),
            ).push(parameter@));
        }
        match self.expect(CLOSE_ANGLE) {
            Ok(()) => {},
            Err(e) => return Err(e),
        }
        Ok(parameters)
    }

    fn parse_type_parameter(&mut self) -> (res: Result<TypeParameter, SignatureError>)
        requires
            old(self).ok(),
        ensures
            final(self).bytes@ == old(self).bytes@,
            final(self).ok(),
            parsed_as(
                res,
                final(self).pos as int,
                type_parameter_at(old(self).bytes@, old(self).pos as int),
                |v: TypeParameter| v@,
            ),
    {
        let delimiters = [COLON];
        assert(delimiters@ =~= seq![COLON]);
        let name = match self.parse_identifier(&delimiters) {
            Ok(name) => name,
            Err(e) => return Err(e),
        };
        match self.expect(COLON) {
            Ok(()) => {},
            Err(e) => return Err(e),
        }
        let ghost p2 = self.pos as int;
        let b = match self.peek() {
            Ok(b) => b,
            Err(e) => return Err(e),
        };
        let class_bound = if b == CLASS_START || b == TYPE_VARIABLE_START || b == ARRAY_START {
            match self.parse_reference_type_signature() {
                Ok(t) => Some(t),
                Err(e) => return Err(e),
            }
        } else {
            None
        };
        let ghost p3 = self.pos as int;
        let ghost bound_model = match &class_bound {
            Some(t) => Some(t@),
            None => None::<SpecSignatureType>,
        };
        assert(class_bound_at(self.bytes@, p2) == Ok::<
            (Option<SpecSignatureType>, int),
            SpecSignatureError,
        >((bound_model, self.pos as int)));
        let interface_bounds = match self.parse_interface_bounds() {
            Ok(bounds) => bounds,
            Err(e) => return Err(e),
        };
        let parameter = TypeParameter { name, class_bound, interface_bounds };
        assert(parameter@.class_bound == bound_model);
        assert(interface_bounds_at(self.bytes@, p3, seq![]) == Ok::<
            (Seq<SpecSignatureType>, int),
            SpecSignatureError,
        >((parameter@.interface_bounds, self.pos as int)));
        Ok(parameter)
    }

    /// Reads `:`-prefixed reference types.
    fn parse_interface_bounds(&mut self) -> (res: Result<Vec<SignatureType>, SignatureError>)
        requires
            old(self).ok(),
        ensures
            final(self).bytes@ == old(self).bytes@,
            final(self).ok(),
            parsed_as(
                res,
                final(self).pos as int,
                interface_bounds_at(old(self).bytes@, old(self).pos as int, seq![]),
                |v: Vec<SignatureType>| v@.map_values(|t: SignatureType| signature_type_model(t)),
            ),
    {
        let ghost s = self.bytes@;
        let ghost start = self.pos as int;
        let mut bounds: Vec<SignatureType> = Vec::new();
        assert(bounds@.map_values(|t: SignatureType| signature_type_model(t)) =~= seq![]);
        loop
            invariant
                self.bytes@ == s,
                old(self).bytes@ == s,
                old(self).pos == start,
                self.ok(),
                interface_bounds_at(s, start, seq![]) == interface_bounds_at(
                    s,
                    self.pos as int,
                    bounds@.map_values(|t: SignatureType| signature_type_model(t)),
                ),
            ensures
                self.bytes@ == s,
                self.ok(),
                interface_bounds_at(s, start, seq![]) == Ok::<
                    (Seq<SpecSignatureType>, int),
                    SpecSignatureError,
                >((bounds@.map_values(|t: SignatureType| signature_type_model(t)), self.pos as int)),
            decreases s.len() - self.pos,
        {
            let b = match self.peek() {
                Ok(b) => b,
                Err(e) => return Err(e),
            };
            if b != COLON {
                break;
            }
            self.pos += 1;
            let bound = match self.parse_reference_type_signature() {
                Ok(t) => t,
                Err(e) => return Err(e),
            };
            let ghost before = bounds@;
            bounds.push(bound);
            assert(bounds@.map_values(|t: SignatureType| signature_type_model(t)) =~= before.map_values(
                |t: SignatureType| signature_type_model(t),
            ).push(bound@));
        }
        Ok(bounds)
    }

    fn parse_throws_entry(&mut self) -> (res: Result<ThrowsSignature, SignatureError>)
        requires
            old(self).ok(),
        ensures
            final(self).bytes@ == old(self).bytes@,
            final(self).ok(),
            parsed_as(
                res,
                final(self).pos as int,
                throw_at(old(self).bytes@, old(self).pos as int),
                |v: ThrowsSignature| v@,
            ),
            res is Ok ==> old(self).pos < final(self).pos,
    {
        proof {
            lemma_throw_advances(self.bytes@, self.pos as int);
        }
        let b = match self.peek() {
            Ok(b) => b,
            Err(e) => return Err(e),
        };
        if b == CLASS_START {
            match self.parse_class_type_signature() {
                Ok(c) => Ok(ThrowsSignature::Class(c)),
                Err(e) => Err(e),
            }
        } else if b == TYPE_VARIABLE_START {
            match self.parse_type_variable_name() {
                Ok(name) => Ok(ThrowsSignature::TypeVariable(name)),
                Err(e) => Err(e),
            }
        } else {
            Err(self.error(quoted_byte_message("invalid throws signature start '", b)))
        }
    }
}

/// Reads a class signature: optional type parameters, the superclass, then the
/// interfaces up to the end of the input.
pub fn parse_class_signature(signature: &str) -> (res: Result<ClassSignature, SignatureError>)
    ensures
        result_as(res, class_signature_of(encode_utf8(signature@)), |v: ClassSignature| v@),
{
    let mut parser = Parser::new(signature);
    let ghost s = parser.bytes@;
    let type_parameters = match parser.parse_type_parameters() {
        Ok(p) => p,
        Err(e) => return Err(e),
    };
    let ghost p1 = parser.pos as int;
    let super_class = match parser.parse_class_type_signature() {
        Ok(c) => c,
        Err(e) => return Err(e),
    };
    let ghost p2 = parser.pos as int;
    let mut interfaces: Vec<ClassTypeSignature> = Vec::new();
    assert(interfaces@.map_values(|i: ClassTypeSignature| class_type_model(i)) =~= seq![]);
    while !parser.is_eof()
        invariant
            parser.bytes@ == s,
            parser.ok(),
            s == encode_utf8(signature@),
            type_parameters_at(s, 0) == Ok::<(Seq<SpecTypeParameter>, int), SpecSignatureError>(
                (type_parameters@.map_values(|p: TypeParameter| type_parameter_model(p)), p1),
            ),
            class_type_at(s, p1) == Ok::<(SpecClassTypeSignature, int), SpecSignatureError>(
                (super_class@, p2),
            ),
            interfaces_at(s, p2, seq![]) == interfaces_at(
                s,
                parser.pos as int,
                interfaces@.map_values(|i: ClassTypeSignature| class_type_model(i)),
            ),
        decreases s.len() - parser.pos,
    {
        let interface = match parser.parse_class_type_signature() {
            Ok(c) => c,
            Err(e) => return Err(e),
        };
        let ghost before = interfaces@;
        interfaces.push(interface);
        assert(interfaces@.map_values(|i: ClassTypeSignature| class_type_model(i)) =~= before.map_values(
            |i: ClassTypeSignature| class_type_model(i),
        ).push(interface@));
    }
    Ok(ClassSignature { type_parameters, super_class, interfaces })
}

/// Reads a method signature: optional type parameters, the parameter types between
/// parentheses, the return type, then `^`-prefixed exceptions up to the end.
#[verifier::loop_isolation(false)]
pub fn parse_method_signature(signature: &str) -> (res: Result<MethodSignature, SignatureError>)
    ensures
        result_as(res, method_signature_of(encode_utf8(signature@)), |v: MethodSignature| v@),
{
    let mut parser = Parser::new(signature);
    let ghost s = parser.bytes@;
    let type_parameters = match parser.parse_type_parameters() {
        Ok(p) => p,
        Err(e) => return Err(e),
    };
    match parser.expect(OPEN_PAREN) {
        Ok(()) => {},
        Err(e) => return Err(e),
    }
    let ghost p2 = parser.pos as int;
    let mut parameter_types: Vec<SignatureType> = Vec::new();
    assert(parameter_types@.map_values(|t: SignatureType| signature_type_model(t)) =~= seq![]);
    loop
        invariant
            parser.bytes@ == s,
            parser.ok(),
            parameters_at(s, p2, seq![]) == parameters_at(
                s,
                parser.pos as int,
                parameter_types@.map_values(|t: SignatureType| signature_type_model(t)),
            ),
        decreases s.len() - parser.pos,
    {
        let b = match parser.peek() {
            Ok(b) => b,
            Err(e) => return Err(e),
        };
        if b == CLOSE_PAREN {
            break;
        }
        let parameter = match parser.parse_java_type_signature() {
            Ok(t) => t,
            Err(e) => return Err(e),
        };
        let ghost before = parameter_types@;
        parameter_types.push(parameter);
        assert(parameter_types@.map_values(|t: SignatureType| signature_type_model(t)) =~= before.map_values(
            |t: SignatureType| signature_type_model(t),
        ).push(parameter@));
    }
    match parser.expect(CLOSE_PAREN) {
        Ok(()) => {},
        Err(e) => return Err(e),
    }
    let b = match parser.peek() {
        Ok(b) => b,
        Err(e) => return Err(e),
    };
    let return_type = if b == VOID_LETTER {
        parser.pos += 1;
        SignatureType::Base(Type::Void)
    } else {
        match parser.parse_java_type_signature() {
            Ok(t) => t,
            Err(e) => return Err(e),
        }
    };
    let ghost p5 = parser.pos as int;
    let mut throws: Vec<ThrowsSignature> = Vec::new();
    assert(throws@.map_values(|t: ThrowsSignature| throws_model(t)) =~= seq![]);
    while !parser.is_eof()
        invariant
            parser.bytes@ == s,
            parser.ok(),
            throws_at(s, p5, seq![]) == throws_at(
                s,
                parser.pos as int,
                throws@.map_values(|t: ThrowsSignature| throws_model(t)),
            ),
        decreases s.len() - parser.pos,
    {
        match parser.expect(CARET) {
            Ok(()) => {},
            Err(e) => return Err(e),
        }
        let throw_type = match parser.parse_throws_entry() {
            Ok(t) => t,
            Err(e) => return Err(e),
        };
        let ghost before = throws@;
        throws.push(throw_type);
        assert(throws@.map_values(|t: ThrowsSignature| throws_model(t)) =~= before.map_values(
            |t: ThrowsSignature| throws_model(t),
        ).push(throw_type@));
    }
    Ok(MethodSignature { type_parameters, parameter_types, return_type, throws })
}

/// Reads a field signature: one reference type and nothing after it.
pub fn parse_field_signature(signature: &str) -> (res: Result<SignatureType, SignatureError>)
    ensures
        result_as(res, field_signature_of(encode_utf8(signature@)), |v: SignatureType| v@),
{
    let mut parser = Parser::new(signature);
    let ty = match parser.parse_reference_type_signature() {
        Ok(t) => t,
        Err(e) => return Err(e),
    };
    match parser.finish() {
        Ok(()) => {},
        Err(e) => return Err(e),
    }
    Ok(ty)
}

} // verus!

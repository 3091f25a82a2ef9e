//! Laws about reading signatures from strings: every position the reader reaches is a
//! character boundary, so every name it reads is valid UTF-8 and the reader never
//! reports the `invalid utf-8` error on a `str`.
use vstd::prelude::*;
use vstd::utf8::{
    encode_utf8, encode_utf8_valid_utf8, is_char_boundary, is_char_boundary_iff_not_is_continuation_byte,
    is_char_boundary_start_end_of_seq, is_continuation_byte, pop_first_scalar, valid_utf8,
    valid_utf8_split,
};

use crate::grammar::{
    arguments_at, class_bound_at, class_name_delimiters, class_signature_of, class_type_at,
    expect_at, expected_message, field_signature_of, identifier_at, identifier_end,
    inner_name_delimiters, interface_bounds_at, interfaces_at, java_type_at,
    lemma_arguments_advance, lemma_class_type_advances, lemma_identifier_at, lemma_identifier_end,
    lemma_interface_bounds_advance, lemma_java_type_advances, lemma_package_at,
    lemma_reference_type_advances, lemma_simple_class_advances, lemma_suffixes_advance,
    lemma_throw_advances, lemma_type_argument_advances, lemma_type_arguments_advance,
    lemma_type_parameter_advances, method_signature_of, package_at, parameter_list_at,
    parameters_at, peek_at, quoted, reference_type_at, return_type_at, simple_class_at,
    suffixes_at, throw_at, throws_at, type_argument_at, type_arguments_at, type_parameter_at,
    type_parameters_at, type_variable_at, Parsed, ARRAY_START, CARET, CLASS_START, CLOSE_ANGLE,
    CLOSE_PAREN, COLON, DOT, MINUS, OPEN_ANGLE, OPEN_PAREN, PLUS, SEMICOLON, SLASH, STAR,
    TYPE_VARIABLE_START, VOID_LETTER,
};
use crate::signature::{
    SpecClassTypeSignature, SpecSignatureError, SpecSignatureType, SpecSimpleClassTypeSignature,
    SpecThrowsSignature, SpecTypeArgument, SpecTypeParameter,
};

verus! {

/// The position just after an ASCII byte that starts a character is a character boundary.
pub proof fn lemma_boundary_after_ascii(s: Seq<u8>, i: int)
    requires
        valid_utf8(s),
        0 <= i < s.len(),
        is_char_boundary(s, i),
        s[i] < 0x80,
    ensures
        is_char_boundary(s, i + 1),
{
    is_char_boundary_start_end_of_seq(s);
    if i + 1 < s.len() {
        valid_utf8_split(s, i);
        let tail = s.subrange(i, s.len() as int);
        assert(valid_utf8(pop_first_scalar(tail)));
        assert(pop_first_scalar(tail) =~= s.subrange(i + 1, s.len() as int));
        assert(pop_first_scalar(tail)[0] == s[i + 1]);
        is_char_boundary_iff_not_is_continuation_byte(s, i + 1);
    }
}

/// An ASCII byte of valid UTF-8, and the end, are character boundaries.
pub proof fn lemma_boundary_at_ascii(s: Seq<u8>, i: int)
    requires
        valid_utf8(s),
        0 <= i <= s.len(),
        i == s.len() || s[i] < 0x80,
    ensures
        is_char_boundary(s, i),
{
    is_char_boundary_start_end_of_seq(s);
    if i < s.len() {
        is_char_boundary_iff_not_is_continuation_byte(s, i);
        assert(!is_continuation_byte(s[i]));
    }
}

/// The bytes between two character boundaries are valid UTF-8.
pub proof fn lemma_between_boundaries(s: Seq<u8>, a: int, b: int)
    requires
        valid_utf8(s),
        0 <= a < b <= s.len(),
        is_char_boundary(s, a),
        is_char_boundary(s, b),
    ensures
        valid_utf8(s.subrange(a, b)),
{
    valid_utf8_split(s, b);
    let t = s.subrange(0, b);
    is_char_boundary_iff_not_is_continuation_byte(s, a);
    assert(t[a] == s[a]);
    is_char_boundary_iff_not_is_continuation_byte(t, a);
    valid_utf8_split(t, a);
    assert(t.subrange(a, t.len() as int) =~= s.subrange(a, b));
}

/// The error that reports a name that is not valid UTF-8.
pub open spec fn is_utf8_error(e: SpecSignatureError) -> bool {
    match e {
        SpecSignatureError::Invalid { offset: _, message } => message == "invalid utf-8"@,
        SpecSignatureError::UnexpectedEof => false,
    }
}

/// The reader did not report the UTF-8 error, and when it succeeded it stopped at a
/// character boundary.
pub open spec fn reads_well<T>(s: Seq<u8>, r: Parsed<T>) -> bool {
    match r {
        Ok((_, p)) => 0 <= p <= s.len() && is_char_boundary(s, p),
        Err(e) => !is_utf8_error(e),
    }
}

/// Where a reader may start: a character boundary of valid UTF-8.
pub open spec fn start(s: Seq<u8>, pos: int) -> bool {
    valid_utf8(s) && 0 <= pos <= s.len() && is_char_boundary(s, pos)
}

proof fn lemma_messages(e: u8, f: u8)
    ensures
        expected_message(e, f) != "invalid utf-8"@,
        quoted("expected reference type signature, found '"@, f) != "invalid utf-8"@,
        quoted("invalid throws signature start '"@, f) != "invalid utf-8"@,
        "expected identifier"@ != "invalid utf-8"@,
        "trailing input"@ != "invalid utf-8"@,
{
    reveal_strlit("invalid utf-8");
    reveal_strlit("expected '");
    reveal_strlit("expected reference type signature, found '");
    reveal_strlit("invalid throws signature start '");
    reveal_strlit("expected identifier");
    reveal_strlit("trailing input");
    assert(expected_message(e, f)[0] == 'e');
    assert(quoted("expected reference type signature, found '"@, f)[0] == 'e');
    assert(quoted("invalid throws signature start '"@, f)[8] == 't');
    assert("invalid utf-8"@[0] == 'i');
    assert("invalid utf-8"@[8] == 'u');
    assert("expected identifier"@[0] == 'e');
    assert("trailing input"@[0] == 't');
}

proof fn lemma_expect_reads_well(s: Seq<u8>, pos: int, expected: u8)
    requires
        start(s, pos),
        expected < 0x80,
    ensures
        match expect_at(s, pos, expected) {
            Ok(p) => p == pos + 1 && start(s, p),
            Err(e) => !is_utf8_error(e),
        },
{
    if let Ok(p) = expect_at(s, pos, expected) {
        lemma_boundary_after_ascii(s, pos);
    } else if 0 <= pos < s.len() {
        lemma_messages(expected, s[pos]);
    }
}

proof fn lemma_identifier_reads_well(s: Seq<u8>, pos: int, delimiters: Seq<u8>)
    requires
        start(s, pos),
        forall|j: int| 0 <= j < delimiters.len() ==> #[trigger] delimiters[j] < 0x80,
    ensures
        reads_well(s, identifier_at(s, pos, delimiters)),
{
    lemma_identifier_end(s, pos, delimiters);
    let end = identifier_end(s, pos, delimiters);
    if end < s.len() {
        let j = choose|j: int| 0 <= j < delimiters.len() && delimiters[j] == s[end];
        assert(delimiters[j] < 0x80);
    }
    lemma_boundary_at_ascii(s, end);
    if end > pos {
        lemma_between_boundaries(s, pos, end);
    } else {
        lemma_messages(0, 0);
    }
}

proof fn lemma_delimiters_ascii()
    ensures
        forall|j: int| 0 <= j < class_name_delimiters().len() ==> #[trigger] class_name_delimiters()[j] < 0x80,
        forall|j: int| 0 <= j < inner_name_delimiters().len() ==> #[trigger] inner_name_delimiters()[j] < 0x80,
        forall|j: int| 0 <= j < seq![SEMICOLON].len() ==> #[trigger] seq![SEMICOLON][j] < 0x80,
        forall|j: int| 0 <= j < seq![COLON].len() ==> #[trigger] seq![COLON][j] < 0x80,
{
}

proof fn lemma_type_variable_reads_well(s: Seq<u8>, pos: int)
    requires
        start(s, pos),
    ensures
        reads_well(s, type_variable_at(s, pos)),
{
    lemma_delimiters_ascii();
    lemma_expect_reads_well(s, pos, TYPE_VARIABLE_START);
    if let Ok(p1) = expect_at(s, pos, TYPE_VARIABLE_START) {
        lemma_identifier_reads_well(s, p1, seq![SEMICOLON]);
        if let Ok((name, p2)) = identifier_at(s, p1, seq![SEMICOLON]) {
            lemma_expect_reads_well(s, p2, SEMICOLON);
        }
    }
}

pub proof fn lemma_java_type_reads_well(s: Seq<u8>, pos: int)
    requires
        start(s, pos),
    ensures
        reads_well(s, java_type_at(s, pos)),
    decreases s.len() - pos, 4int,
{
    if 0 <= pos < s.len() {
        if crate::grammar::base_type_of(s[pos]) is None {
            lemma_reference_type_reads_well(s, pos);
        } else {
            lemma_boundary_after_ascii(s, pos);
        }
    }
}

pub proof fn lemma_reference_type_reads_well(s: Seq<u8>, pos: int)
    requires
        start(s, pos),
    ensures
        reads_well(s, reference_type_at(s, pos)),
    decreases s.len() - pos, 3int,
{
    if 0 <= pos < s.len() {
        let b = s[pos];
        if b == CLASS_START {
            lemma_class_type_reads_well(s, pos);
        } else if b == TYPE_VARIABLE_START {
            lemma_type_variable_reads_well(s, pos);
        } else if b == ARRAY_START {
            lemma_boundary_after_ascii(s, pos);
            lemma_java_type_reads_well(s, pos + 1);
        } else {
            lemma_messages(0, b);
        }
    }
}

pub proof fn lemma_class_type_reads_well(s: Seq<u8>, pos: int)
    requires
        start(s, pos),
    ensures
        reads_well(s, class_type_at(s, pos)),
    decreases s.len() - pos, 2int,
{
    lemma_delimiters_ascii();
    lemma_expect_reads_well(s, pos, CLASS_START);
    if let Ok(p1) = expect_at(s, pos, CLASS_START) {
        lemma_identifier_at(s, p1, class_name_delimiters());
        lemma_identifier_reads_well(s, p1, class_name_delimiters());
        if let Ok((first, p2)) = identifier_at(s, p1, class_name_delimiters()) {
            lemma_package_at(s, p2, seq![], first);
            lemma_package_reads_well(s, p2, seq![], first);
            if let Ok((names, p3)) = package_at(s, p2, seq![], first) {
                lemma_simple_class_advances(s, p3, names.1);
                lemma_simple_class_reads_well(s, p3, names.1);
                if let Ok((simple, p4)) = simple_class_at(s, p3, names.1) {
                    lemma_suffixes_advance(s, p4, seq![]);
                    lemma_suffixes_reads_well(s, p4, seq![]);
                    if let Ok((suffixes, p5)) = suffixes_at(s, p4, seq![]) {
                        lemma_expect_reads_well(s, p5, SEMICOLON);
                    }
                }
            }
        }
    }
}

proof fn lemma_package_reads_well(s: Seq<u8>, pos: int, packages: Seq<Seq<char>>, name: Seq<char>)
    requires
        start(s, pos),
    ensures
        reads_well(s, package_at(s, pos, packages, name)),
    decreases s.len() - pos,
{
    lemma_delimiters_ascii();
    if 0 <= pos < s.len() && s[pos] == SLASH {
        lemma_boundary_after_ascii(s, pos);
        lemma_identifier_at(s, pos + 1, class_name_delimiters());
        lemma_identifier_reads_well(s, pos + 1, class_name_delimiters());
        if let Ok((next, p)) = identifier_at(s, pos + 1, class_name_delimiters()) {
            lemma_package_reads_well(s, p, packages.push(name), next);
        }
    }
}

pub proof fn lemma_simple_class_reads_well(s: Seq<u8>, pos: int, name: Seq<char>)
    requires
        start(s, pos),
    ensures
        reads_well(s, simple_class_at(s, pos, name)),
    decreases s.len() - pos, 1int,
{
    if 0 <= pos < s.len() && s[pos] == OPEN_ANGLE {
        lemma_type_arguments_reads_well(s, pos);
    }
}

pub proof fn lemma_suffixes_reads_well(s: Seq<u8>, pos: int, acc: Seq<SpecSimpleClassTypeSignature>)
    requires
        start(s, pos),
    ensures
        reads_well(s, suffixes_at(s, pos, acc)),
    decreases s.len() - pos, 0int,
{
    lemma_delimiters_ascii();
    if 0 <= pos < s.len() && s[pos] == DOT {
        lemma_boundary_after_ascii(s, pos);
        lemma_identifier_at(s, pos + 1, inner_name_delimiters());
        lemma_identifier_reads_well(s, pos + 1, inner_name_delimiters());
        if let Ok((name, p1)) = identifier_at(s, pos + 1, inner_name_delimiters()) {
            lemma_simple_class_advances(s, p1, name);
            lemma_simple_class_reads_well(s, p1, name);
            if let Ok((simple, p2)) = simple_class_at(s, p1, name) {
                lemma_suffixes_reads_well(s, p2, acc.push(simple));
            }
        }
    }
}

pub proof fn lemma_type_arguments_reads_well(s: Seq<u8>, pos: int)
    requires
        start(s, pos),
    ensures
        reads_well(s, type_arguments_at(s, pos)),
    decreases s.len() - pos, 0int,
{
    lemma_expect_reads_well(s, pos, OPEN_ANGLE);
    if let Ok(p1) = expect_at(s, pos, OPEN_ANGLE) {
        lemma_arguments_reads_well(s, p1, seq![]);
        if let Ok((args, p2)) = arguments_at(s, p1, seq![]) {
            lemma_expect_reads_well(s, p2, CLOSE_ANGLE);
        }
    }
}

pub proof fn lemma_arguments_reads_well(s: Seq<u8>, pos: int, acc: Seq<SpecTypeArgument>)
    requires
        start(s, pos),
    ensures
        reads_well(s, arguments_at(s, pos, acc)),
    decreases s.len() - pos, 5int,
{
    if 0 <= pos < s.len() && s[pos] != CLOSE_ANGLE {
        lemma_type_argument_advances(s, pos);
        lemma_type_argument_reads_well(s, pos);
        if let Ok((arg, p)) = type_argument_at(s, pos) {
            lemma_arguments_reads_well(s, p, acc.push(arg));
        }
    }
}

pub proof fn lemma_type_argument_reads_well(s: Seq<u8>, pos: int)
    requires
        start(s, pos),
    ensures
        reads_well(s, type_argument_at(s, pos)),
    decreases s.len() - pos, 4int,
{
    if 0 <= pos < s.len() {
        let b = s[pos];
        if b == STAR {
            lemma_boundary_after_ascii(s, pos);
        } else if b == PLUS || b == MINUS {
            lemma_boundary_after_ascii(s, pos);
            lemma_reference_type_reads_well(s, pos + 1);
        } else {
            lemma_reference_type_reads_well(s, pos);
        }
    }
}

proof fn lemma_interface_bounds_reads_well(s: Seq<u8>, pos: int, acc: Seq<SpecSignatureType>)
    requires
        start(s, pos),
    ensures
        reads_well(s, interface_bounds_at(s, pos, acc)),
    decreases s.len() - pos,
{
    if 0 <= pos < s.len() && s[pos] == COLON {
        lemma_boundary_after_ascii(s, pos);
        lemma_reference_type_advances(s, pos + 1);
        lemma_reference_type_reads_well(s, pos + 1);
        if let Ok((t, p)) = reference_type_at(s, pos + 1) {
            lemma_interface_bounds_reads_well(s, p, acc.push(t));
        }
    }
}

proof fn lemma_type_parameter_reads_well(s: Seq<u8>, pos: int)
    requires
        start(s, pos),
    ensures
        reads_well(s, type_parameter_at(s, pos)),
{
    lemma_delimiters_ascii();
    lemma_identifier_at(s, pos, seq![COLON]);
    lemma_identifier_reads_well(s, pos, seq![COLON]);
    if let Ok((name, p1)) = identifier_at(s, pos, seq![COLON]) {
        lemma_expect_reads_well(s, p1, COLON);
        if let Ok(p2) = expect_at(s, p1, COLON) {
            if 0 <= p2 < s.len() {
                lemma_reference_type_reads_well(s, p2);
            }
            if let Ok((bound, p3)) = class_bound_at(s, p2) {
                lemma_interface_bounds_reads_well(s, p3, seq![]);
            }
        }
    }
}

proof fn lemma_parameter_list_reads_well(s: Seq<u8>, pos: int, acc: Seq<SpecTypeParameter>)
    requires
        start(s, pos),
    ensures
        reads_well(s, parameter_list_at(s, pos, acc)),
    decreases s.len() - pos,
{
    if 0 <= pos < s.len() && s[pos] != CLOSE_ANGLE {
        lemma_type_parameter_advances(s, pos);
        lemma_type_parameter_reads_well(s, pos);
        if let Ok((param, p)) = type_parameter_at(s, pos) {
            lemma_parameter_list_reads_well(s, p, acc.push(param));
        }
    }
}

proof fn lemma_type_parameters_reads_well(s: Seq<u8>, pos: int)
    requires
        start(s, pos),
    ensures
        reads_well(s, type_parameters_at(s, pos)),
{
    if 0 <= pos < s.len() && s[pos] == OPEN_ANGLE {
        lemma_boundary_after_ascii(s, pos);
        lemma_parameter_list_reads_well(s, pos + 1, seq![]);
        if let Ok((params, p1)) = parameter_list_at(s, pos + 1, seq![]) {
            lemma_expect_reads_well(s, p1, CLOSE_ANGLE);
        }
    }
}

/// The UTF-8 error is not among those that a whole-signature reader reports.
pub open spec fn no_utf8_error<T>(r: Result<T, SpecSignatureError>) -> bool {
    match r {
        Ok(_) => true,
        Err(e) => !is_utf8_error(e),
    }
}

proof fn lemma_interfaces_reads_well(s: Seq<u8>, pos: int, acc: Seq<SpecClassTypeSignature>)
    requires
        start(s, pos),
    ensures
        no_utf8_error(interfaces_at(s, pos, acc)),
    decreases s.len() - pos,
{
    if 0 <= pos < s.len() {
        lemma_class_type_advances(s, pos);
        lemma_class_type_reads_well(s, pos);
        if let Ok((c, p)) = class_type_at(s, pos) {
            lemma_interfaces_reads_well(s, p, acc.push(c));
        }
    }
}

proof fn lemma_parameters_reads_well(s: Seq<u8>, pos: int, acc: Seq<SpecSignatureType>)
    requires
        start(s, pos),
    ensures
        reads_well(s, parameters_at(s, pos, acc)),
    decreases s.len() - pos,
{
    if 0 <= pos < s.len() && s[pos] != CLOSE_PAREN {
        lemma_java_type_advances(s, pos);
        lemma_java_type_reads_well(s, pos);
        if let Ok((t, p)) = java_type_at(s, pos) {
            lemma_parameters_reads_well(s, p, acc.push(t));
        }
    }
}

proof fn lemma_throws_reads_well(s: Seq<u8>, pos: int, acc: Seq<SpecThrowsSignature>)
    requires
        start(s, pos),
    ensures
        no_utf8_error(throws_at(s, pos, acc)),
    decreases s.len() - pos,
{
    if 0 <= pos < s.len() {
        lemma_expect_reads_well(s, pos, CARET);
        if let Ok(p1) = expect_at(s, pos, CARET) {
            lemma_throw_advances(s, p1);
            lemma_class_type_reads_well(s, p1);
            lemma_type_variable_reads_well(s, p1);
            if 0 <= p1 < s.len() {
                lemma_messages(0, s[p1]);
            }
            if let Ok((t, p2)) = throw_at(s, p1) {
                lemma_throws_reads_well(s, p2, acc.push(t));
            }
        }
    }
}

/// Reading a field signature from a string never reports the UTF-8 error.
pub proof fn law_field_signature_no_utf8_error(sig: Seq<char>)
    ensures
        no_utf8_error(field_signature_of(encode_utf8(sig))),
{
    let s = encode_utf8(sig);
    encode_utf8_valid_utf8(sig);
    is_char_boundary_start_end_of_seq(s);
    lemma_reference_type_reads_well(s, 0);
    lemma_messages(0, 0);
}

/// Reading a class signature from a string never reports the UTF-8 error.
pub proof fn law_class_signature_no_utf8_error(sig: Seq<char>)
    ensures
        no_utf8_error(class_signature_of(encode_utf8(sig))),
{
    let s = encode_utf8(sig);
    encode_utf8_valid_utf8(sig);
    is_char_boundary_start_end_of_seq(s);
    lemma_type_parameters_reads_well(s, 0);
    if let Ok((params, p1)) = type_parameters_at(s, 0) {
        lemma_class_type_reads_well(s, p1);
        if let Ok((c, p2)) = class_type_at(s, p1) {
            lemma_interfaces_reads_well(s, p2, seq![]);
        }
    }
}

/// Reading a method signature from a string never reports the UTF-8 error.
pub proof fn law_method_signature_no_utf8_error(sig: Seq<char>)
    ensures
        no_utf8_error(method_signature_of(encode_utf8(sig))),
{
    let s = encode_utf8(sig);
    encode_utf8_valid_utf8(sig);
    is_char_boundary_start_end_of_seq(s);
    lemma_type_parameters_reads_well(s, 0);
    if let Ok((params, p1)) = type_parameters_at(s, 0) {
        lemma_expect_reads_well(s, p1, OPEN_PAREN);
        if let Ok(p2) = expect_at(s, p1, OPEN_PAREN) {
            lemma_parameters_reads_well(s, p2, seq![]);
            if let Ok((ps, p3)) = parameters_at(s, p2, seq![]) {
                lemma_expect_reads_well(s, p3, CLOSE_PAREN);
                if let Ok(p4) = expect_at(s, p3, CLOSE_PAREN) {
                    if 0 <= p4 < s.len() && s[p4] == VOID_LETTER {
                        lemma_boundary_after_ascii(s, p4);
                    } else {
                        lemma_java_type_reads_well(s, p4);
                    }
                    if let Ok((r, p5)) = return_type_at(s, p4) {
                        lemma_throws_reads_well(s, p5, seq![]);
                    }
                }
            }
        }
    }
}

} // verus!

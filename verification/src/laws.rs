//! Laws that relate reading a signature and writing it back out.
use vstd::prelude::*;
use vstd::utf8::{decode_utf8_encode_utf8, encode_utf8};

use crate::grammar::{
    arguments_at, base_type_of, class_name_delimiters, class_type_at, expect_at, identifier_at,
    inner_name_delimiters, java_type_at, lemma_arguments_advance, lemma_class_type_advances,
    lemma_identifier_at, lemma_java_type_advances, lemma_package_at, lemma_reference_type_advances,
    lemma_simple_class_advances, lemma_suffixes_advance, lemma_type_argument_advances,
    lemma_type_arguments_advance, lemma_type_variable_at, package_at, peek_at, reference_type_at,
    simple_class_at, suffixes_at, type_argument_at, type_arguments_at, type_variable_at,
    ARRAY_START, CLASS_START, CLOSE_ANGLE, DOT, MINUS, OPEN_ANGLE, PLUS, SEMICOLON, SLASH, STAR,
    TYPE_VARIABLE_START, COLON, CLOSE_PAREN, VOID_LETTER, type_parameters_at, parameter_list_at,
    type_parameter_at, class_bound_at, interface_bounds_at, interfaces_at, parameters_at,
    return_type_at, throws_at, throw_at, field_signature_of, class_signature_of,
    method_signature_of, lemma_type_parameter_advances, lemma_interface_bounds_advance,
    lemma_throw_advances, lemma_parameter_list_advance, lemma_type_parameters_advance,
    lemma_parameters_advance, expected_message, CARET,
};
use crate::window::{
    agree, lemma_class_type_window, lemma_interfaces_continue, lemma_parameters_window,
    lemma_reference_type_window, lemma_return_type_window, lemma_throws_continue,
    lemma_type_parameters_window,
};
use crate::types::Type;
use crate::render::{
    argument_text, arguments_text, class_type_text, concat_text, descriptor, lemma_arguments_text_push,
    lemma_concat_text_push, lemma_suffixes_text_push, package_text, simple_class_text,
    suffixes_text, type_text, type_parameters_text, type_parameter_text, throws_text,
    class_signature_text, method_signature_text, internal_name_text,
};
use crate::signature::{
    SpecClassSignature, SpecMethodSignature, SpecSignatureError, SpecClassTypeSignature, SpecSignatureType, SpecSimpleClassTypeSignature, SpecThrowsSignature,
    SpecTypeArgument, SpecTypeParameter,
};
use crate::utf8_facts::{
    has_empty_angle_pair, has_empty_angle_pair_bytes, lemma_angle_pair_of_encoding,
    lemma_encode_ascii_char, lemma_encode_concat, lemma_first_byte_of_encoding,
};

verus! {

broadcast use lemma_encode_concat;

proof fn lemma_split(s: Seq<u8>, a: int, b: int, c: int)
    requires
        0 <= a <= b <= c <= s.len(),
    ensures
        s.subrange(a, c) == s.subrange(a, b) + s.subrange(b, c),
{
    assert(s.subrange(a, c) =~= s.subrange(a, b) + s.subrange(b, c));
}

/// The encoding of a one-character ASCII text is that character's byte.
proof fn lemma_ascii(c: char, b: u8)
    requires
        c as int == b as int,
        b < 0x80,
    ensures
        encode_utf8(seq![c]) == seq![b],
{
    lemma_encode_ascii_char(c);
    assert(encode_utf8(seq![c]) =~= seq![b]);
}

/// A byte that the reader matched is the one-byte text of that character.
proof fn lemma_byte_at(s: Seq<u8>, pos: int, c: char)
    requires
        0 <= pos < s.len(),
        s[pos] as int == c as int,
        s[pos] < 0x80,
    ensures
        s.subrange(pos, pos + 1) == encode_utf8(seq![c]),
{
    lemma_ascii(c, s[pos]);
    assert(s.subrange(pos, pos + 1) =~= seq![s[pos]]);
}

proof fn lemma_identifier_text(s: Seq<u8>, pos: int, delimiters: Seq<u8>)
    requires
        0 <= pos <= s.len(),
    ensures
        identifier_at(s, pos, delimiters) matches Ok((name, end)) ==> s.subrange(pos, end)
            == encode_utf8(name),
{
    lemma_identifier_at(s, pos, delimiters);
    if let Ok((name, end)) = identifier_at(s, pos, delimiters) {
        decode_utf8_encode_utf8(s.subrange(pos, end));
    }
}

proof fn lemma_type_variable_text(s: Seq<u8>, pos: int)
    requires
        0 <= pos <= s.len(),
    ensures
        type_variable_at(s, pos) matches Ok((name, p)) ==> s.subrange(pos, p) == encode_utf8(
            seq!['T'] + name + seq![';'],
        ),
{
    if let Ok((name, p)) = type_variable_at(s, pos) {
        let p1 = pos + 1;
        lemma_identifier_at(s, p1, seq![SEMICOLON]);
        lemma_identifier_text(s, p1, seq![SEMICOLON]);
        let p2 = p - 1;
        lemma_byte_at(s, pos, 'T');
        lemma_byte_at(s, p2, ';');
        lemma_split(s, pos, p1, p);
        lemma_split(s, p1, p2, p);
        assert(encode_utf8(seq!['T'] + name + seq![';']) == encode_utf8(seq!['T']) + encode_utf8(
            name,
        ) + encode_utf8(seq![';']));
    }
}

pub proof fn lemma_java_type_text(s: Seq<u8>, pos: int)
    requires
        0 <= pos <= s.len(),
        !has_empty_angle_pair_bytes(s),
    ensures
        java_type_at(s, pos) matches Ok((t, p)) ==> s.subrange(pos, p) == encode_utf8(
            type_text(t),
        ),
    decreases s.len() - pos, 4int,
{
    if 0 <= pos < s.len() {
        match base_type_of(s[pos]) {
            Some(t) => {
                lemma_byte_at(s, pos, descriptor(t));
            },
            None => {
                lemma_reference_type_text(s, pos);
            },
        }
    }
}

pub proof fn lemma_reference_type_text(s: Seq<u8>, pos: int)
    requires
        0 <= pos <= s.len(),
        !has_empty_angle_pair_bytes(s),
    ensures
        reference_type_at(s, pos) matches Ok((t, p)) ==> s.subrange(pos, p) == encode_utf8(
            type_text(t),
        ),
    decreases s.len() - pos, 3int,
{
    if 0 <= pos < s.len() {
        let b = s[pos];
        if b == CLASS_START {
            lemma_class_type_text(s, pos);
        } else if b == TYPE_VARIABLE_START {
            lemma_type_variable_text(s, pos);
        } else if b == ARRAY_START {
            lemma_java_type_text(s, pos + 1);
            lemma_java_type_advances(s, pos + 1);
            if let Ok((t, p)) = java_type_at(s, pos + 1) {
                lemma_byte_at(s, pos, '[');
                lemma_split(s, pos, pos + 1, p);
                assert(type_text(SpecSignatureType::Array(Box::new(t))) == seq!['['] + type_text(t));
            }
        }
    }
}

#[verifier::rlimit(40)]
pub proof fn lemma_class_type_text(s: Seq<u8>, pos: int)
    requires
        0 <= pos <= s.len(),
        !has_empty_angle_pair_bytes(s),
    ensures
        class_type_at(s, pos) matches Ok((c, p)) ==> s.subrange(pos, p) == encode_utf8(
            class_type_text(c),
        ),
    decreases s.len() - pos, 2int,
{
    if let Ok((c, p6)) = class_type_at(s, pos) {
        let p1 = pos + 1;
        lemma_identifier_at(s, p1, class_name_delimiters());
        lemma_identifier_text(s, p1, class_name_delimiters());
        let (first, p2) = identifier_at(s, p1, class_name_delimiters())->Ok_0;
        lemma_package_at(s, p2, seq![], first);
        lemma_package_text(s, p2, seq![], first);
        let (names, p3) = package_at(s, p2, seq![], first)->Ok_0;
        lemma_simple_class_advances(s, p3, names.1);
        lemma_simple_class_text(s, p3, names.1);
        let (simple, p4) = simple_class_at(s, p3, names.1)->Ok_0;
        lemma_suffixes_advance(s, p4, seq![]);
        lemma_suffixes_text(s, p4, seq![]);
        let (suffixes, p5) = suffixes_at(s, p4, seq![])->Ok_0;
        assert(p6 == p5 + 1);
        lemma_byte_at(s, pos, 'L');
        lemma_byte_at(s, p5, ';');
        assert(package_text(seq![]) == Seq::<char>::empty());
        assert(suffixes_text(seq![]) == Seq::<char>::empty());
        assert(seq![] + first =~= first);
        assert(encode_utf8(Seq::<char>::empty()) =~= Seq::<u8>::empty());
        lemma_split(s, pos, p1, p6);
        lemma_split(s, p1, p2, p6);
        lemma_split(s, p2, p3, p6);
        lemma_split(s, p3, p4, p6);
        lemma_split(s, p4, p5, p6);
        let pt = package_text(names.0);
        let st = simple_class_text(simple);
        let xt = suffixes_text(suffixes);
        assert(class_type_text(c) == seq!['L'] + pt + st + xt + seq![';']);
        assert(encode_utf8(st) == encode_utf8(names.1) + s.subrange(p3, p4));
        assert(encode_utf8(pt + names.1) == s.subrange(p1, p2) + s.subrange(p2, p3));
        assert(encode_utf8(xt) == s.subrange(p4, p5));
        assert(s.subrange(pos, p6) =~= encode_utf8(seq!['L']) + (encode_utf8(pt) + encode_utf8(
            names.1,
        )) + s.subrange(p3, p4) + encode_utf8(xt) + encode_utf8(seq![';']));
        assert(encode_utf8(class_type_text(c)) =~= encode_utf8(seq!['L']) + encode_utf8(pt)
            + encode_utf8(st) + encode_utf8(xt) + encode_utf8(seq![';']));
    }
}

proof fn lemma_package_text(s: Seq<u8>, pos: int, packages: Seq<Seq<char>>, name: Seq<char>)
    requires
        0 <= pos <= s.len(),
    ensures
        package_at(s, pos, packages, name) matches Ok((names, p)) ==> encode_utf8(
            package_text(names.0) + names.1,
        ) == encode_utf8(package_text(packages) + name) + s.subrange(pos, p),
    decreases s.len() - pos,
{
    lemma_package_at(s, pos, packages, name);
    if let Ok((names, p)) = package_at(s, pos, packages, name) {
        if s[pos] == SLASH {
            lemma_identifier_at(s, pos + 1, class_name_delimiters());
            lemma_identifier_text(s, pos + 1, class_name_delimiters());
            let (next, p1) = identifier_at(s, pos + 1, class_name_delimiters())->Ok_0;
            lemma_package_at(s, p1, packages.push(name), next);
            lemma_package_text(s, p1, packages.push(name), next);
            lemma_concat_text_push(packages, name, |n: Seq<char>| n + seq!['/']);
            lemma_byte_at(s, pos, '/');
            lemma_split(s, pos, pos + 1, p);
            lemma_split(s, pos + 1, p1, p);
            assert(package_text(packages.push(name)) == package_text(packages) + name + seq!['/']);
            assert(encode_utf8(package_text(packages.push(name)) + next) =~= encode_utf8(
                package_text(packages) + name,
            ) + encode_utf8(seq!['/']) + encode_utf8(next));
        } else {
            assert(s.subrange(pos, p) =~= Seq::<u8>::empty());
            assert(encode_utf8(package_text(packages) + name) + Seq::<u8>::empty() =~= encode_utf8(
                package_text(packages) + name,
            ));
        }
    }
}

pub proof fn lemma_simple_class_text(s: Seq<u8>, pos: int, name: Seq<char>)
    requires
        0 <= pos <= s.len(),
        !has_empty_angle_pair_bytes(s),
    ensures
        simple_class_at(s, pos, name) matches Ok((c, p)) ==> c.name == name && encode_utf8(
            simple_class_text(c),
        ) == encode_utf8(name) + s.subrange(pos, p),
    decreases s.len() - pos, 1int,
{
    if let Ok((c, p)) = simple_class_at(s, pos, name) {
        if 0 <= pos < s.len() && s[pos] == OPEN_ANGLE {
            lemma_type_arguments_text(s, pos);
            lemma_type_arguments_advance(s, pos);
        } else {
            assert(s.subrange(pos, p) =~= Seq::<u8>::empty());
            assert(encode_utf8(name) + Seq::<u8>::empty() =~= encode_utf8(name));
        }
    }
}

pub proof fn lemma_suffixes_text(s: Seq<u8>, pos: int, acc: Seq<SpecSimpleClassTypeSignature>)
    requires
        0 <= pos <= s.len(),
        !has_empty_angle_pair_bytes(s),
    ensures
        suffixes_at(s, pos, acc) matches Ok((all, p)) ==> encode_utf8(suffixes_text(all))
            == encode_utf8(suffixes_text(acc)) + s.subrange(pos, p),
    decreases s.len() - pos, 0int,
{
    if let Ok((all, p)) = suffixes_at(s, pos, acc) {
        if s[pos] == DOT {
            lemma_identifier_at(s, pos + 1, inner_name_delimiters());
            lemma_identifier_text(s, pos + 1, inner_name_delimiters());
            let (name, p1) = identifier_at(s, pos + 1, inner_name_delimiters())->Ok_0;
            lemma_simple_class_advances(s, p1, name);
            lemma_simple_class_text(s, p1, name);
            let (simple, p2) = simple_class_at(s, p1, name)->Ok_0;
            lemma_suffixes_advance(s, p2, acc.push(simple));
            lemma_suffixes_text(s, p2, acc.push(simple));
            lemma_suffixes_text_push(acc, simple);
            lemma_byte_at(s, pos, '.');
            lemma_split(s, pos, pos + 1, p);
            lemma_split(s, pos + 1, p1, p);
            lemma_split(s, p1, p2, p);
            assert(encode_utf8(suffixes_text(acc.push(simple))) =~= encode_utf8(suffixes_text(acc))
                + encode_utf8(seq!['.']) + encode_utf8(simple_class_text(simple)));
        } else {
            assert(s.subrange(pos, p) =~= Seq::<u8>::empty());
            assert(encode_utf8(suffixes_text(acc)) + Seq::<u8>::empty() =~= encode_utf8(
                suffixes_text(acc),
            ));
        }
    }
}

/// Read type arguments are never empty (an empty `<>` is excluded) and are written
/// back as the bytes they were read from.
pub proof fn lemma_type_arguments_text(s: Seq<u8>, pos: int)
    requires
        0 <= pos <= s.len(),
        !has_empty_angle_pair_bytes(s),
    ensures
        type_arguments_at(s, pos) matches Ok((args, p)) ==> args.len() > 0 && s.subrange(pos, p)
            == encode_utf8(seq!['<'] + arguments_text(args) + seq!['>']),
    decreases s.len() - pos, 0int,
{
    if let Ok((args, p3)) = type_arguments_at(s, pos) {
        let p1 = pos + 1;
        lemma_arguments_advance(s, p1, seq![]);
        lemma_arguments_text(s, p1, seq![]);
        let (all, p2) = arguments_at(s, p1, seq![])->Ok_0;
        assert(arguments_text(seq![]) == Seq::<char>::empty());
        assert(encode_utf8(Seq::<char>::empty()) =~= Seq::<u8>::empty());
        assert(encode_utf8(arguments_text(args)) =~= s.subrange(p1, p2));
        if args.len() == 0 {
            assert(s.subrange(p1, p2).len() == 0);
            assert(s[pos] == OPEN_ANGLE && s[pos + 1] == CLOSE_ANGLE);
            assert(has_empty_angle_pair_bytes(s));
        }
        lemma_byte_at(s, pos, '<');
        lemma_byte_at(s, p2, '>');
        lemma_split(s, pos, p1, p3);
        lemma_split(s, p1, p2, p3);
        assert(encode_utf8(seq!['<'] + arguments_text(args) + seq!['>']) =~= encode_utf8(seq!['<'])
            + encode_utf8(arguments_text(args)) + encode_utf8(seq!['>']));
    }
}

pub proof fn lemma_arguments_text(s: Seq<u8>, pos: int, acc: Seq<SpecTypeArgument>)
    requires
        0 <= pos <= s.len(),
        !has_empty_angle_pair_bytes(s),
    ensures
        arguments_at(s, pos, acc) matches Ok((all, p)) ==> encode_utf8(arguments_text(all))
            == encode_utf8(arguments_text(acc)) + s.subrange(pos, p),
    decreases s.len() - pos, 5int,
{
    if let Ok((all, p)) = arguments_at(s, pos, acc) {
        if s[pos] == CLOSE_ANGLE {
            assert(s.subrange(pos, p) =~= Seq::<u8>::empty());
            assert(encode_utf8(arguments_text(acc)) + Seq::<u8>::empty() =~= encode_utf8(
                arguments_text(acc),
            ));
        } else {
            lemma_type_argument_advances(s, pos);
            lemma_type_argument_text(s, pos);
            let (arg, p1) = type_argument_at(s, pos)->Ok_0;
            lemma_arguments_advance(s, p1, acc.push(arg));
            lemma_arguments_text(s, p1, acc.push(arg));
            lemma_arguments_text_push(acc, arg);
            lemma_split(s, pos, p1, p);
        }
    }
}

pub proof fn lemma_type_argument_text(s: Seq<u8>, pos: int)
    requires
        0 <= pos <= s.len(),
        !has_empty_angle_pair_bytes(s),
    ensures
        type_argument_at(s, pos) matches Ok((a, p)) ==> s.subrange(pos, p) == encode_utf8(
            argument_text(a),
        ),
    decreases s.len() - pos, 4int,
{
    if let Ok((a, p)) = type_argument_at(s, pos) {
        let b = s[pos];
        if b == STAR {
            lemma_byte_at(s, pos, '*');
        } else if b == PLUS || b == MINUS {
            lemma_reference_type_advances(s, pos + 1);
            lemma_reference_type_text(s, pos + 1);
            lemma_split(s, pos, pos + 1, p);
            if b == PLUS {
                lemma_byte_at(s, pos, '+');
            } else {
                lemma_byte_at(s, pos, '-');
            }
        } else {
            lemma_reference_type_text(s, pos);
        }
    }
}

pub proof fn lemma_type_parameters_text(s: Seq<u8>, pos: int)
    requires
        0 <= pos <= s.len(),
        !has_empty_angle_pair_bytes(s),
    ensures
        type_parameters_at(s, pos) matches Ok((ps, p)) ==> pos <= p <= s.len() && s.subrange(
            pos,
            p,
        ) == encode_utf8(type_parameters_text(ps)),
{
    if let Ok((ps, p)) = type_parameters_at(s, pos) {
        if pos >= s.len() || s[pos] != OPEN_ANGLE {
            assert(s.subrange(pos, p) =~= Seq::<u8>::empty());
            assert(encode_utf8(Seq::<char>::empty()) =~= Seq::<u8>::empty());
        } else {
            let p1 = pos + 1;
            lemma_parameter_list_advance(s, p1, seq![]);
            lemma_parameter_list_text(s, p1, seq![]);
            let (all, p2) = parameter_list_at(s, p1, seq![])->Ok_0;
            let text = |q: SpecTypeParameter| type_parameter_text(q);
            assert(concat_text(Seq::<SpecTypeParameter>::empty(), text) == Seq::<char>::empty());
            assert(encode_utf8(Seq::<char>::empty()) =~= Seq::<u8>::empty());
            assert(encode_utf8(concat_text(ps, text)) =~= s.subrange(p1, p2));
            if ps.len() == 0 {
                assert(s.subrange(p1, p2).len() == 0);
                assert(s[pos] == OPEN_ANGLE && s[pos + 1] == CLOSE_ANGLE);
                assert(has_empty_angle_pair_bytes(s));
            }
            lemma_byte_at(s, pos, '<');
            lemma_byte_at(s, p2, '>');
            lemma_split(s, pos, p1, p);
            lemma_split(s, p1, p2, p);
            assert(encode_utf8(type_parameters_text(ps)) =~= encode_utf8(seq!['<']) + encode_utf8(
                concat_text(ps, text),
            ) + encode_utf8(seq!['>']));
        }
    }
}

proof fn lemma_parameter_list_text(s: Seq<u8>, pos: int, acc: Seq<SpecTypeParameter>)
    requires
        0 <= pos <= s.len(),
        !has_empty_angle_pair_bytes(s),
    ensures
        parameter_list_at(s, pos, acc) matches Ok((all, p)) ==> encode_utf8(
            concat_text(all, |q: SpecTypeParameter| type_parameter_text(q)),
        ) == encode_utf8(concat_text(acc, |q: SpecTypeParameter| type_parameter_text(q)))
            + s.subrange(pos, p),
    decreases s.len() - pos,
{
    let text = |q: SpecTypeParameter| type_parameter_text(q);
    if let Ok((all, p)) = parameter_list_at(s, pos, acc) {
        if s[pos] == CLOSE_ANGLE {
            assert(s.subrange(pos, p) =~= Seq::<u8>::empty());
            assert(encode_utf8(concat_text(acc, text)) + Seq::<u8>::empty() =~= encode_utf8(
                concat_text(acc, text),
            ));
        } else {
            lemma_type_parameter_advances(s, pos);
            lemma_type_parameter_text(s, pos);
            let (param, p1) = type_parameter_at(s, pos)->Ok_0;
            lemma_parameter_list_advance(s, p1, acc.push(param));
            lemma_parameter_list_text(s, p1, acc.push(param));
            lemma_concat_text_push(acc, param, text);
            lemma_split(s, pos, p1, p);
        }
    }
}

proof fn lemma_type_parameter_text(s: Seq<u8>, pos: int)
    requires
        0 <= pos <= s.len(),
        !has_empty_angle_pair_bytes(s),
    ensures
        type_parameter_at(s, pos) matches Ok((param, p)) ==> s.subrange(pos, p) == encode_utf8(
            type_parameter_text(param),
        ),
{
    lemma_type_parameter_advances(s, pos);
    if let Ok((param, p4)) = type_parameter_at(s, pos) {
        lemma_identifier_at(s, pos, seq![COLON]);
        lemma_identifier_text(s, pos, seq![COLON]);
        let (name, p1) = identifier_at(s, pos, seq![COLON])->Ok_0;
        let p2 = p1 + 1;
        lemma_byte_at(s, p1, ':');
        let (bound, p3) = class_bound_at(s, p2)->Ok_0;
        let bound_text = match bound {
            Some(t) => type_text(t),
            None => Seq::<char>::empty(),
        };
        if 0 <= p2 < s.len() {
            lemma_reference_type_advances(s, p2);
            lemma_reference_type_text(s, p2);
        }
        assert(s.subrange(p2, p3) == encode_utf8(bound_text)) by {
            if bound is None {
                assert(s.subrange(p2, p3) =~= Seq::<u8>::empty());
                assert(encode_utf8(Seq::<char>::empty()) =~= Seq::<u8>::empty());
            }
        }
        let text = |t: SpecSignatureType| seq![':'] + type_text(t);
        lemma_interface_bounds_advance(s, p3, seq![]);
        lemma_interface_bounds_text(s, p3, seq![]);
        assert(concat_text(Seq::<SpecSignatureType>::empty(), text) == Seq::<char>::empty());
        assert(encode_utf8(Seq::<char>::empty()) =~= Seq::<u8>::empty());
        assert(encode_utf8(concat_text(param.interface_bounds, text)) =~= s.subrange(p3, p4));
        lemma_split(s, pos, p1, p4);
        lemma_split(s, p1, p2, p4);
        lemma_split(s, p2, p3, p4);
        assert(type_parameter_text(param) == name + seq![':'] + bound_text + concat_text(
            param.interface_bounds,
            text,
        ));
        assert(encode_utf8(type_parameter_text(param)) =~= encode_utf8(name) + encode_utf8(seq![':'])
            + encode_utf8(bound_text) + encode_utf8(concat_text(param.interface_bounds, text)));
    }
}

proof fn lemma_interface_bounds_text(s: Seq<u8>, pos: int, acc: Seq<SpecSignatureType>)
    requires
        0 <= pos <= s.len(),
        !has_empty_angle_pair_bytes(s),
    ensures
        interface_bounds_at(s, pos, acc) matches Ok((all, p)) ==> encode_utf8(
            concat_text(all, |t: SpecSignatureType| seq![':'] + type_text(t)),
        ) == encode_utf8(concat_text(acc, |t: SpecSignatureType| seq![':'] + type_text(t)))
            + s.subrange(pos, p),
    decreases s.len() - pos,
{
    let text = |t: SpecSignatureType| seq![':'] + type_text(t);
    lemma_interface_bounds_advance(s, pos, acc);
    if let Ok((all, p)) = interface_bounds_at(s, pos, acc) {
        if s[pos] == COLON {
            lemma_reference_type_advances(s, pos + 1);
            lemma_reference_type_text(s, pos + 1);
            let (t, p1) = reference_type_at(s, pos + 1)->Ok_0;
            lemma_interface_bounds_advance(s, p1, acc.push(t));
            lemma_interface_bounds_text(s, p1, acc.push(t));
            lemma_concat_text_push(acc, t, text);
            lemma_byte_at(s, pos, ':');
            lemma_split(s, pos, pos + 1, p);
            lemma_split(s, pos + 1, p1, p);
            assert(encode_utf8(text(t)) =~= encode_utf8(seq![':']) + encode_utf8(type_text(t)));
        } else {
            assert(s.subrange(pos, p) =~= Seq::<u8>::empty());
            assert(encode_utf8(concat_text(acc, text)) + Seq::<u8>::empty() =~= encode_utf8(
                concat_text(acc, text),
            ));
        }
    }
}

proof fn lemma_interfaces_text(s: Seq<u8>, pos: int, acc: Seq<SpecClassTypeSignature>)
    requires
        0 <= pos <= s.len(),
        !has_empty_angle_pair_bytes(s),
    ensures
        interfaces_at(s, pos, acc) matches Ok(all) ==> encode_utf8(
            concat_text(all, |i: SpecClassTypeSignature| class_type_text(i)),
        ) == encode_utf8(concat_text(acc, |i: SpecClassTypeSignature| class_type_text(i)))
            + s.subrange(pos, s.len() as int),
    decreases s.len() - pos,
{
    let text = |i: SpecClassTypeSignature| class_type_text(i);
    if let Ok(all) = interfaces_at(s, pos, acc) {
        if pos >= s.len() {
            assert(s.subrange(pos, s.len() as int) =~= Seq::<u8>::empty());
            assert(encode_utf8(concat_text(acc, text)) + Seq::<u8>::empty() =~= encode_utf8(
                concat_text(acc, text),
            ));
        } else {
            lemma_class_type_advances(s, pos);
            lemma_class_type_text(s, pos);
            let (c, p) = class_type_at(s, pos)->Ok_0;
            lemma_interfaces_text(s, p, acc.push(c));
            lemma_concat_text_push(acc, c, text);
            lemma_split(s, pos, p, s.len() as int);
        }
    }
}

proof fn lemma_parameters_text(s: Seq<u8>, pos: int, acc: Seq<SpecSignatureType>)
    requires
        0 <= pos <= s.len(),
        !has_empty_angle_pair_bytes(s),
    ensures
        parameters_at(s, pos, acc) matches Ok((all, p)) ==> pos <= p < s.len() && encode_utf8(
            concat_text(all, |t: SpecSignatureType| type_text(t)),
        ) == encode_utf8(concat_text(acc, |t: SpecSignatureType| type_text(t))) + s.subrange(
            pos,
            p,
        ),
    decreases s.len() - pos,
{
    let text = |t: SpecSignatureType| type_text(t);
    if let Ok((all, p)) = parameters_at(s, pos, acc) {
        if s[pos] == CLOSE_PAREN {
            assert(s.subrange(pos, p) =~= Seq::<u8>::empty());
            assert(encode_utf8(concat_text(acc, text)) + Seq::<u8>::empty() =~= encode_utf8(
                concat_text(acc, text),
            ));
        } else {
            lemma_java_type_advances(s, pos);
            lemma_java_type_text(s, pos);
            let (t, p1) = java_type_at(s, pos)->Ok_0;
            lemma_parameters_text(s, p1, acc.push(t));
            lemma_concat_text_push(acc, t, text);
            lemma_split(s, pos, p1, p);
        }
    }
}

proof fn lemma_throw_text(s: Seq<u8>, pos: int)
    requires
        0 <= pos <= s.len(),
        !has_empty_angle_pair_bytes(s),
    ensures
        throw_at(s, pos) matches Ok((t, p)) ==> s.subrange(pos, p) == encode_utf8(throws_text(t)),
{
    lemma_class_type_text(s, pos);
    lemma_type_variable_text(s, pos);
}

proof fn lemma_throws_text(s: Seq<u8>, pos: int, acc: Seq<SpecThrowsSignature>)
    requires
        0 <= pos <= s.len(),
        !has_empty_angle_pair_bytes(s),
    ensures
        throws_at(s, pos, acc) matches Ok(all) ==> encode_utf8(
            concat_text(all, |t: SpecThrowsSignature| seq!['^'] + throws_text(t)),
        ) == encode_utf8(concat_text(acc, |t: SpecThrowsSignature| seq!['^'] + throws_text(t)))
            + s.subrange(pos, s.len() as int),
    decreases s.len() - pos,
{
    let text = |t: SpecThrowsSignature| seq!['^'] + throws_text(t);
    if let Ok(all) = throws_at(s, pos, acc) {
        if pos >= s.len() {
            assert(s.subrange(pos, s.len() as int) =~= Seq::<u8>::empty());
            assert(encode_utf8(concat_text(acc, text)) + Seq::<u8>::empty() =~= encode_utf8(
                concat_text(acc, text),
            ));
        } else {
            let p1 = pos + 1;
            lemma_throw_advances(s, p1);
            lemma_throw_text(s, p1);
            let (t, p2) = throw_at(s, p1)->Ok_0;
            lemma_throws_text(s, p2, acc.push(t));
            lemma_concat_text_push(acc, t, text);
            lemma_byte_at(s, pos, '^');
            lemma_split(s, pos, p1, s.len() as int);
            lemma_split(s, p1, p2, s.len() as int);
            assert(encode_utf8(text(t)) =~= encode_utf8(seq!['^']) + encode_utf8(throws_text(t)));
        }
    }
}

/// Turns a byte-level equality on the encoding of `text` back into one on characters.
proof fn lemma_same_text(sig: Seq<char>, text: Seq<char>)
    requires
        encode_utf8(sig) == encode_utf8(text),
    ensures
        sig == text,
{
    vstd::utf8::encode_utf8_decode_utf8(sig);
    vstd::utf8::encode_utf8_decode_utf8(text);
}

/// Reading a field signature and writing the result back gives the same text, for
/// every text that holds no `<` immediately followed by `>` (an empty list of type
/// arguments is read, and written back as nothing).
pub proof fn law_field_signature_round_trip(sig: Seq<char>)
    requires
        !has_empty_angle_pair(sig),
    ensures
        field_signature_of(encode_utf8(sig)) matches Ok(t) ==> type_text(t) == sig,
{
    let s = encode_utf8(sig);
    lemma_angle_pair_of_encoding(sig);
    if let Ok(t) = field_signature_of(s) {
        lemma_reference_type_advances(s, 0);
        lemma_reference_type_text(s, 0);
        let (t, p) = reference_type_at(s, 0)->Ok_0;
        assert(s.subrange(0, p) =~= s);
        lemma_same_text(sig, type_text(t));
    }
}

proof fn lemma_class_signature_text(s: Seq<u8>)
    requires
        !has_empty_angle_pair_bytes(s),
    ensures
        class_signature_of(s) matches Ok(c) ==> s == encode_utf8(class_signature_text(c)),
{
    if let Ok(c) = class_signature_of(s) {
        lemma_type_parameters_text(s, 0);
        let (ps, p1) = type_parameters_at(s, 0)->Ok_0;
        lemma_class_type_advances(s, p1);
        lemma_class_type_text(s, p1);
        let (sup, p2) = class_type_at(s, p1)->Ok_0;
        lemma_interfaces_text(s, p2, seq![]);
        let text = |i: SpecClassTypeSignature| class_type_text(i);
        assert(concat_text(Seq::<SpecClassTypeSignature>::empty(), text) == Seq::<char>::empty());
        assert(encode_utf8(Seq::<char>::empty()) =~= Seq::<u8>::empty());
        let a = type_parameters_text(ps);
        let b = class_type_text(sup);
        let d = concat_text(c.interfaces, text);
        assert(encode_utf8(d) =~= s.subrange(p2, s.len() as int));
        lemma_split(s, 0, p1, s.len() as int);
        lemma_split(s, p1, p2, s.len() as int);
        assert(s.subrange(0, s.len() as int) =~= s);
        assert(s == encode_utf8(a) + encode_utf8(b) + encode_utf8(d));
        lemma_encode_concat(a, b);
        lemma_encode_concat(a + b, d);
        assert(class_signature_text(c) == a + b + d);
    }
}

/// Reading a class signature and writing the result back gives the same text, for
/// every text that holds no `<` immediately followed by `>`.
pub proof fn law_class_signature_round_trip(sig: Seq<char>)
    requires
        !has_empty_angle_pair(sig),
    ensures
        class_signature_of(encode_utf8(sig)) matches Ok(c) ==> class_signature_text(c) == sig,
{
    lemma_angle_pair_of_encoding(sig);
    lemma_class_signature_text(encode_utf8(sig));
    if let Ok(c) = class_signature_of(encode_utf8(sig)) {
        lemma_same_text(sig, class_signature_text(c));
    }
}

proof fn lemma_encode_six(
    a: Seq<char>,
    b: Seq<char>,
    c: Seq<char>,
    d: Seq<char>,
    e: Seq<char>,
    f: Seq<char>,
)
    ensures
        encode_utf8(a + b + c + d + e + f) == encode_utf8(a) + encode_utf8(b) + encode_utf8(c)
            + encode_utf8(d) + encode_utf8(e) + encode_utf8(f),
{
    lemma_encode_concat(a, b);
    lemma_encode_concat(a + b, c);
    lemma_encode_concat(a + b + c, d);
    lemma_encode_concat(a + b + c + d, e);
    lemma_encode_concat(a + b + c + d + e, f);
}

/// Six consecutive stretches of `s`, each the encoding of one text, make `s` the
/// encoding of the six texts one after the other.
proof fn lemma_assemble_six(
    s: Seq<u8>,
    p1: int,
    p2: int,
    p3: int,
    p4: int,
    p5: int,
    a: Seq<char>,
    b: Seq<char>,
    c: Seq<char>,
    d: Seq<char>,
    e: Seq<char>,
    f: Seq<char>,
)
    requires
        0 <= p1 <= p2 <= p3 <= p4 <= p5 <= s.len(),
        s.subrange(0, p1) == encode_utf8(a),
        s.subrange(p1, p2) == encode_utf8(b),
        s.subrange(p2, p3) == encode_utf8(c),
        s.subrange(p3, p4) == encode_utf8(d),
        s.subrange(p4, p5) == encode_utf8(e),
        s.subrange(p5, s.len() as int) == encode_utf8(f),
    ensures
        s == encode_utf8(a + b + c + d + e + f),
{
    let end = s.len() as int;
    lemma_split(s, 0, p1, end);
    lemma_split(s, p1, p2, end);
    lemma_split(s, p2, p3, end);
    lemma_split(s, p3, p4, end);
    lemma_split(s, p4, p5, end);
    assert(s.subrange(0, end) =~= s);
    lemma_encode_six(a, b, c, d, e, f);
}

proof fn lemma_method_signature_text(s: Seq<u8>)
    requires
        !has_empty_angle_pair_bytes(s),
    ensures
        method_signature_of(s) matches Ok(m) ==> s == encode_utf8(method_signature_text(m)),
{
    if let Ok(m) = method_signature_of(s) {
        let ptext = |t: SpecSignatureType| type_text(t);
        let ttext = |t: SpecThrowsSignature| seq!['^'] + throws_text(t);
        lemma_type_parameters_text(s, 0);
        let (ps, p1) = type_parameters_at(s, 0)->Ok_0;
        let p2 = p1 + 1;
        lemma_parameters_text(s, p2, seq![]);
        let (params, p3) = parameters_at(s, p2, seq![])->Ok_0;
        let p4 = p3 + 1;
        let (ret, p5) = return_type_at(s, p4)->Ok_0;
        lemma_java_type_advances(s, p4);
        assert(s.subrange(p4, p5) == encode_utf8(type_text(ret))) by {
            lemma_java_type_text(s, p4);
            if s[p4] == VOID_LETTER {
                lemma_byte_at(s, p4, 'V');
            }
        }
        let end = s.len() as int;
        assert(encode_utf8(concat_text(params, ptext)) == s.subrange(p2, p3)) by {
            assert(concat_text(Seq::<SpecSignatureType>::empty(), ptext) == Seq::<char>::empty());
            assert(encode_utf8(Seq::<char>::empty()) =~= Seq::<u8>::empty());
            assert(Seq::<u8>::empty() + s.subrange(p2, p3) =~= s.subrange(p2, p3));
        }
        assert(encode_utf8(concat_text(m.throws, ttext)) == s.subrange(p5, end)) by {
            lemma_throws_text(s, p5, seq![]);
            assert(concat_text(Seq::<SpecThrowsSignature>::empty(), ttext) == Seq::<char>::empty());
            assert(encode_utf8(Seq::<char>::empty()) =~= Seq::<u8>::empty());
            assert(Seq::<u8>::empty() + s.subrange(p5, end) =~= s.subrange(p5, end));
        }
        lemma_byte_at(s, p1, '(');
        lemma_byte_at(s, p3, ')');
        lemma_assemble_six(
            s,
            p1,
            p2,
            p3,
            p4,
            p5,
            type_parameters_text(ps),
            seq!['('],
            concat_text(params, ptext),
            seq![')'],
            type_text(ret),
            concat_text(m.throws, ttext),
        );
    }
}

/// Reading a method signature and writing the result back gives the same text, for
/// every text that holds no `<` immediately followed by `>`.
pub proof fn law_method_signature_round_trip(sig: Seq<char>)
    requires
        !has_empty_angle_pair(sig),
    ensures
        method_signature_of(encode_utf8(sig)) matches Ok(m) ==> method_signature_text(m) == sig,
{
    lemma_angle_pair_of_encoding(sig);
    lemma_method_signature_text(encode_utf8(sig));
    if let Ok(m) = method_signature_of(encode_utf8(sig)) {
        lemma_same_text(sig, method_signature_text(m));
    }
}

// ---------------------------------------------------------------------------
// Text appended to a signature.
// ---------------------------------------------------------------------------

/// Reading a method signature from bytes that start with those of the method
/// signature `s` reads what `s` holds, then goes on reading exceptions where `s` ends.
proof fn lemma_method_signature_extended(s: Seq<u8>, t: Seq<u8>)
    requires
        method_signature_of(s) is Ok,
        agree(s, t, 0, 0, s.len() as int),
    ensures
        method_signature_of(t) == (match throws_at(
            t,
            s.len() as int,
            method_signature_of(s)->Ok_0.throws,
        ) {
            Ok(throws) => Ok::<SpecMethodSignature, SpecSignatureError>(
                SpecMethodSignature {
                    type_parameters: method_signature_of(s)->Ok_0.type_parameters,
                    parameter_types: method_signature_of(s)->Ok_0.parameter_types,
                    return_type: method_signature_of(s)->Ok_0.return_type,
                    throws,
                },
            ),
            Err(e) => Err(e),
        }),
{
    lemma_type_parameters_advance(s, 0);
    let (ps, p1) = type_parameters_at(s, 0)->Ok_0;
    let p2 = p1 + 1;
    lemma_parameters_advance(s, p2, seq![]);
    let (params, p3) = parameters_at(s, p2, seq![])->Ok_0;
    let p4 = p3 + 1;
    lemma_java_type_advances(s, p4);
    let (ret, p5) = return_type_at(s, p4)->Ok_0;
    assert(s[p1] == t[p1 + 0]);
    assert(s[p3] == t[p3 + 0]);
    lemma_type_parameters_window(s, t, 0, 0);
    lemma_parameters_window(s, t, 0, p2, seq![]);
    lemma_return_type_window(s, t, 0, p4);
    lemma_throws_continue(s, t, p5, seq![]);
}

/// Reading a class signature from bytes that start with those of the class signature
/// `s` reads what `s` holds, then goes on reading interfaces where `s` ends.
proof fn lemma_class_signature_extended(s: Seq<u8>, t: Seq<u8>)
    requires
        class_signature_of(s) is Ok,
        agree(s, t, 0, 0, s.len() as int),
    ensures
        class_signature_of(t) == (match interfaces_at(
            t,
            s.len() as int,
            class_signature_of(s)->Ok_0.interfaces,
        ) {
            Ok(interfaces) => Ok::<SpecClassSignature, SpecSignatureError>(
                SpecClassSignature {
                    type_parameters: class_signature_of(s)->Ok_0.type_parameters,
                    super_class: class_signature_of(s)->Ok_0.super_class,
                    interfaces,
                },
            ),
            Err(e) => Err(e),
        }),
{
    lemma_type_parameters_advance(s, 0);
    let (ps, p1) = type_parameters_at(s, 0)->Ok_0;
    lemma_class_type_advances(s, p1);
    let (sup, p2) = class_type_at(s, p1)->Ok_0;
    assert(s[p1] == t[p1 + 0]);
    lemma_type_parameters_window(s, t, 0, 0);
    lemma_class_type_window(s, t, 0, p1);
    lemma_interfaces_continue(s, t, p2, seq![]);
}

/// The bytes of a field signature that reads as a class type, placed at the end of
/// `t` from `n` on, read there as that class type, up to the end of `t`.
proof fn lemma_class_field_placed(u: Seq<u8>, t: Seq<u8>, n: int, c: SpecClassTypeSignature)
    requires
        field_signature_of(u) == Ok::<SpecSignatureType, SpecSignatureError>(
            SpecSignatureType::Class(c),
        ),
        0 <= n,
        t.len() == n + u.len(),
        forall|j: int| 0 <= j < u.len() ==> #[trigger] u[j] == t[j + n],
    ensures
        u.len() > 0,
        t[n] == CLASS_START,
        class_type_at(t, n) == Ok::<(SpecClassTypeSignature, int), SpecSignatureError>(
            (c, t.len() as int),
        ),
{
    lemma_reference_type_advances(u, 0);
    assert(u[0] == CLASS_START);
    lemma_class_type_advances(u, 0);
    assert(agree(u, t, n, 0, u.len() as int));
    lemma_class_type_window(u, t, n, 0);
}

/// A field signature followed by any further text is refused, with "trailing input"
/// at the length of the signature.
pub proof fn law_field_signature_trailing_input(sig: Seq<char>, extra: Seq<char>)
    requires
        field_signature_of(encode_utf8(sig)) is Ok,
        extra.len() > 0,
    ensures
        field_signature_of(encode_utf8(sig + extra)) == Err::<SpecSignatureType, SpecSignatureError>(
            SpecSignatureError::Invalid {
                offset: encode_utf8(sig).len() as int,
                message: "trailing input"@,
            },
        ),
{
    let s = encode_utf8(sig);
    let t = encode_utf8(sig + extra);
    lemma_first_byte_of_encoding(extra);
    assert(t == s + encode_utf8(extra));
    lemma_reference_type_advances(s, 0);
    assert(agree(s, t, 0, 0, s.len() as int));
    lemma_reference_type_window(s, t, 0, 0);
}

/// A method signature followed by text that does not start with `^` is refused at the
/// length of the signature: a `^` was expected there, and the first byte of the text
/// was found.
pub proof fn law_method_signature_trailing_input(sig: Seq<char>, extra: Seq<char>)
    requires
        method_signature_of(encode_utf8(sig)) is Ok,
        extra.len() > 0,
        extra[0] != '^',
    ensures
        method_signature_of(encode_utf8(sig + extra)) == Err::<
            SpecMethodSignature,
            SpecSignatureError,
        >(
            SpecSignatureError::Invalid {
                offset: encode_utf8(sig).len() as int,
                message: expected_message(CARET, encode_utf8(extra)[0]),
            },
        ),
{
    let s = encode_utf8(sig);
    let x = encode_utf8(extra);
    let t = encode_utf8(sig + extra);
    lemma_first_byte_of_encoding(extra);
    assert(t == s + x);
    assert(agree(s, t, 0, 0, s.len() as int));
    lemma_method_signature_extended(s, t);
    assert(t[s.len() as int] == x[0]);
    assert(x[0] != CARET);
}

/// Appending `^` and a class type to a method signature adds that class as one more
/// exception and keeps the rest of the signature.
pub proof fn law_method_signature_add_throws(
    sig: Seq<char>,
    m: SpecMethodSignature,
    x: Seq<char>,
    c: SpecClassTypeSignature,
)
    requires
        method_signature_of(encode_utf8(sig)) == Ok::<SpecMethodSignature, SpecSignatureError>(m),
        field_signature_of(encode_utf8(x)) == Ok::<SpecSignatureType, SpecSignatureError>(
            SpecSignatureType::Class(c),
        ),
    ensures
        method_signature_of(encode_utf8(sig + seq!['^'] + x)) == Ok::<
            SpecMethodSignature,
            SpecSignatureError,
        >(
            SpecMethodSignature {
                type_parameters: m.type_parameters,
                parameter_types: m.parameter_types,
                return_type: m.return_type,
                throws: m.throws.push(SpecThrowsSignature::Class(c)),
            },
        ),
{
    let s = encode_utf8(sig);
    let u = encode_utf8(x);
    let t = encode_utf8(sig + seq!['^'] + x);
    let n = s.len() as int;
    lemma_encode_ascii_char('^');
    assert(t == s + encode_utf8(seq!['^']) + u);
    assert(t[n] == CARET);
    assert(agree(s, t, 0, 0, n));
    lemma_method_signature_extended(s, t);
    assert forall|j: int| 0 <= j < u.len() implies #[trigger] u[j] == t[j + (n + 1)] by {
        assert(t[j + (n + 1)] == u[j]);
    }
    lemma_class_field_placed(u, t, n + 1, c);
    let all = m.throws.push(SpecThrowsSignature::Class(c));
    assert(throws_at(t, t.len() as int, all) == Ok::<Seq<SpecThrowsSignature>, SpecSignatureError>(
        all,
    ));
    assert(throw_at(t, n + 1) == Ok::<(SpecThrowsSignature, int), SpecSignatureError>(
        (SpecThrowsSignature::Class(c), t.len() as int),
    ));
}

/// Appending a class type to a class signature adds that class as one more interface
/// and keeps the rest of the signature.
pub proof fn law_class_signature_add_interface(
    sig: Seq<char>,
    c: SpecClassSignature,
    x: Seq<char>,
    i: SpecClassTypeSignature,
)
    requires
        class_signature_of(encode_utf8(sig)) == Ok::<SpecClassSignature, SpecSignatureError>(c),
        field_signature_of(encode_utf8(x)) == Ok::<SpecSignatureType, SpecSignatureError>(
            SpecSignatureType::Class(i),
        ),
    ensures
        class_signature_of(encode_utf8(sig + x)) == Ok::<SpecClassSignature, SpecSignatureError>(
            SpecClassSignature {
                type_parameters: c.type_parameters,
                super_class: c.super_class,
                interfaces: c.interfaces.push(i),
            },
        ),
{
    let s = encode_utf8(sig);
    let u = encode_utf8(x);
    let t = encode_utf8(sig + x);
    let n = s.len() as int;
    assert(t == s + u);
    assert(agree(s, t, 0, 0, n));
    lemma_class_signature_extended(s, t);
    assert forall|j: int| 0 <= j < u.len() implies #[trigger] u[j] == t[j + n] by {
        assert(t[j + n] == u[j]);
    }
    lemma_class_field_placed(u, t, n, i);
    let all = c.interfaces.push(i);
    assert(interfaces_at(t, t.len() as int, all) == Ok::<
        Seq<SpecClassTypeSignature>,
        SpecSignatureError,
    >(all));
}

// ---------------------------------------------------------------------------
// Laws that look at part of the input only.
// ---------------------------------------------------------------------------

/// A reference type read from any input is written back as the very bytes that were
/// read, as long as those bytes hold no `<` immediately followed by `>`; what stands
/// around them does not matter.
pub proof fn law_reference_type_text_local(s: Seq<u8>, pos: int)
    requires
        0 <= pos <= s.len(),
    ensures
        reference_type_at(s, pos) matches Ok((t, p)) ==> (!has_empty_angle_pair_bytes(
            s.subrange(pos, p),
        ) ==> s.subrange(pos, p) == encode_utf8(type_text(t))),
{
    if let Ok((t, p)) = reference_type_at(s, pos) {
        lemma_reference_type_advances(s, pos);
        let u = s.subrange(pos, p);
        if !has_empty_angle_pair_bytes(u) {
            assert(agree(s, u, -pos, pos, p));
            lemma_reference_type_window(s, u, -pos, pos);
            lemma_reference_type_text(u, 0);
            assert(u.subrange(0, u.len() as int) =~= u);
        }
    }
}

/// Where the next byte names no primitive type, or there is no next byte, reading a
/// type reads a reference type: the same value, end or error.
pub proof fn law_java_type_is_reference_type(s: Seq<u8>, pos: int)
    requires
        !(0 <= pos < s.len() && base_type_of(s[pos]) is Some),
    ensures
        java_type_at(s, pos) == reference_type_at(s, pos),
{
}

proof fn lemma_inner_names_text(a: Seq<SpecSimpleClassTypeSignature>, b: Seq<SpecSimpleClassTypeSignature>)
    requires
        a.len() == b.len(),
        forall|k: int| 0 <= k < a.len() ==> #[trigger] a[k].name == b[k].name,
    ensures
        concat_text(a, |c: SpecSimpleClassTypeSignature| seq!['$'] + c.name) == concat_text(
            b,
            |c: SpecSimpleClassTypeSignature| seq!['$'] + c.name,
        ),
    decreases a.len(),
{
    if a.len() > 0 {
        lemma_inner_names_text(a.drop_last(), b.drop_last());
        assert(a.last().name == b.last().name);
    }
}

/// The binary name of a class type depends on its packages, its class name and the
/// names of its inner classes only: type arguments anywhere in it do not change it.
pub proof fn law_internal_name_ignores_type_arguments(
    a: SpecClassTypeSignature,
    b: SpecClassTypeSignature,
)
    requires
        a.package_specifier == b.package_specifier,
        a.simple_class.name == b.simple_class.name,
        a.suffixes.len() == b.suffixes.len(),
        forall|k: int|
            0 <= k < a.suffixes.len() ==> #[trigger] a.suffixes[k].name == b.suffixes[k].name,
    ensures
        internal_name_text(a) == internal_name_text(b),
{
    lemma_inner_names_text(a.suffixes, b.suffixes);
}

// ---------------------------------------------------------------------------
// What the primitive letters and binary names are.
// ---------------------------------------------------------------------------

/// The JVM names a primitive type by one letter: `B` byte, `C` char, `D` double,
/// `F` float, `I` int, `J` long, `S` short, `Z` boolean and `V` void.  Reading a type
/// at such a letter reads that primitive type and moves past the letter (the bytes
/// are the ASCII codes of those letters).
pub proof fn law_primitive_letters_read(s: Seq<u8>, pos: int)
    requires
        0 <= pos < s.len(),
    ensures
        s[pos] == 0x42 ==> java_type_at(s, pos) == Ok::<(SpecSignatureType, int), SpecSignatureError>(
            (SpecSignatureType::Base(Type::Byte), pos + 1),
        ),
        s[pos] == 0x43 ==> java_type_at(s, pos) == Ok::<(SpecSignatureType, int), SpecSignatureError>(
            (SpecSignatureType::Base(Type::Char), pos + 1),
        ),
        s[pos] == 0x44 ==> java_type_at(s, pos) == Ok::<(SpecSignatureType, int), SpecSignatureError>(
            (SpecSignatureType::Base(Type::Double), pos + 1),
        ),
        s[pos] == 0x46 ==> java_type_at(s, pos) == Ok::<(SpecSignatureType, int), SpecSignatureError>(
            (SpecSignatureType::Base(Type::Float), pos + 1),
        ),
        s[pos] == 0x49 ==> java_type_at(s, pos) == Ok::<(SpecSignatureType, int), SpecSignatureError>(
            (SpecSignatureType::Base(Type::Int), pos + 1),
        ),
        s[pos] == 0x4A ==> java_type_at(s, pos) == Ok::<(SpecSignatureType, int), SpecSignatureError>(
            (SpecSignatureType::Base(Type::Long), pos + 1),
        ),
        s[pos] == 0x53 ==> java_type_at(s, pos) == Ok::<(SpecSignatureType, int), SpecSignatureError>(
            (SpecSignatureType::Base(Type::Short), pos + 1),
        ),
        s[pos] == 0x5A ==> java_type_at(s, pos) == Ok::<(SpecSignatureType, int), SpecSignatureError>(
            (SpecSignatureType::Base(Type::Boolean), pos + 1),
        ),
        s[pos] == 0x56 ==> java_type_at(s, pos) == Ok::<(SpecSignatureType, int), SpecSignatureError>(
            (SpecSignatureType::Base(Type::Void), pos + 1),
        ),
        s[pos] == 0x56 ==> return_type_at(s, pos) == Ok::<(SpecSignatureType, int), SpecSignatureError>(
            (SpecSignatureType::Base(Type::Void), pos + 1),
        ),
{
}

/// Writing a primitive type gives the one letter that the JVM names it by: `B` byte,
/// `C` char, `D` double, `F` float, `I` int, `J` long, `S` short, `Z` boolean and
/// `V` void.
pub proof fn law_primitive_letters_written(t: Type)
    ensures
        t == Type::Byte ==> type_text(SpecSignatureType::Base(t)) == seq!['B'],
        t == Type::Char ==> type_text(SpecSignatureType::Base(t)) == seq!['C'],
        t == Type::Double ==> type_text(SpecSignatureType::Base(t)) == seq!['D'],
        t == Type::Float ==> type_text(SpecSignatureType::Base(t)) == seq!['F'],
        t == Type::Int ==> type_text(SpecSignatureType::Base(t)) == seq!['I'],
        t == Type::Long ==> type_text(SpecSignatureType::Base(t)) == seq!['J'],
        t == Type::Short ==> type_text(SpecSignatureType::Base(t)) == seq!['S'],
        t == Type::Boolean ==> type_text(SpecSignatureType::Base(t)) == seq!['Z'],
        t == Type::Void ==> type_text(SpecSignatureType::Base(t)) == seq!['V'],
{
}

/// Package names are written each followed by a `/`, in order.
pub proof fn law_package_text(names: Seq<Seq<char>>, name: Seq<char>)
    ensures
        package_text(Seq::<Seq<char>>::empty()) == Seq::<char>::empty(),
        package_text(names.push(name)) == package_text(names) + name + seq!['/'],
{
    lemma_concat_text_push(names, name, |n: Seq<char>| n + seq!['/']);
    assert(package_text(names.push(name)) =~= package_text(names) + name + seq!['/']);
}

/// The binary name of a class type with no inner classes is its packages, each
/// followed by a `/`, and then its class name.
pub proof fn law_internal_name_of_top_level_class(c: SpecClassTypeSignature)
    requires
        c.suffixes.len() == 0,
    ensures
        internal_name_text(c) == package_text(c.package_specifier) + c.simple_class.name,
{
    assert(internal_name_text(c) =~= package_text(c.package_specifier) + c.simple_class.name);
}

/// One more inner class adds a `$` and that class's name at the end of the binary
/// name, and keeps all that was there: every inner class shows in the name, in order.
pub proof fn law_internal_name_adds_inner_class(
    c: SpecClassTypeSignature,
    inner: SpecSimpleClassTypeSignature,
)
    ensures
        internal_name_text(
            SpecClassTypeSignature {
                package_specifier: c.package_specifier,
                simple_class: c.simple_class,
                suffixes: c.suffixes.push(inner),
            },
        ) == internal_name_text(c) + seq!['$'] + inner.name,
        internal_name_text(
            SpecClassTypeSignature {
                package_specifier: c.package_specifier,
                simple_class: c.simple_class,
                suffixes: c.suffixes.push(inner),
            },
        ).len() == internal_name_text(c).len() + 1 + inner.name.len(),
{
    let text = |s: SpecSimpleClassTypeSignature| seq!['$'] + s.name;
    lemma_concat_text_push(c.suffixes, inner, text);
    let d = SpecClassTypeSignature {
        package_specifier: c.package_specifier,
        simple_class: c.simple_class,
        suffixes: c.suffixes.push(inner),
    };
    assert(internal_name_text(d) =~= internal_name_text(c) + seq!['$'] + inner.name);
}

} // verus!

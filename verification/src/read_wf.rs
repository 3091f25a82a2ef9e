//! Laws that what the reader gives back is well formed, so that writing it and
//! reading the text again gives the same value.
use vstd::prelude::*;
use vstd::utf8::{decode_utf8, decode_utf8_encode_utf8, encode_utf8};

use crate::grammar::{
    arguments_at, class_bound_at, class_name_delimiters, class_signature_of, class_type_at,
    expect_at, field_signature_of, identifier_at, identifier_end, inner_name_delimiters,
    interface_bounds_at, interfaces_at, java_type_at, lemma_arguments_advance,
    lemma_class_type_advances, lemma_identifier_at, lemma_identifier_end,
    lemma_interface_bounds_advance, lemma_java_type_advances, lemma_package_at,
    lemma_reference_type_advances, lemma_simple_class_advances, lemma_suffixes_advance,
    lemma_throw_advances, lemma_type_argument_advances, lemma_type_arguments_advance,
    lemma_type_parameter_advances, lemma_type_parameters_advance, method_signature_of, package_at, parameter_list_at,
    parameters_at, reference_type_at, return_type_at, simple_class_at, suffixes_at, throw_at,
    throws_at, type_argument_at, type_arguments_at, type_parameter_at, type_parameters_at,
    type_variable_at, ARRAY_START, CLASS_START, CLOSE_ANGLE, CLOSE_PAREN, COLON, DOT, MINUS,
    OPEN_ANGLE, PLUS, SEMICOLON, SLASH, STAR, TYPE_VARIABLE_START, VOID_LETTER,
};
use crate::read_back::{
    law_class_signature_read_back, law_field_signature_read_back, law_method_signature_read_back,
};
use crate::signature::{
    SpecClassSignature, SpecClassTypeSignature, SpecMethodSignature, SpecSignatureType,
    SpecSimpleClassTypeSignature, SpecThrowsSignature, SpecTypeArgument, SpecTypeParameter,
};
use crate::utf8_facts::{lemma_ascii_char_in_encoding, lemma_first_byte_of_encoding};
use crate::wellformed::{
    class_name_stops, inner_name_stops, starts_reference, valid_name, wf_argument, wf_arguments,
    wf_class_signature, wf_class_type, wf_method_signature, wf_reference, wf_simple_class,
    wf_suffixes, wf_throws, wf_type, wf_type_parameter, wf_type_parameters,
};

verus! {

/// Every character of `stops` is ASCII and its code is one of `delimiters`.
pub open spec fn covered(stops: Seq<char>, delimiters: Seq<u8>) -> bool {
    forall|k: int|
        0 <= k < stops.len() ==> (#[trigger] stops[k] as u32) < 128 && exists|j: int|
            0 <= j < delimiters.len() && delimiters[j] as int == stops[k] as int
}

proof fn lemma_coverage()
    ensures
        covered(class_name_stops(), class_name_delimiters()),
        covered(inner_name_stops(), inner_name_delimiters()),
        covered(seq![';'], seq![SEMICOLON]),
        covered(seq![':'], seq![COLON]),
{
    let c = class_name_stops();
    let d = class_name_delimiters();
    assert(d[0] as int == c[0] as int);
    assert(d[1] as int == c[1] as int);
    assert(d[2] as int == c[2] as int);
    assert(d[3] as int == c[3] as int);
    let ci = inner_name_stops();
    let di = inner_name_delimiters();
    assert(di[0] as int == ci[0] as int);
    assert(di[1] as int == ci[1] as int);
    assert(di[2] as int == ci[2] as int);
    assert(seq![SEMICOLON][0] as int == seq![';'][0] as int);
    assert(seq![COLON][0] as int == seq![':'][0] as int);
}

/// A name the reader read holds no character that ends it, and is not empty.
proof fn lemma_identifier_valid(s: Seq<u8>, pos: int, delimiters: Seq<u8>, stops: Seq<char>)
    requires
        0 <= pos <= s.len(),
        covered(stops, delimiters),
    ensures
        identifier_at(s, pos, delimiters) matches Ok((name, end)) ==> valid_name(name, stops)
            && encode_utf8(name) == s.subrange(pos, end),
{
    lemma_identifier_at(s, pos, delimiters);
    lemma_identifier_end(s, pos, delimiters);
    if let Ok((name, end)) = identifier_at(s, pos, delimiters) {
        let seg = s.subrange(pos, end);
        decode_utf8_encode_utf8(seg);
        assert(encode_utf8(name) == seg);
        if name.len() == 0 {
            assert(encode_utf8(name) =~= Seq::<u8>::empty());
        }
        assert forall|i: int| 0 <= i < name.len() implies !stops.contains(#[trigger] name[i]) by {
            if stops.contains(name[i]) {
                let k = choose|k: int| 0 <= k < stops.len() && stops[k] == name[i];
                assert((stops[k] as u32) < 128);
                let jd = choose|j: int| 0 <= j < delimiters.len() && delimiters[j] as int == stops[k] as int;
                lemma_ascii_char_in_encoding(name, i);
                let j = choose|j: int|
                    0 <= j < encode_utf8(name).len() && #[trigger] encode_utf8(name)[j] as int
                        == name[i] as int;
                assert(seg[j] == s[pos + j]);
                assert(delimiters[jd] == s[pos + j]);
                assert(delimiters.contains(s[pos + j]));
            }
        }
    }
}

proof fn lemma_type_variable_wf(s: Seq<u8>, pos: int)
    requires
        0 <= pos <= s.len(),
    ensures
        type_variable_at(s, pos) matches Ok((name, _)) ==> valid_name(name, seq![';']),
{
    lemma_coverage();
    if let Ok(p1) = expect_at(s, pos, TYPE_VARIABLE_START) {
        lemma_identifier_valid(s, p1, seq![SEMICOLON], seq![';']);
    }
}

pub proof fn lemma_java_type_wf(s: Seq<u8>, pos: int)
    requires
        0 <= pos <= s.len(),
    ensures
        java_type_at(s, pos) matches Ok((t, _)) ==> wf_type(t),
    decreases s.len() - pos, 4int,
{
    if 0 <= pos < s.len() && crate::grammar::base_type_of(s[pos]) is None {
        lemma_reference_type_wf(s, pos);
    }
}

pub proof fn lemma_reference_type_wf(s: Seq<u8>, pos: int)
    requires
        0 <= pos <= s.len(),
    ensures
        reference_type_at(s, pos) matches Ok((t, _)) ==> wf_reference(t),
    decreases s.len() - pos, 3int,
{
    if 0 <= pos < s.len() {
        let b = s[pos];
        if b == CLASS_START {
            lemma_class_type_wf(s, pos);
        } else if b == TYPE_VARIABLE_START {
            lemma_type_variable_wf(s, pos);
        } else if b == ARRAY_START {
            lemma_java_type_wf(s, pos + 1);
        }
    }
}

pub proof fn lemma_class_type_wf(s: Seq<u8>, pos: int)
    requires
        0 <= pos <= s.len(),
    ensures
        class_type_at(s, pos) matches Ok((c, _)) ==> wf_class_type(c),
    decreases s.len() - pos, 2int,
{
    lemma_coverage();
    if let Ok((c, p6)) = class_type_at(s, pos) {
        let p1 = pos + 1;
        lemma_identifier_at(s, p1, class_name_delimiters());
        lemma_identifier_valid(s, p1, class_name_delimiters(), class_name_stops());
        let (first, p2) = identifier_at(s, p1, class_name_delimiters())->Ok_0;
        lemma_package_at(s, p2, seq![], first);
        lemma_package_wf(s, p2, seq![], first);
        let (names, p3) = package_at(s, p2, seq![], first)->Ok_0;
        lemma_simple_class_advances(s, p3, names.1);
        lemma_simple_class_wf(s, p3, names.1);
        let (simple, p4) = simple_class_at(s, p3, names.1)->Ok_0;
        lemma_suffixes_advance(s, p4, seq![]);
        lemma_suffixes_wf(s, p4, seq![]);
    }
}

proof fn lemma_package_wf(s: Seq<u8>, pos: int, packages: Seq<Seq<char>>, name: Seq<char>)
    requires
        0 <= pos <= s.len(),
        forall|i: int| 0 <= i < packages.len() ==> valid_name(#[trigger] packages[i], class_name_stops()),
        valid_name(name, class_name_stops()),
    ensures
        package_at(s, pos, packages, name) matches Ok((names, _)) ==> (forall|i: int|
            0 <= i < names.0.len() ==> valid_name(#[trigger] names.0[i], class_name_stops()))
            && valid_name(names.1, class_name_stops()),
    decreases s.len() - pos,
{
    lemma_coverage();
    if 0 <= pos < s.len() && s[pos] == SLASH {
        lemma_identifier_at(s, pos + 1, class_name_delimiters());
        lemma_identifier_valid(s, pos + 1, class_name_delimiters(), class_name_stops());
        if let Ok((next, p)) = identifier_at(s, pos + 1, class_name_delimiters()) {
            let more = packages.push(name);
            assert forall|i: int| 0 <= i < more.len() implies valid_name(
                #[trigger] more[i],
                class_name_stops(),
            ) by {
                if i < packages.len() {
                    assert(more[i] == packages[i]);
                }
            }
            lemma_package_wf(s, p, more, next);
        }
    }
}

pub proof fn lemma_simple_class_wf(s: Seq<u8>, pos: int, name: Seq<char>)
    requires
        0 <= pos <= s.len(),
    ensures
        simple_class_at(s, pos, name) matches Ok((c, _)) ==> c.name == name && wf_arguments(
            c.type_arguments,
        ),
    decreases s.len() - pos, 1int,
{
    if 0 <= pos < s.len() && s[pos] == OPEN_ANGLE {
        lemma_type_arguments_wf(s, pos);
    } else {
        assert(wf_arguments(Seq::<SpecTypeArgument>::empty()));
    }
}

pub proof fn lemma_suffixes_wf(s: Seq<u8>, pos: int, acc: Seq<SpecSimpleClassTypeSignature>)
    requires
        0 <= pos <= s.len(),
        wf_suffixes(acc),
    ensures
        suffixes_at(s, pos, acc) matches Ok((all, _)) ==> wf_suffixes(all),
    decreases s.len() - pos, 0int,
{
    lemma_coverage();
    if 0 <= pos < s.len() && s[pos] == DOT {
        lemma_identifier_at(s, pos + 1, inner_name_delimiters());
        lemma_identifier_valid(s, pos + 1, inner_name_delimiters(), inner_name_stops());
        if let Ok((name, p1)) = identifier_at(s, pos + 1, inner_name_delimiters()) {
            lemma_simple_class_advances(s, p1, name);
            lemma_simple_class_wf(s, p1, name);
            if let Ok((simple, p2)) = simple_class_at(s, p1, name) {
                assert(acc.push(simple).drop_last() =~= acc);
                assert(acc.push(simple).last() == simple);
                assert(simple.name == name);
                assert(valid_name(name, inner_name_stops()));
                assert(wf_simple_class(simple, inner_name_stops()));
                assert(wf_suffixes(acc.push(simple)));
                lemma_suffixes_wf(s, p2, acc.push(simple));
            }
        }
    }
}

pub proof fn lemma_type_arguments_wf(s: Seq<u8>, pos: int)
    requires
        0 <= pos <= s.len(),
    ensures
        type_arguments_at(s, pos) matches Ok((args, _)) ==> wf_arguments(args),
    decreases s.len() - pos, 0int,
{
    if let Ok(p1) = expect_at(s, pos, OPEN_ANGLE) {
        assert(wf_arguments(Seq::<SpecTypeArgument>::empty()));
        lemma_arguments_wf(s, p1, seq![]);
    }
}

pub proof fn lemma_arguments_wf(s: Seq<u8>, pos: int, acc: Seq<SpecTypeArgument>)
    requires
        0 <= pos <= s.len(),
        wf_arguments(acc),
    ensures
        arguments_at(s, pos, acc) matches Ok((all, _)) ==> wf_arguments(all),
    decreases s.len() - pos, 5int,
{
    if 0 <= pos < s.len() && s[pos] != CLOSE_ANGLE {
        lemma_type_argument_advances(s, pos);
        lemma_type_argument_wf(s, pos);
        if let Ok((arg, p)) = type_argument_at(s, pos) {
            assert(acc.push(arg).drop_last() =~= acc);
            assert(wf_arguments(acc.push(arg)));
            lemma_arguments_wf(s, p, acc.push(arg));
        }
    }
}

pub proof fn lemma_type_argument_wf(s: Seq<u8>, pos: int)
    requires
        0 <= pos <= s.len(),
    ensures
        type_argument_at(s, pos) matches Ok((a, _)) ==> wf_argument(a),
    decreases s.len() - pos, 4int,
{
    if 0 <= pos < s.len() {
        let b = s[pos];
        if b == PLUS || b == MINUS {
            lemma_reference_type_wf(s, pos + 1);
        } else if b != STAR {
            lemma_reference_type_wf(s, pos);
        }
    }
}

/// Whether a byte could start a reference type.
pub open spec fn starts_reference_byte(b: u8) -> bool {
    b == CLASS_START || b == TYPE_VARIABLE_START || b == ARRAY_START
}

proof fn lemma_interface_bounds_wf(s: Seq<u8>, pos: int, acc: Seq<SpecSignatureType>)
    requires
        0 <= pos <= s.len(),
        forall|i: int| 0 <= i < acc.len() ==> wf_reference(#[trigger] acc[i]),
    ensures
        interface_bounds_at(s, pos, acc) matches Ok((all, p)) ==> (forall|i: int|
            0 <= i < all.len() ==> wf_reference(#[trigger] all[i])) && all.len() >= acc.len() && (
        all.len() == acc.len() ==> p == pos),
    decreases s.len() - pos,
{
    if 0 <= pos < s.len() && s[pos] == COLON {
        lemma_reference_type_advances(s, pos + 1);
        lemma_reference_type_wf(s, pos + 1);
        if let Ok((t, p)) = reference_type_at(s, pos + 1) {
            let more = acc.push(t);
            assert forall|i: int| 0 <= i < more.len() implies wf_reference(#[trigger] more[i]) by {
                if i < acc.len() {
                    assert(more[i] == acc[i]);
                }
            }
            lemma_interface_bounds_wf(s, p, more);
        }
    }
}

/// A type parameter the reader read is well formed but for its first character, which
/// is the first byte read; when it has no bound at all, the next byte exists and does
/// not start a reference type.
proof fn lemma_type_parameter_wf(s: Seq<u8>, pos: int)
    requires
        0 <= pos <= s.len(),
    ensures
        type_parameter_at(s, pos) matches Ok((p, end)) ==> {
            &&& valid_name(p.name, seq![':'])
            &&& p.class_bound matches Some(t) ==> wf_reference(t)
            &&& forall|i: int|
                0 <= i < p.interface_bounds.len() ==> wf_reference(#[trigger] p.interface_bounds[i])
            &&& encode_utf8(p.name) == s.subrange(pos, pos + encode_utf8(p.name).len())
            &&& pos + encode_utf8(p.name).len() <= s.len()
            &&& (p.class_bound is None && p.interface_bounds.len() == 0) ==> (end < s.len()
                && !starts_reference_byte(s[end]))
        },
{
    lemma_coverage();
    lemma_type_parameter_advances(s, pos);
    lemma_identifier_at(s, pos, seq![COLON]);
    lemma_identifier_valid(s, pos, seq![COLON], seq![':']);
    if let Ok((p, p4)) = type_parameter_at(s, pos) {
        let (name, p1) = identifier_at(s, pos, seq![COLON])->Ok_0;
        let p2 = p1 + 1;
        let (bound, p3) = class_bound_at(s, p2)->Ok_0;
        if 0 <= p2 < s.len() {
            lemma_reference_type_advances(s, p2);
            lemma_reference_type_wf(s, p2);
        }
        lemma_interface_bounds_wf(s, p3, seq![]);
    }
}

proof fn lemma_parameter_list_wf(s: Seq<u8>, pos: int, acc: Seq<SpecTypeParameter>)
    requires
        0 <= pos <= s.len(),
        wf_type_parameters(acc),
        acc.len() > 0 && acc.last().class_bound is None && acc.last().interface_bounds.len() == 0
            ==> pos < s.len() && !starts_reference_byte(s[pos]),
    ensures
        parameter_list_at(s, pos, acc) matches Ok((all, _)) ==> wf_type_parameters(all),
    decreases s.len() - pos,
{
    if 0 <= pos < s.len() && s[pos] != CLOSE_ANGLE {
        lemma_type_parameter_advances(s, pos);
        lemma_type_parameter_wf(s, pos);
        if let Ok((p, end)) = type_parameter_at(s, pos) {
            let name = p.name;
            lemma_first_byte_of_encoding(name);
            assert(s[pos] == encode_utf8(name)[0]) by {
                assert(s.subrange(pos, pos + encode_utf8(name).len())[0] == s[pos]);
            }
            assert(name[0] != '>') by {
                if name[0] == '>' {
                    assert(s[pos] as int == '>' as int);
                }
            }
            if acc.len() > 0 && acc.last().class_bound is None && acc.last().interface_bounds.len()
                == 0 {
                assert(!starts_reference(name[0]));
            }
            let more = acc.push(p);
            assert(wf_type_parameters(more)) by {
                assert forall|i: int| 0 <= i < more.len() implies wf_type_parameter(#[trigger] more[i]) by {
                    if i < acc.len() {
                        assert(more[i] == acc[i]);
                    }
                }
                assert forall|i: int|
                    0 <= i && i + 1 < more.len() && (#[trigger] more[i]).class_bound is None
                        && more[i].interface_bounds.len() == 0 implies !starts_reference(
                    more[i + 1].name[0],
                ) by {
                    if i + 1 < acc.len() {
                        assert(more[i] == acc[i]);
                        assert(more[i + 1] == acc[i + 1]);
                    } else {
                        assert(more[i] == acc.last());
                        assert(more[i + 1] == p);
                    }
                }
            }
            lemma_parameter_list_wf(s, end, more);
        }
    }
}

proof fn lemma_type_parameters_wf(s: Seq<u8>, pos: int)
    requires
        0 <= pos <= s.len(),
    ensures
        type_parameters_at(s, pos) matches Ok((ps, _)) ==> wf_type_parameters(ps),
{
    assert(wf_type_parameters(Seq::<SpecTypeParameter>::empty()));
    if 0 <= pos < s.len() && s[pos] == OPEN_ANGLE {
        lemma_parameter_list_wf(s, pos + 1, seq![]);
    }
}

proof fn lemma_interfaces_wf(s: Seq<u8>, pos: int, acc: Seq<SpecClassTypeSignature>)
    requires
        0 <= pos <= s.len(),
        forall|i: int| 0 <= i < acc.len() ==> wf_class_type(#[trigger] acc[i]),
    ensures
        interfaces_at(s, pos, acc) matches Ok(all) ==> forall|i: int|
            0 <= i < all.len() ==> wf_class_type(#[trigger] all[i]),
    decreases s.len() - pos,
{
    if 0 <= pos < s.len() {
        lemma_class_type_advances(s, pos);
        lemma_class_type_wf(s, pos);
        if let Ok((c, p)) = class_type_at(s, pos) {
            let more = acc.push(c);
            assert forall|i: int| 0 <= i < more.len() implies wf_class_type(#[trigger] more[i]) by {
                if i < acc.len() {
                    assert(more[i] == acc[i]);
                }
            }
            lemma_interfaces_wf(s, p, more);
        }
    }
}

proof fn lemma_parameters_wf(s: Seq<u8>, pos: int, acc: Seq<SpecSignatureType>)
    requires
        0 <= pos <= s.len(),
        forall|i: int| 0 <= i < acc.len() ==> wf_type(#[trigger] acc[i]),
    ensures
        parameters_at(s, pos, acc) matches Ok((all, p)) ==> pos <= p <= s.len() && forall|i: int|
            0 <= i < all.len() ==> wf_type(#[trigger] all[i]),
    decreases s.len() - pos,
{
    if 0 <= pos < s.len() && s[pos] != CLOSE_PAREN {
        lemma_java_type_advances(s, pos);
        lemma_java_type_wf(s, pos);
        if let Ok((t, p)) = java_type_at(s, pos) {
            let more = acc.push(t);
            assert forall|i: int| 0 <= i < more.len() implies wf_type(#[trigger] more[i]) by {
                if i < acc.len() {
                    assert(more[i] == acc[i]);
                }
            }
            lemma_parameters_wf(s, p, more);
        }
    }
}

proof fn lemma_throws_wf(s: Seq<u8>, pos: int, acc: Seq<SpecThrowsSignature>)
    requires
        0 <= pos <= s.len(),
        forall|i: int| 0 <= i < acc.len() ==> wf_throws(#[trigger] acc[i]),
    ensures
        throws_at(s, pos, acc) matches Ok(all) ==> forall|i: int|
            0 <= i < all.len() ==> wf_throws(#[trigger] all[i]),
    decreases s.len() - pos,
{
    if 0 <= pos < s.len() {
        if let Ok(p1) = expect_at(s, pos, crate::grammar::CARET) {
            lemma_throw_advances(s, p1);
            lemma_class_type_wf(s, p1);
            lemma_type_variable_wf(s, p1);
            if let Ok((t, p2)) = throw_at(s, p1) {
                let more = acc.push(t);
                assert forall|i: int| 0 <= i < more.len() implies wf_throws(#[trigger] more[i]) by {
                    if i < acc.len() {
                        assert(more[i] == acc[i]);
                    }
                }
                lemma_throws_wf(s, p2, more);
            }
        }
    }
}

/// Every field signature that the reader accepts is a well-formed reference type.
pub proof fn law_field_signature_read_is_well_formed(s: Seq<u8>)
    ensures
        field_signature_of(s) matches Ok(t) ==> wf_reference(t),
{
    lemma_reference_type_wf(s, 0);
}

/// Every class signature that the reader accepts is well formed.
pub proof fn law_class_signature_read_is_well_formed(s: Seq<u8>)
    ensures
        class_signature_of(s) matches Ok(c) ==> wf_class_signature(c),
{
    lemma_type_parameters_wf(s, 0);
    if let Ok((ps, p1)) = type_parameters_at(s, 0) {
        crate::grammar::lemma_type_parameter_advances(s, 0);
        lemma_type_parameters_advance(s, 0);
        lemma_class_type_advances(s, p1);
        lemma_class_type_wf(s, p1);
        if let Ok((c, p2)) = class_type_at(s, p1) {
            lemma_interfaces_wf(s, p2, seq![]);
        }
    }
}

/// Every method signature that the reader accepts is well formed.
pub proof fn law_method_signature_read_is_well_formed(s: Seq<u8>)
    ensures
        method_signature_of(s) matches Ok(m) ==> wf_method_signature(m),
{
    lemma_type_parameters_wf(s, 0);
    lemma_type_parameters_advance(s, 0);
    if let Ok(m) = method_signature_of(s) {
        let (ps, p1) = type_parameters_at(s, 0)->Ok_0;
        let p2 = p1 + 1;
        lemma_parameters_wf(s, p2, seq![]);
        let (params, p3) = parameters_at(s, p2, seq![])->Ok_0;
        let p4 = p3 + 1;
        lemma_java_type_advances(s, p4);
        lemma_java_type_wf(s, p4);
        let (ret, p5) = return_type_at(s, p4)->Ok_0;
        lemma_throws_wf(s, p5, seq![]);
    }
}

/// Reading a field signature, writing the result and reading that text again gives
/// the same type, whatever the first text was.
pub proof fn law_field_signature_read_write_read(sig: Seq<char>)
    ensures
        field_signature_of(encode_utf8(sig)) matches Ok(t) ==> field_signature_of(
            encode_utf8(crate::render::type_text(t)),
        ) == Ok::<SpecSignatureType, crate::signature::SpecSignatureError>(t),
{
    law_field_signature_read_is_well_formed(encode_utf8(sig));
    if let Ok(t) = field_signature_of(encode_utf8(sig)) {
        law_field_signature_read_back(t);
    }
}

/// Reading a class signature, writing the result and reading that text again gives
/// the same signature, whatever the first text was.
pub proof fn law_class_signature_read_write_read(sig: Seq<char>)
    ensures
        class_signature_of(encode_utf8(sig)) matches Ok(c) ==> class_signature_of(
            encode_utf8(crate::render::class_signature_text(c)),
        ) == Ok::<SpecClassSignature, crate::signature::SpecSignatureError>(c),
{
    law_class_signature_read_is_well_formed(encode_utf8(sig));
    if let Ok(c) = class_signature_of(encode_utf8(sig)) {
        law_class_signature_read_back(c);
    }
}

/// Reading a method signature, writing the result and reading that text again gives
/// the same signature, whatever the first text was.
pub proof fn law_method_signature_read_write_read(sig: Seq<char>)
    ensures
        method_signature_of(encode_utf8(sig)) matches Ok(m) ==> method_signature_of(
            encode_utf8(crate::render::method_signature_text(m)),
        ) == Ok::<SpecMethodSignature, crate::signature::SpecSignatureError>(m),
{
    law_method_signature_read_is_well_formed(encode_utf8(sig));
    if let Ok(m) = method_signature_of(encode_utf8(sig)) {
        law_method_signature_read_back(m);
    }
}

} // verus!

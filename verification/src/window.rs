//! A reading depends only on the bytes it looks at.
//!
//! Where two byte sequences hold the same bytes over the stretch that a reading of
//! the first one looks at, a reading of the second one from the matching position
//! gives the same value, with its end moved by the same distance.  Most readings look
//! at the byte just after what they read (to see that a list has ended); for those
//! the stretch includes that byte.
use vstd::prelude::*;

use crate::grammar::{
    arguments_at, class_bound_at, class_name_delimiters, class_type_at, identifier_at,
    identifier_end, inner_name_delimiters, lemma_identifier_end, lemma_type_variable_at,
    lemma_type_arguments_advance, lemma_type_parameters_advance, interface_bounds_at, interfaces_at, java_type_at,
    base_type_of, lemma_arguments_advance, lemma_class_type_advances, lemma_identifier_at,
    lemma_interface_bounds_advance, lemma_java_type_advances, lemma_package_at,
    lemma_parameter_list_advance, lemma_parameters_advance, lemma_reference_type_advances,
    lemma_simple_class_advances, lemma_suffixes_advance, lemma_throw_advances,
    lemma_type_argument_advances, lemma_type_parameter_advances, package_at, parameter_list_at,
    parameters_at, reference_type_at, return_type_at, simple_class_at, suffixes_at, throw_at,
    throws_at, type_argument_at, type_arguments_at, type_parameter_at, type_parameters_at,
    type_variable_at, Parsed, ARRAY_START, CLASS_START, CLOSE_ANGLE, CLOSE_PAREN, COLON, DOT,
    MINUS, OPEN_ANGLE, PLUS, SEMICOLON, SLASH, STAR, TYPE_VARIABLE_START, VOID_LETTER,
};
use crate::signature::{
    SpecClassTypeSignature, SpecSignatureType, SpecSimpleClassTypeSignature, SpecThrowsSignature,
    SpecTypeArgument, SpecTypeParameter,
};

verus! {

/// The bytes of `s` from `lo` up to `hi` stand in `t` from `lo + d` up to `hi + d`.
pub open spec fn agree(s: Seq<u8>, t: Seq<u8>, d: int, lo: int, hi: int) -> bool {
    &&& 0 <= lo <= hi <= s.len()
    &&& 0 <= lo + d
    &&& hi + d <= t.len()
    &&& forall|j: int| lo <= j < hi ==> #[trigger] s[j] == t[j + d]
}

/// The same reading, with its end position moved by `d`.
pub open spec fn shifted<V>(r: Parsed<V>, d: int) -> Parsed<V> {
    match r {
        Ok((v, p)) => Ok((v, p + d)),
        Err(e) => Err(e),
    }
}

proof fn lemma_identifier_end_window(
    s: Seq<u8>,
    t: Seq<u8>,
    d: int,
    pos: int,
    delimiters: Seq<u8>,
)
    requires
        0 <= pos,
        agree(s, t, d, pos, identifier_end(s, pos, delimiters) + 1),
    ensures
        identifier_end(t, pos + d, delimiters) == identifier_end(s, pos, delimiters) + d,
    decreases s.len() - pos,
{
    lemma_identifier_end(s, pos, delimiters);
    assert(s[pos] == t[pos + d]);
    if !delimiters.contains(s[pos]) {
        lemma_identifier_end_window(s, t, d, pos + 1, delimiters);
    }
}

pub proof fn lemma_identifier_window(
    s: Seq<u8>,
    t: Seq<u8>,
    d: int,
    pos: int,
    delimiters: Seq<u8>,
)
    requires
        0 <= pos,
        identifier_at(s, pos, delimiters) matches Ok((_, e)) && agree(s, t, d, pos, e + 1),
    ensures
        identifier_at(t, pos + d, delimiters) == shifted(identifier_at(s, pos, delimiters), d),
{
    let e = identifier_end(s, pos, delimiters);
    lemma_identifier_at(s, pos, delimiters);
    lemma_identifier_end_window(s, t, d, pos, delimiters);
    assert(t.subrange(pos + d, e + d) =~= s.subrange(pos, e));
}

pub proof fn lemma_type_variable_window(s: Seq<u8>, t: Seq<u8>, d: int, pos: int)
    requires
        0 <= pos,
        type_variable_at(s, pos) matches Ok((_, q)) && agree(s, t, d, pos, q),
    ensures
        type_variable_at(t, pos + d) == shifted(type_variable_at(s, pos), d),
{
    lemma_type_variable_at(s, pos);
    assert(s[pos] == t[pos + d]);
    lemma_identifier_at(s, pos + 1, seq![SEMICOLON]);
    let (name, e) = identifier_at(s, pos + 1, seq![SEMICOLON])->Ok_0;
    assert(s[e] == t[e + d]);
    lemma_identifier_window(s, t, d, pos + 1, seq![SEMICOLON]);
}

pub proof fn lemma_java_type_window(s: Seq<u8>, t: Seq<u8>, d: int, pos: int)
    requires
        0 <= pos,
        java_type_at(s, pos) matches Ok((_, q)) && agree(s, t, d, pos, q),
    ensures
        java_type_at(t, pos + d) == shifted(java_type_at(s, pos), d),
    decreases s.len() - pos, 4int,
{
    lemma_java_type_advances(s, pos);
    assert(s[pos] == t[pos + d]);
    if base_type_of(s[pos]) is None {
        lemma_reference_type_window(s, t, d, pos);
    }
}

pub proof fn lemma_reference_type_window(s: Seq<u8>, t: Seq<u8>, d: int, pos: int)
    requires
        0 <= pos,
        reference_type_at(s, pos) matches Ok((_, q)) && agree(s, t, d, pos, q),
    ensures
        reference_type_at(t, pos + d) == shifted(reference_type_at(s, pos), d),
    decreases s.len() - pos, 3int,
{
    lemma_reference_type_advances(s, pos);
    assert(s[pos] == t[pos + d]);
    let b = s[pos];
    if b == CLASS_START {
        lemma_class_type_window(s, t, d, pos);
    } else if b == TYPE_VARIABLE_START {
        lemma_type_variable_window(s, t, d, pos);
    } else if b == ARRAY_START {
        lemma_java_type_window(s, t, d, pos + 1);
    }
}

pub proof fn lemma_class_type_window(s: Seq<u8>, t: Seq<u8>, d: int, pos: int)
    requires
        0 <= pos,
        class_type_at(s, pos) matches Ok((_, q)) && agree(s, t, d, pos, q),
    ensures
        class_type_at(t, pos + d) == shifted(class_type_at(s, pos), d),
    decreases s.len() - pos, 2int,
{
    lemma_class_type_advances(s, pos);
    assert(s[pos] == t[pos + d]);
    let p1 = pos + 1;
    lemma_identifier_at(s, p1, class_name_delimiters());
    let (first, p2) = identifier_at(s, p1, class_name_delimiters())->Ok_0;
    lemma_package_at(s, p2, seq![], first);
    let (names, p3) = package_at(s, p2, seq![], first)->Ok_0;
    lemma_simple_class_advances(s, p3, names.1);
    let (simple, p4) = simple_class_at(s, p3, names.1)->Ok_0;
    lemma_suffixes_advance(s, p4, seq![]);
    let (suffixes, p5) = suffixes_at(s, p4, seq![])->Ok_0;
    assert(s[p5] == t[p5 + d]);
    lemma_identifier_window(s, t, d, p1, class_name_delimiters());
    lemma_package_window(s, t, d, p2, seq![], first);
    lemma_simple_class_window(s, t, d, p3, names.1);
    lemma_suffixes_window(s, t, d, p4, seq![]);
}

proof fn lemma_package_window(
    s: Seq<u8>,
    t: Seq<u8>,
    d: int,
    pos: int,
    packages: Seq<Seq<char>>,
    name: Seq<char>,
)
    requires
        0 <= pos,
        package_at(s, pos, packages, name) matches Ok((_, q)) && agree(s, t, d, pos, q + 1),
    ensures
        package_at(t, pos + d, packages, name) == shifted(package_at(s, pos, packages, name), d),
    decreases s.len() - pos,
{
    lemma_package_at(s, pos, packages, name);
    assert(s[pos] == t[pos + d]);
    if s[pos] == SLASH {
        lemma_identifier_at(s, pos + 1, class_name_delimiters());
        let (next, p) = identifier_at(s, pos + 1, class_name_delimiters())->Ok_0;
        lemma_package_at(s, p, packages.push(name), next);
        lemma_identifier_window(s, t, d, pos + 1, class_name_delimiters());
        lemma_package_window(s, t, d, p, packages.push(name), next);
    }
}

pub proof fn lemma_simple_class_window(s: Seq<u8>, t: Seq<u8>, d: int, pos: int, name: Seq<char>)
    requires
        0 <= pos,
        simple_class_at(s, pos, name) matches Ok((_, q)) && agree(s, t, d, pos, q + 1),
    ensures
        simple_class_at(t, pos + d, name) == shifted(simple_class_at(s, pos, name), d),
    decreases s.len() - pos, 1int,
{
    lemma_simple_class_advances(s, pos, name);
    assert(s[pos] == t[pos + d]);
    if s[pos] == OPEN_ANGLE {
        lemma_type_arguments_window(s, t, d, pos);
    }
}

pub proof fn lemma_suffixes_window(
    s: Seq<u8>,
    t: Seq<u8>,
    d: int,
    pos: int,
    acc: Seq<SpecSimpleClassTypeSignature>,
)
    requires
        0 <= pos,
        suffixes_at(s, pos, acc) matches Ok((_, q)) && agree(s, t, d, pos, q + 1),
    ensures
        suffixes_at(t, pos + d, acc) == shifted(suffixes_at(s, pos, acc), d),
    decreases s.len() - pos, 0int,
{
    lemma_suffixes_advance(s, pos, acc);
    assert(s[pos] == t[pos + d]);
    if s[pos] == DOT {
        lemma_identifier_at(s, pos + 1, inner_name_delimiters());
        let (name, p1) = identifier_at(s, pos + 1, inner_name_delimiters())->Ok_0;
        lemma_simple_class_advances(s, p1, name);
        let (simple, p2) = simple_class_at(s, p1, name)->Ok_0;
        lemma_suffixes_advance(s, p2, acc.push(simple));
        lemma_identifier_window(s, t, d, pos + 1, inner_name_delimiters());
        lemma_simple_class_window(s, t, d, p1, name);
        lemma_suffixes_window(s, t, d, p2, acc.push(simple));
    }
}

pub proof fn lemma_type_arguments_window(s: Seq<u8>, t: Seq<u8>, d: int, pos: int)
    requires
        0 <= pos,
        type_arguments_at(s, pos) matches Ok((_, q)) && agree(s, t, d, pos, q),
    ensures
        type_arguments_at(t, pos + d) == shifted(type_arguments_at(s, pos), d),
    decreases s.len() - pos, 0int,
{
    lemma_type_arguments_advance(s, pos);
    assert(s[pos] == t[pos + d]);
    lemma_arguments_advance(s, pos + 1, seq![]);
    let (args, p2) = arguments_at(s, pos + 1, seq![])->Ok_0;
    assert(s[p2] == t[p2 + d]);
    lemma_arguments_window(s, t, d, pos + 1, seq![]);
}

pub proof fn lemma_arguments_window(
    s: Seq<u8>,
    t: Seq<u8>,
    d: int,
    pos: int,
    acc: Seq<SpecTypeArgument>,
)
    requires
        0 <= pos,
        arguments_at(s, pos, acc) matches Ok((_, q)) && agree(s, t, d, pos, q + 1),
    ensures
        arguments_at(t, pos + d, acc) == shifted(arguments_at(s, pos, acc), d),
    decreases s.len() - pos, 5int,
{
    lemma_arguments_advance(s, pos, acc);
    assert(s[pos] == t[pos + d]);
    if s[pos] != CLOSE_ANGLE {
        lemma_type_argument_advances(s, pos);
        let (arg, p) = type_argument_at(s, pos)->Ok_0;
        lemma_arguments_advance(s, p, acc.push(arg));
        lemma_type_argument_window(s, t, d, pos);
        lemma_arguments_window(s, t, d, p, acc.push(arg));
    }
}

pub proof fn lemma_type_argument_window(s: Seq<u8>, t: Seq<u8>, d: int, pos: int)
    requires
        0 <= pos,
        type_argument_at(s, pos) matches Ok((_, q)) && agree(s, t, d, pos, q),
    ensures
        type_argument_at(t, pos + d) == shifted(type_argument_at(s, pos), d),
    decreases s.len() - pos, 4int,
{
    lemma_type_argument_advances(s, pos);
    assert(s[pos] == t[pos + d]);
    let b = s[pos];
    if b == PLUS || b == MINUS {
        lemma_reference_type_window(s, t, d, pos + 1);
    } else if b != STAR {
        lemma_reference_type_window(s, t, d, pos);
    }
}

pub proof fn lemma_type_parameters_window(s: Seq<u8>, t: Seq<u8>, d: int, pos: int)
    requires
        0 <= pos,
        type_parameters_at(s, pos) matches Ok((_, q)) && agree(s, t, d, pos, q + 1),
    ensures
        type_parameters_at(t, pos + d) == shifted(type_parameters_at(s, pos), d),
{
    lemma_type_parameters_advance(s, pos);
    assert(s[pos] == t[pos + d]);
    if s[pos] == OPEN_ANGLE {
        lemma_parameter_list_advance(s, pos + 1, seq![]);
        let (params, p1) = parameter_list_at(s, pos + 1, seq![])->Ok_0;
        assert(s[p1] == t[p1 + d]);
        lemma_parameter_list_window(s, t, d, pos + 1, seq![]);
    }
}

proof fn lemma_parameter_list_window(
    s: Seq<u8>,
    t: Seq<u8>,
    d: int,
    pos: int,
    acc: Seq<SpecTypeParameter>,
)
    requires
        0 <= pos,
        parameter_list_at(s, pos, acc) matches Ok((_, q)) && agree(s, t, d, pos, q + 1),
    ensures
        parameter_list_at(t, pos + d, acc) == shifted(parameter_list_at(s, pos, acc), d),
    decreases s.len() - pos,
{
    lemma_parameter_list_advance(s, pos, acc);
    assert(s[pos] == t[pos + d]);
    if s[pos] != CLOSE_ANGLE {
        lemma_type_parameter_advances(s, pos);
        let (param, p) = type_parameter_at(s, pos)->Ok_0;
        lemma_parameter_list_advance(s, p, acc.push(param));
        lemma_type_parameter_window(s, t, d, pos);
        lemma_parameter_list_window(s, t, d, p, acc.push(param));
    }
}

proof fn lemma_type_parameter_window(s: Seq<u8>, t: Seq<u8>, d: int, pos: int)
    requires
        0 <= pos,
        type_parameter_at(s, pos) matches Ok((_, q)) && agree(s, t, d, pos, q + 1),
    ensures
        type_parameter_at(t, pos + d) == shifted(type_parameter_at(s, pos), d),
{
    lemma_type_parameter_advances(s, pos);
    lemma_identifier_at(s, pos, seq![COLON]);
    let (name, p1) = identifier_at(s, pos, seq![COLON])->Ok_0;
    let p2 = p1 + 1;
    if p2 < s.len() {
        lemma_reference_type_advances(s, p2);
    }
    let (class_bound, p3) = class_bound_at(s, p2)->Ok_0;
    lemma_interface_bounds_advance(s, p3, seq![]);
    assert(s[p1] == t[p1 + d]);
    lemma_identifier_window(s, t, d, pos, seq![COLON]);
    lemma_class_bound_window(s, t, d, p2);
    lemma_interface_bounds_window(s, t, d, p3, seq![]);
}

proof fn lemma_class_bound_window(s: Seq<u8>, t: Seq<u8>, d: int, pos: int)
    requires
        0 <= pos,
        class_bound_at(s, pos) matches Ok((_, q)) && agree(s, t, d, pos, q + 1),
    ensures
        class_bound_at(t, pos + d) == shifted(class_bound_at(s, pos), d),
{
    lemma_reference_type_advances(s, pos);
    assert(s[pos] == t[pos + d]);
    let b = s[pos];
    if b == CLASS_START || b == TYPE_VARIABLE_START || b == ARRAY_START {
        lemma_reference_type_window(s, t, d, pos);
    }
}

proof fn lemma_interface_bounds_window(
    s: Seq<u8>,
    t: Seq<u8>,
    d: int,
    pos: int,
    acc: Seq<SpecSignatureType>,
)
    requires
        0 <= pos,
        interface_bounds_at(s, pos, acc) matches Ok((_, q)) && agree(s, t, d, pos, q + 1),
    ensures
        interface_bounds_at(t, pos + d, acc) == shifted(interface_bounds_at(s, pos, acc), d),
    decreases s.len() - pos,
{
    lemma_interface_bounds_advance(s, pos, acc);
    assert(s[pos] == t[pos + d]);
    if s[pos] == COLON {
        lemma_reference_type_advances(s, pos + 1);
        let (bound, p) = reference_type_at(s, pos + 1)->Ok_0;
        lemma_interface_bounds_advance(s, p, acc.push(bound));
        lemma_reference_type_window(s, t, d, pos + 1);
        lemma_interface_bounds_window(s, t, d, p, acc.push(bound));
    }
}

pub proof fn lemma_parameters_window(
    s: Seq<u8>,
    t: Seq<u8>,
    d: int,
    pos: int,
    acc: Seq<SpecSignatureType>,
)
    requires
        0 <= pos,
        parameters_at(s, pos, acc) matches Ok((_, q)) && agree(s, t, d, pos, q + 1),
    ensures
        parameters_at(t, pos + d, acc) == shifted(parameters_at(s, pos, acc), d),
    decreases s.len() - pos,
{
    lemma_parameters_advance(s, pos, acc);
    assert(s[pos] == t[pos + d]);
    if s[pos] != CLOSE_PAREN {
        lemma_java_type_advances(s, pos);
        let (param, p) = java_type_at(s, pos)->Ok_0;
        lemma_parameters_advance(s, p, acc.push(param));
        lemma_java_type_window(s, t, d, pos);
        lemma_parameters_window(s, t, d, p, acc.push(param));
    }
}

pub proof fn lemma_return_type_window(s: Seq<u8>, t: Seq<u8>, d: int, pos: int)
    requires
        0 <= pos,
        return_type_at(s, pos) matches Ok((_, q)) && agree(s, t, d, pos, q),
    ensures
        return_type_at(t, pos + d) == shifted(return_type_at(s, pos), d),
{
    lemma_java_type_advances(s, pos);
    assert(s[pos] == t[pos + d]);
    if s[pos] != VOID_LETTER {
        lemma_java_type_window(s, t, d, pos);
    }
}

pub proof fn lemma_throw_window(s: Seq<u8>, t: Seq<u8>, d: int, pos: int)
    requires
        0 <= pos,
        throw_at(s, pos) matches Ok((_, q)) && agree(s, t, d, pos, q),
    ensures
        throw_at(t, pos + d) == shifted(throw_at(s, pos), d),
{
    lemma_throw_advances(s, pos);
    assert(s[pos] == t[pos + d]);
    if s[pos] == CLASS_START {
        lemma_class_type_window(s, t, d, pos);
    } else if s[pos] == TYPE_VARIABLE_START {
        lemma_type_variable_window(s, t, d, pos);
    }
}

/// When `t` starts with the bytes of `s`, reading the exceptions of `t` from a
/// position inside `s` reads those that `s` holds from there, then goes on from the
/// end of `s`.
pub proof fn lemma_throws_continue(s: Seq<u8>, t: Seq<u8>, pos: int, acc: Seq<SpecThrowsSignature>)
    requires
        0 <= pos <= s.len(),
        agree(s, t, 0, 0, s.len() as int),
        throws_at(s, pos, acc) is Ok,
    ensures
        throws_at(t, pos, acc) == throws_at(t, s.len() as int, throws_at(s, pos, acc)->Ok_0),
    decreases s.len() - pos,
{
    if pos < s.len() {
        assert(s[pos] == t[pos + 0]);
        lemma_throw_advances(s, pos + 1);
        let (thrown, p) = throw_at(s, pos + 1)->Ok_0;
        lemma_throw_window(s, t, 0, pos + 1);
        lemma_throws_continue(s, t, p, acc.push(thrown));
    }
}

/// When `t` starts with the bytes of `s`, reading the interfaces of `t` from a
/// position inside `s` reads those that `s` holds from there, then goes on from the
/// end of `s`.
pub proof fn lemma_interfaces_continue(
    s: Seq<u8>,
    t: Seq<u8>,
    pos: int,
    acc: Seq<SpecClassTypeSignature>,
)
    requires
        0 <= pos <= s.len(),
        agree(s, t, 0, 0, s.len() as int),
        interfaces_at(s, pos, acc) is Ok,
    ensures
        interfaces_at(t, pos, acc) == interfaces_at(t, s.len() as int, interfaces_at(s, pos, acc)->Ok_0),
    decreases s.len() - pos,
{
    if pos < s.len() {
        lemma_class_type_advances(s, pos);
        let (c, p) = class_type_at(s, pos)->Ok_0;
        lemma_class_type_window(s, t, 0, pos);
        lemma_interfaces_continue(s, t, p, acc.push(c));
    }
}

} // verus!

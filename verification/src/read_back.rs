//! Laws that writing a well-formed signature and reading the text back gives the
//! same value.
use vstd::prelude::*;
use vstd::utf8::{encode_utf8, encode_utf8_decode_utf8, encode_utf8_valid_utf8};

use crate::grammar::{
    arguments_at, base_type_of, class_name_delimiters, class_type_at, identifier_at,
    identifier_end, inner_name_delimiters, java_type_at, package_at, reference_type_at,
    simple_class_at, suffixes_at, type_argument_at, type_arguments_at, type_variable_at,
    interface_bounds_at, type_parameter_at, parameter_list_at, type_parameters_at, COLON,
    parameters_at, throw_at, throws_at, interfaces_at, field_signature_of, class_signature_of,
    method_signature_of, CLOSE_PAREN,
    ARRAY_START, CLASS_START, CLOSE_ANGLE, DOT, MINUS, OPEN_ANGLE, PLUS, SEMICOLON, SLASH, STAR,
    TYPE_VARIABLE_START,
};
use crate::render::{
    argument_text, arguments_text, class_type_text, concat_text, descriptor, package_text,
    simple_class_text, suffixes_text, type_text, type_parameter_text, type_parameters_text,
    throws_text, class_signature_text, method_signature_text,
};
use crate::signature::{
    SpecSignatureError, SpecClassTypeSignature, SpecTypeParameter, SpecThrowsSignature,
    SpecClassSignature, SpecMethodSignature, SpecSignatureType, SpecSimpleClassTypeSignature, SpecTypeArgument,
};
use crate::utf8_facts::{
    lemma_ascii_byte_of_encoding, lemma_encode_ascii_char, lemma_encode_concat,
    lemma_first_byte_of_encoding,
};
use crate::wellformed::{
    class_name_stops, inner_name_stops, valid_name, wf_argument, wf_arguments, wf_class_type,
    wf_reference, wf_simple_class, wf_suffixes, wf_type, wf_type_parameter, wf_type_parameters,
    wf_throws, wf_class_signature, wf_method_signature,
};

verus! {

/// The bytes `b` stand in `s` from position `pos` on.
pub open spec fn placed(s: Seq<u8>, pos: int, b: Seq<u8>) -> bool {
    0 <= pos && pos + b.len() <= s.len() && s.subrange(pos, pos + b.len()) == b
}

/// Whether the character's code is one of the bytes.
pub open spec fn char_among(c: char, bytes: Seq<u8>) -> bool {
    exists|j: int| 0 <= j < bytes.len() && bytes[j] as int == c as int
}

proof fn lemma_placed_concat(s: Seq<u8>, pos: int, a: Seq<u8>, b: Seq<u8>)
    requires
        placed(s, pos, a + b),
    ensures
        placed(s, pos, a),
        placed(s, pos + a.len(), b),
{
    let whole = s.subrange(pos, pos + (a + b).len());
    assert(whole == a + b);
    assert(s.subrange(pos, pos + a.len()) =~= whole.subrange(0, a.len() as int));
    assert((a + b).subrange(0, a.len() as int) =~= a);
    assert(s.subrange(pos + a.len(), pos + a.len() + b.len()) =~= whole.subrange(
        a.len() as int,
        whole.len() as int,
    ));
    assert((a + b).subrange(a.len() as int, (a + b).len() as int) =~= b);
}

/// The first byte of a text that starts with an ASCII character is that character.
proof fn lemma_placed_first(s: Seq<u8>, pos: int, text: Seq<char>)
    requires
        placed(s, pos, encode_utf8(text)),
        text.len() > 0,
        (text[0] as u32) < 128,
    ensures
        pos < s.len(),
        s[pos] as int == text[0] as int,
{
    lemma_first_byte_of_encoding(text);
    assert(s[pos] == s.subrange(pos, pos + encode_utf8(text).len())[0]);
}

/// A one-character ASCII text is that character's byte.
proof fn lemma_placed_char(s: Seq<u8>, pos: int, c: char)
    requires
        placed(s, pos, encode_utf8(seq![c])),
        (c as u32) < 128,
    ensures
        encode_utf8(seq![c]).len() == 1,
        pos < s.len(),
        s[pos] as int == c as int,
{
    lemma_encode_ascii_char(c);
    lemma_placed_first(s, pos, seq![c]);
}

proof fn lemma_identifier_end_exact(s: Seq<u8>, pos: int, end: int, delimiters: Seq<u8>)
    requires
        0 <= pos <= end <= s.len(),
        forall|j: int| pos <= j < end ==> !delimiters.contains(#[trigger] s[j]),
        end == s.len() || delimiters.contains(s[end]),
    ensures
        identifier_end(s, pos, delimiters) == end,
    decreases end - pos,
{
    if pos < end {
        lemma_identifier_end_exact(s, pos + 1, end, delimiters);
    }
}

/// A valid name is read back as itself when a delimiter or the end follows it.
proof fn lemma_read_identifier(s: Seq<u8>, pos: int, name: Seq<char>, delimiters: Seq<u8>)
    requires
        placed(s, pos, encode_utf8(name)),
        name.len() > 0,
        forall|i: int| 0 <= i < name.len() ==> !char_among(#[trigger] name[i], delimiters),
        forall|j: int| 0 <= j < delimiters.len() ==> #[trigger] delimiters[j] < 0x80,
        pos + encode_utf8(name).len() == s.len() || delimiters.contains(
            s[pos + encode_utf8(name).len()],
        ),
    ensures
        identifier_at(s, pos, delimiters) == Ok::<(Seq<char>, int), crate::signature::SpecSignatureError>(
            (name, pos + encode_utf8(name).len()),
        ),
{
    let bytes = encode_utf8(name);
    let end = pos + bytes.len();
    assert forall|j: int| pos <= j < end implies !delimiters.contains(#[trigger] s[j]) by {
        assert(s[j] == bytes[j - pos]) by {
            assert(s.subrange(pos, end)[j - pos] == s[j]);
        }
        if delimiters.contains(s[j]) {
            let k = choose|k: int| 0 <= k < delimiters.len() && delimiters[k] == s[j];
            assert(delimiters[k] < 0x80);
            lemma_ascii_byte_of_encoding(name, j - pos);
            let i = choose|i: int| 0 <= i < name.len() && #[trigger] name[i] as int == bytes[j - pos] as int;
            assert(char_among(name[i], delimiters));
        }
    }
    lemma_identifier_end_exact(s, pos, end, delimiters);
    lemma_first_byte_of_encoding(name);
    encode_utf8_valid_utf8(name);
    encode_utf8_decode_utf8(name);
    assert(s.subrange(pos, end) == bytes);
}

pub proof fn lemma_concat_front<A>(s: Seq<A>, f: spec_fn(A) -> Seq<char>)
    requires
        s.len() > 0,
    ensures
        concat_text(s, f) == f(s[0]) + concat_text(s.drop_first(), f),
    decreases s.len(),
{
    if s.len() == 1 {
        assert(s.drop_last() =~= Seq::<A>::empty());
        assert(s.drop_first() =~= Seq::<A>::empty());
        assert(concat_text(Seq::<A>::empty(), f) == Seq::<char>::empty());
        assert(f(s[0]) + Seq::<char>::empty() =~= f(s[0]));
        assert(Seq::<char>::empty() + f(s[0]) =~= f(s[0]));
    } else {
        lemma_concat_front(s.drop_last(), f);
        assert(s.drop_last().drop_first() =~= s.drop_first().drop_last());
        assert(s.drop_first().last() == s.last());
        assert(s.drop_last()[0] == s[0]);
        assert(concat_text(s.drop_first(), f) == concat_text(s.drop_first().drop_last(), f) + f(
            s.drop_first().last(),
        ));
        assert(concat_text(s, f) =~= f(s[0]) + concat_text(s.drop_first(), f));
    }
}

proof fn lemma_arguments_front(s: Seq<SpecTypeArgument>)
    requires
        s.len() > 0,
    ensures
        arguments_text(s) == argument_text(s[0]) + arguments_text(s.drop_first()),
        wf_arguments(s) == (wf_argument(s[0]) && wf_arguments(s.drop_first())),
    decreases s.len(),
{
    if s.len() == 1 {
        assert(s.drop_last() =~= Seq::<SpecTypeArgument>::empty());
        assert(s.drop_first() =~= Seq::<SpecTypeArgument>::empty());
        assert(Seq::<char>::empty() + argument_text(s[0]) =~= argument_text(s[0]));
        assert(argument_text(s[0]) + Seq::<char>::empty() =~= argument_text(s[0]));
    } else {
        lemma_arguments_front(s.drop_last());
        assert(s.drop_last().drop_first() =~= s.drop_first().drop_last());
        assert(s.drop_first().last() == s.last());
        assert(s.drop_last()[0] == s[0]);
        assert(arguments_text(s) =~= argument_text(s[0]) + arguments_text(s.drop_first()));
    }
}

proof fn lemma_suffixes_front(s: Seq<SpecSimpleClassTypeSignature>)
    requires
        s.len() > 0,
    ensures
        suffixes_text(s) == seq!['.'] + simple_class_text(s[0]) + suffixes_text(s.drop_first()),
        wf_suffixes(s) == (wf_simple_class(s[0], inner_name_stops()) && wf_suffixes(
            s.drop_first(),
        )),
    decreases s.len(),
{
    if s.len() == 1 {
        assert(s.drop_last() =~= Seq::<SpecSimpleClassTypeSignature>::empty());
        assert(s.drop_first() =~= Seq::<SpecSimpleClassTypeSignature>::empty());
        assert(Seq::<char>::empty() + seq!['.'] + simple_class_text(s[0]) =~= seq!['.']
            + simple_class_text(s[0]));
        assert(seq!['.'] + simple_class_text(s[0]) + Seq::<char>::empty() =~= seq!['.']
            + simple_class_text(s[0]));
    } else {
        lemma_suffixes_front(s.drop_last());
        assert(s.drop_last().drop_first() =~= s.drop_first().drop_last());
        assert(s.drop_first().last() == s.last());
        assert(s.drop_last()[0] == s[0]);
        assert(suffixes_text(s) =~= seq!['.'] + simple_class_text(s[0]) + suffixes_text(
            s.drop_first(),
        ));
    }
}

/// The text of a class name's type arguments: nothing, or `<` arguments `>`.
pub open spec fn arguments_part(args: Seq<SpecTypeArgument>) -> Seq<char> {
    if args.len() == 0 {
        seq![]
    } else {
        seq!['<'] + arguments_text(args) + seq!['>']
    }
}

/// Each name preceded by a `/`.
pub open spec fn slash_names(names: Seq<Seq<char>>) -> Seq<char> {
    concat_text(names, |n: Seq<char>| seq!['/'] + n)
}

/// The package prefix and the class name, seen as the first name followed by
/// `/`-prefixed names.
proof fn lemma_package_names(packages: Seq<Seq<char>>, name: Seq<char>)
    ensures
        package_text(packages) + name == packages.push(name)[0] + slash_names(
            packages.push(name).drop_first(),
        ),
    decreases packages.len(),
{
    let all = packages.push(name);
    if packages.len() == 0 {
        assert(all.drop_first() =~= Seq::<Seq<char>>::empty());
        assert(package_text(packages) == Seq::<char>::empty());
        assert(slash_names(Seq::<Seq<char>>::empty()) == Seq::<char>::empty());
        assert(Seq::<char>::empty() + name =~= name);
        assert(name + Seq::<char>::empty() =~= name);
    } else {
        lemma_concat_front(packages, |n: Seq<char>| n + seq!['/']);
        lemma_package_names(packages.drop_first(), name);
        let tail = all.drop_first();
        assert(tail =~= packages.drop_first().push(name));
        lemma_concat_front(tail, |n: Seq<char>| seq!['/'] + n);
        assert(packages.drop_first().push(name).drop_first() =~= tail.drop_first());
        let pd = packages.drop_first();
        assert(package_text(packages) == packages[0] + seq!['/'] + package_text(pd));
        assert(package_text(pd) + name == tail[0] + slash_names(tail.drop_first()));
        assert(slash_names(tail) == seq!['/'] + tail[0] + slash_names(tail.drop_first()));
        assert(all[0] == packages[0]);
        assert(package_text(packages) + name =~= packages[0] + seq!['/'] + (package_text(pd)
            + name));
        assert(all[0] + slash_names(tail) =~= packages[0] + seq!['/'] + (tail[0] + slash_names(
            tail.drop_first(),
        )));
    }
}

proof fn lemma_type_text_first(t: SpecSignatureType)
    ensures
        type_text(t).len() > 0,
        t matches SpecSignatureType::Base(b) ==> type_text(t) == seq![descriptor(b)],
        t is TypeVariable ==> type_text(t)[0] == 'T',
        t is Array ==> type_text(t)[0] == '[',
        t is Class ==> type_text(t)[0] == 'L',
{
    match t {
        SpecSignatureType::Class(c) => {
            assert(class_type_text(c)[0] == 'L');
        },
        _ => {},
    }
}

/// A valid name holds none of the characters whose codes are the delimiter bytes.
proof fn lemma_valid_name_avoids(name: Seq<char>, stops: Seq<char>, delimiters: Seq<u8>)
    requires
        valid_name(name, stops),
        forall|j: int|
            0 <= j < delimiters.len() ==> exists|k: int|
                0 <= k < stops.len() && #[trigger] stops[k] as int == #[trigger] delimiters[j] as int,
    ensures
        forall|i: int| 0 <= i < name.len() ==> !char_among(#[trigger] name[i], delimiters),
{
    assert forall|i: int| 0 <= i < name.len() implies !char_among(#[trigger] name[i], delimiters) by {
        if char_among(name[i], delimiters) {
            let j = choose|j: int| 0 <= j < delimiters.len() && delimiters[j] as int == name[i] as int;
            let k = choose|k: int|
                0 <= k < stops.len() && #[trigger] stops[k] as int == #[trigger] delimiters[j] as int;
            assert(stops[k] == name[i]);
            assert(stops.contains(name[i]));
        }
    }
}

pub proof fn lemma_split_text(s: Seq<u8>, pos: int, a: Seq<char>, b: Seq<char>)
    requires
        placed(s, pos, encode_utf8(a + b)),
    ensures
        placed(s, pos, encode_utf8(a)),
        placed(s, pos + encode_utf8(a).len(), encode_utf8(b)),
        encode_utf8(a + b).len() == encode_utf8(a).len() + encode_utf8(b).len(),
{
    lemma_encode_concat(a, b);
    lemma_placed_concat(s, pos, encode_utf8(a), encode_utf8(b));
}

proof fn lemma_stop_codes()
    ensures
        forall|j: int|
            0 <= j < class_name_delimiters().len() ==> exists|k: int|
                0 <= k < class_name_stops().len() && #[trigger] class_name_stops()[k] as int
                    == #[trigger] class_name_delimiters()[j] as int,
        forall|j: int|
            0 <= j < inner_name_delimiters().len() ==> exists|k: int|
                0 <= k < inner_name_stops().len() && #[trigger] inner_name_stops()[k] as int
                    == #[trigger] inner_name_delimiters()[j] as int,
        forall|j: int|
            0 <= j < seq![SEMICOLON].len() ==> exists|k: int|
                0 <= k < seq![';'].len() && #[trigger] seq![';'][k] as int
                    == #[trigger] seq![SEMICOLON][j] as int,
        forall|j: int| 0 <= j < class_name_delimiters().len() ==> #[trigger] class_name_delimiters()[j] < 0x80,
        forall|j: int| 0 <= j < inner_name_delimiters().len() ==> #[trigger] inner_name_delimiters()[j] < 0x80,
        forall|j: int| 0 <= j < seq![SEMICOLON].len() ==> #[trigger] seq![SEMICOLON][j] < 0x80,
{
    let c = class_name_stops();
    let d = class_name_delimiters();
    assert(c[0] as int == d[0] as int);
    assert(c[1] as int == d[1] as int);
    assert(c[2] as int == d[2] as int);
    assert(c[3] as int == d[3] as int);
    let ci = inner_name_stops();
    let di = inner_name_delimiters();
    assert(ci[0] as int == di[0] as int);
    assert(ci[1] as int == di[1] as int);
    assert(ci[2] as int == di[2] as int);
    assert(seq![';'][0] as int == seq![SEMICOLON][0] as int);
}

/// The first character of a type argument's text.
proof fn lemma_argument_text_first(a: SpecTypeArgument)
    ensures
        argument_text(a).len() > 0,
        a is Any ==> argument_text(a) == seq!['*'],
        a matches SpecTypeArgument::Extends(t) ==> argument_text(a) == seq!['+'] + type_text(t),
        a matches SpecTypeArgument::Super(t) ==> argument_text(a) == seq!['-'] + type_text(t),
        a matches SpecTypeArgument::Exact(t) ==> argument_text(a) == type_text(t),
{
    match a {
        SpecTypeArgument::Exact(t) => lemma_type_text_first(t),
        _ => {},
    }
}

pub proof fn lemma_read_java_type(s: Seq<u8>, pos: int, t: SpecSignatureType)
    requires
        wf_type(t),
        placed(s, pos, encode_utf8(type_text(t))),
    ensures
        java_type_at(s, pos) == Ok::<(SpecSignatureType, int), SpecSignatureError>(
            (t, pos + encode_utf8(type_text(t)).len()),
        ),
    decreases t, 2int,
{
    lemma_type_text_first(t);
    match t {
        SpecSignatureType::Base(b) => {
            lemma_placed_char(s, pos, descriptor(b));
            assert(base_type_of(s[pos]) == Some(b));
        },
        _ => {
            lemma_placed_first(s, pos, type_text(t));
            assert(base_type_of(s[pos]) is None);
            lemma_read_reference_type(s, pos, t);
        },
    }
}

pub proof fn lemma_read_reference_type(s: Seq<u8>, pos: int, t: SpecSignatureType)
    requires
        wf_reference(t),
        placed(s, pos, encode_utf8(type_text(t))),
    ensures
        reference_type_at(s, pos) == Ok::<(SpecSignatureType, int), SpecSignatureError>(
            (t, pos + encode_utf8(type_text(t)).len()),
        ),
    decreases t, 1int,
{
    lemma_type_text_first(t);
    lemma_placed_first(s, pos, type_text(t));
    match t {
        SpecSignatureType::TypeVariable(n) => {
            lemma_split_text(s, pos, seq!['T'] + n, seq![';']);
            lemma_split_text(s, pos, seq!['T'], n);
            lemma_placed_char(s, pos, 'T');
            let p1 = pos + 1;
            let p2 = p1 + encode_utf8(n).len();
            lemma_placed_char(s, p2, ';');
            lemma_stop_codes();
            lemma_valid_name_avoids(n, seq![';'], seq![SEMICOLON]);
            assert(seq![SEMICOLON][0] == s[p2]);
            lemma_read_identifier(s, p1, n, seq![SEMICOLON]);
            assert(type_variable_at(s, pos) == Ok::<(Seq<char>, int), SpecSignatureError>(
                (n, p2 + 1),
            ));
        },
        SpecSignatureType::Array(e) => {
            lemma_split_text(s, pos, seq!['['], type_text(*e));
            lemma_placed_char(s, pos, '[');
            lemma_read_java_type(s, pos + 1, *e);
        },
        SpecSignatureType::Class(c) => {
            lemma_read_class_type(s, pos, c);
        },
        SpecSignatureType::Base(_) => {},
    }
}

/// The text of a class type as the reader meets it: `L`, the first name, the
/// `/`-prefixed names, the type arguments, the inner classes and `;`; with the first
/// character of what follows each of these parts.
proof fn lemma_class_text_parts(c: SpecClassTypeSignature)
    ensures
        ({
            let all = c.package_specifier.push(c.simple_class.name);
            let p_text = slash_names(all.drop_first());
            let a_text = arguments_part(c.simple_class.type_arguments);
            let r4 = suffixes_text(c.suffixes) + seq![';'];
            let r3 = a_text + r4;
            let r2 = p_text + r3;
            &&& class_type_text(c) == seq!['L'] + (all[0] + r2)
            &&& r4.len() > 0 && (r4[0] == '.' || r4[0] == ';')
            &&& r3.len() > 0 && (r3[0] == '<' || r3[0] == '.' || r3[0] == ';')
            &&& (c.simple_class.type_arguments.len() == 0 ==> r3 == r4)
            &&& r2.len() > 0 && (r2[0] == '/' || r2[0] == '<' || r2[0] == '.' || r2[0] == ';')
        }),
{
    let pkgs = c.package_specifier;
    let sc = c.simple_class;
    let sfx = c.suffixes;
    let all = pkgs.push(sc.name);
    let first = all[0];
    let tail = all.drop_first();
    let p_text = slash_names(tail);
    let a_text = arguments_part(sc.type_arguments);
    let x_text = suffixes_text(sfx);
    let r4 = x_text + seq![';'];
    let r3 = a_text + r4;
    let r2 = p_text + r3;
    lemma_package_names(pkgs, sc.name);
    assert(simple_class_text(sc) == sc.name + a_text);
    assert(class_type_text(c) == seq!['L'] + package_text(pkgs) + simple_class_text(sc) + x_text
        + seq![';']);
    assert(seq!['L'] + package_text(pkgs) + (sc.name + a_text) + x_text + seq![';'] =~= seq!['L']
        + (package_text(pkgs) + sc.name) + a_text + x_text + seq![';']);
    assert(class_type_text(c) =~= seq!['L'] + (first + r2));
    if sfx.len() > 0 {
        lemma_suffixes_front(sfx);
    }
    if sc.type_arguments.len() > 0 {
        assert(r3[0] == '<');
    } else {
        assert(r3 =~= r4);
    }
    if tail.len() > 0 {
        lemma_concat_front(tail, |n: Seq<char>| seq!['/'] + n);
        assert(r2[0] == '/');
    } else {
        assert(p_text == Seq::<char>::empty());
        assert(r2 =~= r3);
    }
}

#[verifier::rlimit(60)]
pub proof fn lemma_read_class_type(s: Seq<u8>, pos: int, c: SpecClassTypeSignature)
    requires
        wf_class_type(c),
        placed(s, pos, encode_utf8(class_type_text(c))),
    ensures
        class_type_at(s, pos) == Ok::<(SpecClassTypeSignature, int), SpecSignatureError>(
            (c, pos + encode_utf8(class_type_text(c)).len()),
        ),
    decreases c, 0int,
{
    let pkgs = c.package_specifier;
    let sc = c.simple_class;
    let sfx = c.suffixes;
    let all = pkgs.push(sc.name);
    let first = all[0];
    let tail = all.drop_first();
    let p_text = slash_names(tail);
    let a_text = arguments_part(sc.type_arguments);
    let x_text = suffixes_text(sfx);
    let r4 = x_text + seq![';'];
    let r3 = a_text + r4;
    let r2 = p_text + r3;
    let r1 = first + r2;
    lemma_class_text_parts(c);
    lemma_split_text(s, pos, seq!['L'], r1);
    lemma_placed_char(s, pos, 'L');
    let p1 = pos + 1;
    lemma_split_text(s, p1, first, r2);
    let p2 = p1 + encode_utf8(first).len();
    lemma_split_text(s, p2, p_text, r3);
    let p3 = p2 + encode_utf8(p_text).len();
    lemma_split_text(s, p3, a_text, r4);
    let p4 = p3 + encode_utf8(a_text).len();
    lemma_split_text(s, p4, x_text, seq![';']);
    let p5 = p4 + encode_utf8(x_text).len();
    lemma_placed_char(s, p5, ';');
    lemma_placed_first(s, p4, r4);
    lemma_placed_first(s, p3, r3);
    lemma_placed_first(s, p2, r2);
    lemma_stop_codes();
    let d = class_name_delimiters();
    // The first name.
    assert(valid_name(first, class_name_stops())) by {
        if pkgs.len() > 0 {
            assert(first == pkgs[0]);
        }
    }
    lemma_valid_name_avoids(first, class_name_stops(), d);
    assert(d.contains(s[p2])) by {
        if r2[0] == '/' {
            assert(d[0] == s[p2]);
        } else if r2[0] == ';' {
            assert(d[1] == s[p2]);
        } else if r2[0] == '<' {
            assert(d[2] == s[p2]);
        } else {
            assert(d[3] == s[p2]);
        }
    }
    lemma_read_identifier(s, p1, first, d);
    // The package names and the class name.
    assert forall|i: int| 0 <= i < tail.len() implies valid_name(
        #[trigger] tail[i],
        class_name_stops(),
    ) by {
        if i + 1 < all.len() - 1 {
            assert(tail[i] == pkgs[i + 1]);
        } else {
            assert(tail[i] == sc.name);
        }
    }
    assert(d.contains(s[p3]) && s[p3] != SLASH) by {
        if r3[0] == ';' {
            assert(d[1] == s[p3]);
        } else if r3[0] == '<' {
            assert(d[2] == s[p3]);
        } else {
            assert(d[3] == s[p3]);
        }
    }
    lemma_read_package(s, p2, seq![], first, tail);
    assert(seq![].push(first) + tail =~= all);
    assert(all.drop_last() =~= pkgs);
    // The class name's type arguments.
    lemma_read_simple_class(s, p3, sc);
    // The inner classes.
    lemma_read_suffixes(s, p4, seq![], sfx);
    assert(seq![] + sfx =~= sfx);
}

proof fn lemma_read_package(
    s: Seq<u8>,
    pos: int,
    packages: Seq<Seq<char>>,
    name: Seq<char>,
    rest: Seq<Seq<char>>,
)
    requires
        placed(s, pos, encode_utf8(slash_names(rest))),
        forall|i: int| 0 <= i < rest.len() ==> valid_name(#[trigger] rest[i], class_name_stops()),
        pos + encode_utf8(slash_names(rest)).len() < s.len(),
        class_name_delimiters().contains(s[pos + encode_utf8(slash_names(rest)).len()]),
        s[pos + encode_utf8(slash_names(rest)).len()] != SLASH,
    ensures
        package_at(s, pos, packages, name) == Ok::<
            ((Seq<Seq<char>>, Seq<char>), int),
            SpecSignatureError,
        >(
            (
                ((packages.push(name) + rest).drop_last(), (packages.push(name) + rest).last()),
                pos + encode_utf8(slash_names(rest)).len(),
            ),
        ),
    decreases rest.len(),
{
    let f = |n: Seq<char>| seq!['/'] + n;
    if rest.len() == 0 {
        assert(slash_names(rest) == Seq::<char>::empty());
        assert(encode_utf8(Seq::<char>::empty()) =~= Seq::<u8>::empty());
        assert(packages.push(name) + rest =~= packages.push(name));
        assert(packages.push(name).drop_last() =~= packages);
    } else {
        lemma_concat_front(rest, f);
        let r0 = rest[0];
        let more = rest.drop_first();
        let after = slash_names(more);
        assert(slash_names(rest) == seq!['/'] + r0 + after);
        lemma_split_text(s, pos, seq!['/'] + r0, after);
        lemma_split_text(s, pos, seq!['/'], r0);
        lemma_placed_char(s, pos, '/');
        let p1 = pos + 1;
        let q = p1 + encode_utf8(r0).len();
        lemma_stop_codes();
        lemma_valid_name_avoids(r0, class_name_stops(), class_name_delimiters());
        if more.len() > 0 {
            lemma_concat_front(more, f);
            lemma_placed_first(s, q, after);
            assert(class_name_delimiters()[0] == s[q]);
        } else {
            assert(after == Seq::<char>::empty());
            assert(encode_utf8(Seq::<char>::empty()) =~= Seq::<u8>::empty());
        }
        assert forall|i: int| 0 <= i < more.len() implies valid_name(
            #[trigger] more[i],
            class_name_stops(),
        ) by {
            assert(more[i] == rest[i + 1]);
        }
        lemma_read_identifier(s, p1, r0, class_name_delimiters());
        lemma_read_package(s, q, packages.push(name), r0, more);
        assert(packages.push(name).push(r0) + more =~= packages.push(name) + rest);
    }
}

pub proof fn lemma_read_simple_class(s: Seq<u8>, pos: int, sc: SpecSimpleClassTypeSignature)
    requires
        wf_arguments(sc.type_arguments),
        placed(s, pos, encode_utf8(arguments_part(sc.type_arguments))),
        sc.type_arguments.len() == 0 ==> (pos >= s.len() || s[pos] != OPEN_ANGLE),
    ensures
        simple_class_at(s, pos, sc.name) == Ok::<
            (SpecSimpleClassTypeSignature, int),
            SpecSignatureError,
        >((sc, pos + encode_utf8(arguments_part(sc.type_arguments)).len())),
    decreases sc, 0int,
{
    let args = sc.type_arguments;
    if args.len() == 0 {
        assert(encode_utf8(Seq::<char>::empty()) =~= Seq::<u8>::empty());
        assert(args =~= Seq::<SpecTypeArgument>::empty());
    } else {
        let at = arguments_text(args);
        lemma_split_text(s, pos, seq!['<'] + at, seq!['>']);
        lemma_split_text(s, pos, seq!['<'], at);
        lemma_placed_char(s, pos, '<');
        let q = pos + 1 + encode_utf8(at).len();
        lemma_placed_char(s, q, '>');
        lemma_read_arguments(s, pos + 1, seq![], args);
        assert(seq![] + args =~= args);
    }
}

pub proof fn lemma_read_arguments(
    s: Seq<u8>,
    pos: int,
    acc: Seq<SpecTypeArgument>,
    rest: Seq<SpecTypeArgument>,
)
    requires
        wf_arguments(rest),
        placed(s, pos, encode_utf8(arguments_text(rest))),
        pos + encode_utf8(arguments_text(rest)).len() < s.len(),
        s[pos + encode_utf8(arguments_text(rest)).len()] == CLOSE_ANGLE,
    ensures
        arguments_at(s, pos, acc) == Ok::<(Seq<SpecTypeArgument>, int), SpecSignatureError>(
            (acc + rest, pos + encode_utf8(arguments_text(rest)).len()),
        ),
    decreases rest, 0int,
{
    if rest.len() == 0 {
        assert(encode_utf8(Seq::<char>::empty()) =~= Seq::<u8>::empty());
        assert(acc + rest =~= acc);
    } else {
        lemma_arguments_front(rest);
        let a = rest[0];
        let more = rest.drop_first();
        lemma_split_text(s, pos, argument_text(a), arguments_text(more));
        lemma_argument_text_first(a);
        lemma_read_type_argument(s, pos, a);
        lemma_placed_first_any(s, pos, argument_text(a));
        let q = pos + encode_utf8(argument_text(a)).len();
        lemma_read_arguments(s, q, acc.push(a), more);
        assert(acc.push(a) + more =~= acc + rest);
    }
}

/// A text whose first character is ASCII but not `>` does not start with the byte `>`.
proof fn lemma_placed_first_any(s: Seq<u8>, pos: int, text: Seq<char>)
    requires
        placed(s, pos, encode_utf8(text)),
        text.len() > 0,
        text[0] != '>',
    ensures
        pos < s.len(),
        s[pos] != CLOSE_ANGLE,
        encode_utf8(text).len() > 0,
{
    lemma_first_byte_of_encoding(text);
    assert(s[pos] == s.subrange(pos, pos + encode_utf8(text).len())[0]);
}

pub proof fn lemma_read_type_argument(s: Seq<u8>, pos: int, a: SpecTypeArgument)
    requires
        wf_argument(a),
        placed(s, pos, encode_utf8(argument_text(a))),
    ensures
        type_argument_at(s, pos) == Ok::<(SpecTypeArgument, int), SpecSignatureError>(
            (a, pos + encode_utf8(argument_text(a)).len()),
        ),
    decreases a, 0int,
{
    lemma_argument_text_first(a);
    match a {
        SpecTypeArgument::Any => {
            lemma_placed_char(s, pos, '*');
        },
        SpecTypeArgument::Extends(t) => {
            lemma_split_text(s, pos, seq!['+'], type_text(t));
            lemma_placed_char(s, pos, '+');
            lemma_read_reference_type(s, pos + 1, t);
        },
        SpecTypeArgument::Super(t) => {
            lemma_split_text(s, pos, seq!['-'], type_text(t));
            lemma_placed_char(s, pos, '-');
            lemma_read_reference_type(s, pos + 1, t);
        },
        SpecTypeArgument::Exact(t) => {
            lemma_type_text_first(t);
            lemma_placed_first(s, pos, type_text(t));
            lemma_read_reference_type(s, pos, t);
        },
    }
}

pub proof fn lemma_read_suffixes(
    s: Seq<u8>,
    pos: int,
    acc: Seq<SpecSimpleClassTypeSignature>,
    rest: Seq<SpecSimpleClassTypeSignature>,
)
    requires
        wf_suffixes(rest),
        placed(s, pos, encode_utf8(suffixes_text(rest))),
        pos + encode_utf8(suffixes_text(rest)).len() < s.len(),
        s[pos + encode_utf8(suffixes_text(rest)).len()] == SEMICOLON,
    ensures
        suffixes_at(s, pos, acc) == Ok::<
            (Seq<SpecSimpleClassTypeSignature>, int),
            SpecSignatureError,
        >((acc + rest, pos + encode_utf8(suffixes_text(rest)).len())),
    decreases rest, 0int,
{
    if rest.len() == 0 {
        assert(encode_utf8(Seq::<char>::empty()) =~= Seq::<u8>::empty());
        assert(acc + rest =~= acc);
    } else {
        lemma_suffixes_front(rest);
        let r0 = rest[0];
        let more = rest.drop_first();
        let a_text = arguments_part(r0.type_arguments);
        let after = suffixes_text(more);
        assert(simple_class_text(r0) == r0.name + a_text);
        let r2 = a_text + after + seq![';'];
        assert(suffixes_text(rest) =~= seq!['.'] + r0.name + a_text + after);
        lemma_split_text(s, pos, seq!['.'] + r0.name + a_text, after);
        lemma_split_text(s, pos, seq!['.'] + r0.name, a_text);
        lemma_split_text(s, pos, seq!['.'], r0.name);
        lemma_placed_char(s, pos, '.');
        let p1 = pos + 1;
        let q = p1 + encode_utf8(r0.name).len();
        let p2 = q + encode_utf8(a_text).len();
        let end = p2 + encode_utf8(after).len();
        // The character after the suffixes that follow.
        let tail_text = after + seq![';'];
        if more.len() > 0 {
            lemma_suffixes_front(more);
        }
        assert(tail_text[0] == '.' || tail_text[0] == ';');
        assert(placed(s, end, encode_utf8(seq![';']))) by {
            lemma_encode_ascii_char(';');
            assert(s.subrange(end, end + 1) =~= seq![s[end]]);
            assert(encode_utf8(seq![';']) =~= seq![s[end]]);
        }
        assert(placed(s, p2, encode_utf8(tail_text))) by {
            lemma_encode_ascii_char(';');
            lemma_encode_concat(after, seq![';']);
            assert(s.subrange(p2, end + 1) =~= s.subrange(p2, end) + s.subrange(end, end + 1));
        }
        lemma_placed_first(s, p2, tail_text);
        if r0.type_arguments.len() > 0 {
            assert(a_text[0] == '<');
            lemma_placed_first(s, q, a_text);
        } else {
            assert(a_text == Seq::<char>::empty());
            assert(encode_utf8(Seq::<char>::empty()) =~= Seq::<u8>::empty());
        }
        lemma_stop_codes();
        let d = inner_name_delimiters();
        assert(d.contains(s[q])) by {
            if r0.type_arguments.len() > 0 {
                assert(d[1] == s[q]);
            } else if tail_text[0] == ';' {
                assert(d[0] == s[q]);
            } else {
                assert(d[2] == s[q]);
            }
        }
        lemma_valid_name_avoids(r0.name, inner_name_stops(), d);
        lemma_read_identifier(s, p1, r0.name, d);
        lemma_read_simple_class(s, q, r0);
        lemma_read_suffixes(s, p2, acc.push(r0), more);
        assert(acc.push(r0) + more =~= acc + rest);
    }
}

/// The first byte of a text's encoding is its first character's code when that is
/// ASCII, and at least 0x80 otherwise.
pub proof fn lemma_placed_first_code(s: Seq<u8>, pos: int, text: Seq<char>)
    requires
        placed(s, pos, encode_utf8(text)),
        text.len() > 0,
    ensures
        pos < s.len(),
        encode_utf8(text).len() > 0,
        (s[pos] < 0x80) <==> ((text[0] as u32) < 128),
        (text[0] as u32) < 128 ==> s[pos] as int == text[0] as int,
{
    lemma_first_byte_of_encoding(text);
    assert(s[pos] == s.subrange(pos, pos + encode_utf8(text).len())[0]);
}

proof fn lemma_read_interface_bounds(
    s: Seq<u8>,
    pos: int,
    acc: Seq<SpecSignatureType>,
    rest: Seq<SpecSignatureType>,
)
    requires
        forall|i: int| 0 <= i < rest.len() ==> wf_reference(#[trigger] rest[i]),
        placed(s, pos, encode_utf8(concat_text(rest, |t: SpecSignatureType| seq![':'] + type_text(t)))),
        pos + encode_utf8(concat_text(rest, |t: SpecSignatureType| seq![':'] + type_text(t))).len()
            < s.len(),
        s[pos + encode_utf8(concat_text(rest, |t: SpecSignatureType| seq![':'] + type_text(t))).len()]
            != COLON,
    ensures
        interface_bounds_at(s, pos, acc) == Ok::<(Seq<SpecSignatureType>, int), SpecSignatureError>(
            (
                acc + rest,
                pos + encode_utf8(
                    concat_text(rest, |t: SpecSignatureType| seq![':'] + type_text(t)),
                ).len(),
            ),
        ),
    decreases rest.len(),
{
    let f = |t: SpecSignatureType| seq![':'] + type_text(t);
    if rest.len() == 0 {
        assert(concat_text(rest, f) == Seq::<char>::empty());
        assert(encode_utf8(Seq::<char>::empty()) =~= Seq::<u8>::empty());
        assert(acc + rest =~= acc);
    } else {
        lemma_concat_front(rest, f);
        let t = rest[0];
        let more = rest.drop_first();
        assert(concat_text(rest, f) == seq![':'] + type_text(t) + concat_text(more, f));
        lemma_split_text(s, pos, seq![':'] + type_text(t), concat_text(more, f));
        lemma_split_text(s, pos, seq![':'], type_text(t));
        lemma_placed_char(s, pos, ':');
        lemma_read_reference_type(s, pos + 1, t);
        assert forall|i: int| 0 <= i < more.len() implies wf_reference(#[trigger] more[i]) by {
            assert(more[i] == rest[i + 1]);
        }
        let q = pos + 1 + encode_utf8(type_text(t)).len();
        lemma_read_interface_bounds(s, q, acc.push(t), more);
        assert(acc.push(t) + more =~= acc + rest);
    }
}

#[verifier::rlimit(40)]
proof fn lemma_read_type_parameter(s: Seq<u8>, pos: int, p: SpecTypeParameter)
    requires
        wf_type_parameter(p),
        placed(s, pos, encode_utf8(type_parameter_text(p))),
        pos + encode_utf8(type_parameter_text(p)).len() < s.len(),
        s[pos + encode_utf8(type_parameter_text(p)).len()] != COLON,
        p.class_bound is None && p.interface_bounds.len() == 0 ==> {
            let b = s[pos + encode_utf8(type_parameter_text(p)).len()];
            b != CLASS_START && b != TYPE_VARIABLE_START && b != ARRAY_START
        },
    ensures
        type_parameter_at(s, pos) == Ok::<(SpecTypeParameter, int), SpecSignatureError>(
            (p, pos + encode_utf8(type_parameter_text(p)).len()),
        ),
{
    let f = |t: SpecSignatureType| seq![':'] + type_text(t);
    let bound_text = match p.class_bound {
        Some(t) => type_text(t),
        None => Seq::<char>::empty(),
    };
    let i_text = concat_text(p.interface_bounds, f);
    assert(type_parameter_text(p) == p.name + seq![':'] + bound_text + i_text);
    lemma_split_text(s, pos, p.name + seq![':'] + bound_text, i_text);
    lemma_split_text(s, pos, p.name + seq![':'], bound_text);
    lemma_split_text(s, pos, p.name, seq![':']);
    let q = pos + encode_utf8(p.name).len();
    lemma_placed_char(s, q, ':');
    let p2 = q + 1;
    let p3 = p2 + encode_utf8(bound_text).len();
    let end = p3 + encode_utf8(i_text).len();
    // The name.
    assert(forall|i: int| 0 <= i < p.name.len() ==> !char_among(#[trigger] p.name[i], seq![COLON]))
        by {
        assert forall|i: int| 0 <= i < p.name.len() implies !char_among(
            #[trigger] p.name[i],
            seq![COLON],
        ) by {
            if char_among(p.name[i], seq![COLON]) {
                assert(p.name[i] == ':');
                assert(seq![':'].contains(p.name[i]));
            }
        }
    }
    assert(seq![COLON][0] == s[q]);
    lemma_read_identifier(s, pos, p.name, seq![COLON]);
    // The class bound.
    match p.class_bound {
        Some(t) => {
            lemma_type_text_first(t);
            lemma_placed_first(s, p2, type_text(t));
            lemma_read_reference_type(s, p2, t);
        },
        None => {
            assert(encode_utf8(Seq::<char>::empty()) =~= Seq::<u8>::empty());
            if p.interface_bounds.len() > 0 {
                lemma_concat_front(p.interface_bounds, f);
                lemma_placed_first(s, p3, i_text);
            } else {
                assert(i_text == Seq::<char>::empty());
            }
        },
    }
    // The interface bounds.
    lemma_read_interface_bounds(s, p3, seq![], p.interface_bounds);
    assert(seq![] + p.interface_bounds =~= p.interface_bounds);
}

proof fn lemma_read_parameter_list(
    s: Seq<u8>,
    pos: int,
    acc: Seq<SpecTypeParameter>,
    rest: Seq<SpecTypeParameter>,
)
    requires
        wf_type_parameters(rest),
        placed(s, pos, encode_utf8(concat_text(rest, |q: SpecTypeParameter| type_parameter_text(q)))),
        pos + encode_utf8(concat_text(rest, |q: SpecTypeParameter| type_parameter_text(q))).len()
            < s.len(),
        s[pos + encode_utf8(concat_text(rest, |q: SpecTypeParameter| type_parameter_text(q))).len()]
            == CLOSE_ANGLE,
    ensures
        parameter_list_at(s, pos, acc) == Ok::<(Seq<SpecTypeParameter>, int), SpecSignatureError>(
            (
                acc + rest,
                pos + encode_utf8(
                    concat_text(rest, |q: SpecTypeParameter| type_parameter_text(q)),
                ).len(),
            ),
        ),
    decreases rest.len(),
{
    let f = |q: SpecTypeParameter| type_parameter_text(q);
    if rest.len() == 0 {
        assert(concat_text(rest, f) == Seq::<char>::empty());
        assert(encode_utf8(Seq::<char>::empty()) =~= Seq::<u8>::empty());
        assert(acc + rest =~= acc);
    } else {
        lemma_concat_front(rest, f);
        let p0 = rest[0];
        let more = rest.drop_first();
        let text0 = type_parameter_text(p0);
        lemma_split_text(s, pos, text0, concat_text(more, f));
        assert(wf_type_parameter(p0));
        assert(text0[0] == p0.name[0]);
        lemma_placed_first_code(s, pos, text0);
        let q = pos + encode_utf8(text0).len();
        // What follows the first parameter.
        if more.len() > 0 {
            lemma_concat_front(more, f);
            let p1 = more[0];
            assert(p1 == rest[1]);
            assert(wf_type_parameter(p1));
            assert(type_parameter_text(p1)[0] == p1.name[0]);
            lemma_placed_first_code(s, q, concat_text(more, f));
            assert(p1.name[0] != ':') by {
                assert(!seq![':'].contains(p1.name[0]));
                if p1.name[0] == ':' {
                    assert(seq![':'][0] == p1.name[0]);
                }
            }
            if p0.class_bound is None && p0.interface_bounds.len() == 0 {
                assert(!crate::wellformed::starts_reference(rest[0int + 1].name[0]));
            }
        } else {
            assert(concat_text(more, f) == Seq::<char>::empty());
            assert(encode_utf8(Seq::<char>::empty()) =~= Seq::<u8>::empty());
        }
        lemma_read_type_parameter(s, pos, p0);
        assert(wf_type_parameters(more)) by {
            assert forall|i: int| 0 <= i < more.len() implies wf_type_parameter(#[trigger] more[i]) by {
                assert(more[i] == rest[i + 1]);
            }
            assert forall|i: int|
                0 <= i && i + 1 < more.len() && (#[trigger] more[i]).class_bound is None
                    && more[i].interface_bounds.len() == 0 implies !crate::wellformed::starts_reference(
                more[i + 1].name[0],
            ) by {
                assert(more[i] == rest[i + 1]);
                assert(more[i + 1] == rest[(i + 1) + 1]);
            }
        }
        lemma_read_parameter_list(s, q, acc.push(p0), more);
        assert(acc.push(p0) + more =~= acc + rest);
    }
}

proof fn lemma_read_type_parameters(s: Seq<u8>, pos: int, ps: Seq<SpecTypeParameter>)
    requires
        wf_type_parameters(ps),
        placed(s, pos, encode_utf8(type_parameters_text(ps))),
        pos + encode_utf8(type_parameters_text(ps)).len() < s.len(),
        ps.len() == 0 ==> s[pos] != OPEN_ANGLE,
    ensures
        type_parameters_at(s, pos) == Ok::<(Seq<SpecTypeParameter>, int), SpecSignatureError>(
            (ps, pos + encode_utf8(type_parameters_text(ps)).len()),
        ),
{
    let f = |q: SpecTypeParameter| type_parameter_text(q);
    if ps.len() == 0 {
        assert(encode_utf8(Seq::<char>::empty()) =~= Seq::<u8>::empty());
        assert(ps =~= Seq::<SpecTypeParameter>::empty());
    } else {
        let body = concat_text(ps, f);
        lemma_split_text(s, pos, seq!['<'] + body, seq!['>']);
        lemma_split_text(s, pos, seq!['<'], body);
        lemma_placed_char(s, pos, '<');
        let q = pos + 1 + encode_utf8(body).len();
        lemma_placed_char(s, q, '>');
        lemma_read_parameter_list(s, pos + 1, seq![], ps);
        assert(seq![] + ps =~= ps);
    }
}

proof fn lemma_read_parameters(
    s: Seq<u8>,
    pos: int,
    acc: Seq<SpecSignatureType>,
    rest: Seq<SpecSignatureType>,
)
    requires
        forall|i: int| 0 <= i < rest.len() ==> wf_type(#[trigger] rest[i]),
        placed(s, pos, encode_utf8(concat_text(rest, |t: SpecSignatureType| type_text(t)))),
        pos + encode_utf8(concat_text(rest, |t: SpecSignatureType| type_text(t))).len() < s.len(),
        s[pos + encode_utf8(concat_text(rest, |t: SpecSignatureType| type_text(t))).len()]
            == CLOSE_PAREN,
    ensures
        parameters_at(s, pos, acc) == Ok::<(Seq<SpecSignatureType>, int), SpecSignatureError>(
            (
                acc + rest,
                pos + encode_utf8(concat_text(rest, |t: SpecSignatureType| type_text(t))).len(),
            ),
        ),
    decreases rest.len(),
{
    let f = |t: SpecSignatureType| type_text(t);
    if rest.len() == 0 {
        assert(concat_text(rest, f) == Seq::<char>::empty());
        assert(encode_utf8(Seq::<char>::empty()) =~= Seq::<u8>::empty());
        assert(acc + rest =~= acc);
    } else {
        lemma_concat_front(rest, f);
        let t = rest[0];
        let more = rest.drop_first();
        lemma_split_text(s, pos, type_text(t), concat_text(more, f));
        lemma_type_text_first(t);
        lemma_placed_first(s, pos, type_text(t));
        lemma_read_java_type(s, pos, t);
        assert forall|i: int| 0 <= i < more.len() implies wf_type(#[trigger] more[i]) by {
            assert(more[i] == rest[i + 1]);
        }
        let q = pos + encode_utf8(type_text(t)).len();
        lemma_read_parameters(s, q, acc.push(t), more);
        assert(acc.push(t) + more =~= acc + rest);
    }
}

proof fn lemma_read_throw(s: Seq<u8>, pos: int, t: SpecThrowsSignature)
    requires
        wf_throws(t),
        placed(s, pos, encode_utf8(throws_text(t))),
    ensures
        throw_at(s, pos) == Ok::<(SpecThrowsSignature, int), SpecSignatureError>(
            (t, pos + encode_utf8(throws_text(t)).len()),
        ),
{
    match t {
        SpecThrowsSignature::Class(c) => {
            lemma_type_text_first(SpecSignatureType::Class(c));
            lemma_placed_first(s, pos, class_type_text(c));
            lemma_read_class_type(s, pos, c);
        },
        SpecThrowsSignature::TypeVariable(n) => {
            let v = SpecSignatureType::TypeVariable(n);
            lemma_type_text_first(v);
            lemma_placed_first(s, pos, type_text(v));
            lemma_read_reference_type(s, pos, v);
        },
    }
}

proof fn lemma_read_throws(
    s: Seq<u8>,
    pos: int,
    acc: Seq<SpecThrowsSignature>,
    rest: Seq<SpecThrowsSignature>,
)
    requires
        forall|i: int| 0 <= i < rest.len() ==> wf_throws(#[trigger] rest[i]),
        placed(s, pos, encode_utf8(concat_text(rest, |t: SpecThrowsSignature| seq!['^'] + throws_text(t)))),
        pos + encode_utf8(concat_text(rest, |t: SpecThrowsSignature| seq!['^'] + throws_text(t))).len()
            == s.len(),
    ensures
        throws_at(s, pos, acc) == Ok::<Seq<SpecThrowsSignature>, SpecSignatureError>(acc + rest),
    decreases rest.len(),
{
    let f = |t: SpecThrowsSignature| seq!['^'] + throws_text(t);
    if rest.len() == 0 {
        assert(concat_text(rest, f) == Seq::<char>::empty());
        assert(encode_utf8(Seq::<char>::empty()) =~= Seq::<u8>::empty());
        assert(acc + rest =~= acc);
    } else {
        lemma_concat_front(rest, f);
        let t = rest[0];
        let more = rest.drop_first();
        lemma_split_text(s, pos, seq!['^'] + throws_text(t), concat_text(more, f));
        lemma_split_text(s, pos, seq!['^'], throws_text(t));
        lemma_placed_char(s, pos, '^');
        lemma_read_throw(s, pos + 1, t);
        assert forall|i: int| 0 <= i < more.len() implies wf_throws(#[trigger] more[i]) by {
            assert(more[i] == rest[i + 1]);
        }
        let q = pos + 1 + encode_utf8(throws_text(t)).len();
        lemma_read_throws(s, q, acc.push(t), more);
        assert(acc.push(t) + more =~= acc + rest);
    }
}

proof fn lemma_read_interfaces(
    s: Seq<u8>,
    pos: int,
    acc: Seq<SpecClassTypeSignature>,
    rest: Seq<SpecClassTypeSignature>,
)
    requires
        forall|i: int| 0 <= i < rest.len() ==> wf_class_type(#[trigger] rest[i]),
        placed(s, pos, encode_utf8(concat_text(rest, |i: SpecClassTypeSignature| class_type_text(i)))),
        pos + encode_utf8(concat_text(rest, |i: SpecClassTypeSignature| class_type_text(i))).len()
            == s.len(),
    ensures
        interfaces_at(s, pos, acc) == Ok::<Seq<SpecClassTypeSignature>, SpecSignatureError>(
            acc + rest,
        ),
    decreases rest.len(),
{
    let f = |i: SpecClassTypeSignature| class_type_text(i);
    if rest.len() == 0 {
        assert(concat_text(rest, f) == Seq::<char>::empty());
        assert(encode_utf8(Seq::<char>::empty()) =~= Seq::<u8>::empty());
        assert(acc + rest =~= acc);
    } else {
        lemma_concat_front(rest, f);
        let c = rest[0];
        let more = rest.drop_first();
        lemma_split_text(s, pos, class_type_text(c), concat_text(more, f));
        lemma_type_text_first(SpecSignatureType::Class(c));
        lemma_placed_first(s, pos, class_type_text(c));
        lemma_read_class_type(s, pos, c);
        assert forall|i: int| 0 <= i < more.len() implies wf_class_type(#[trigger] more[i]) by {
            assert(more[i] == rest[i + 1]);
        }
        let q = pos + encode_utf8(class_type_text(c)).len();
        lemma_read_interfaces(s, q, acc.push(c), more);
        assert(acc.push(c) + more =~= acc + rest);
    }
}

/// Writing a well-formed reference type and reading the text back as a field
/// signature gives the same type.
pub proof fn law_field_signature_read_back(t: SpecSignatureType)
    requires
        wf_reference(t),
    ensures
        field_signature_of(encode_utf8(type_text(t))) == Ok::<SpecSignatureType, SpecSignatureError>(t),
{
    let s = encode_utf8(type_text(t));
    assert(s.subrange(0, s.len() as int) =~= s);
    lemma_read_reference_type(s, 0, t);
}

/// Writing a well-formed class signature and reading the text back gives the same
/// signature.
pub proof fn law_class_signature_read_back(c: SpecClassSignature)
    requires
        wf_class_signature(c),
    ensures
        class_signature_of(encode_utf8(class_signature_text(c))) == Ok::<
            SpecClassSignature,
            SpecSignatureError,
        >(c),
{
    let f = |i: SpecClassTypeSignature| class_type_text(i);
    let a = type_parameters_text(c.type_parameters);
    let b = class_type_text(c.super_class);
    let d = concat_text(c.interfaces, f);
    let s = encode_utf8(class_signature_text(c));
    assert(class_signature_text(c) == a + b + d);
    assert(s.subrange(0, s.len() as int) =~= s);
    lemma_split_text(s, 0, a + b, d);
    lemma_split_text(s, 0, a, b);
    let p1 = encode_utf8(a).len() as int;
    lemma_type_text_first(SpecSignatureType::Class(c.super_class));
    lemma_placed_first(s, p1, b);
    if c.type_parameters.len() == 0 {
        assert(encode_utf8(Seq::<char>::empty()) =~= Seq::<u8>::empty());
    }
    lemma_read_type_parameters(s, 0, c.type_parameters);
    lemma_read_class_type(s, p1, c.super_class);
    lemma_read_interfaces(s, p1 + encode_utf8(b).len(), seq![], c.interfaces);
    assert(seq![] + c.interfaces =~= c.interfaces);
}

/// Writing a well-formed method signature and reading the text back gives the same
/// signature.
#[verifier::rlimit(40)]
pub proof fn law_method_signature_read_back(m: SpecMethodSignature)
    requires
        wf_method_signature(m),
    ensures
        method_signature_of(encode_utf8(method_signature_text(m))) == Ok::<
            SpecMethodSignature,
            SpecSignatureError,
        >(m),
{
    let pf = |t: SpecSignatureType| type_text(t);
    let tf = |t: SpecThrowsSignature| seq!['^'] + throws_text(t);
    let a = type_parameters_text(m.type_parameters);
    let b = seq!['('];
    let c = concat_text(m.parameter_types, pf);
    let d = seq![')'];
    let e = type_text(m.return_type);
    let f = concat_text(m.throws, tf);
    let s = encode_utf8(method_signature_text(m));
    assert(method_signature_text(m) == a + b + c + d + e + f);
    assert(s.subrange(0, s.len() as int) =~= s);
    lemma_split_text(s, 0, a + b + c + d + e, f);
    lemma_split_text(s, 0, a + b + c + d, e);
    lemma_split_text(s, 0, a + b + c, d);
    lemma_split_text(s, 0, a + b, c);
    lemma_split_text(s, 0, a, b);
    let p1 = encode_utf8(a).len() as int;
    lemma_placed_char(s, p1, '(');
    let p2 = p1 + 1;
    let p3 = p2 + encode_utf8(c).len();
    lemma_placed_char(s, p3, ')');
    let p4 = p3 + 1;
    let p5 = p4 + encode_utf8(e).len();
    if m.type_parameters.len() == 0 {
        assert(encode_utf8(Seq::<char>::empty()) =~= Seq::<u8>::empty());
    }
    lemma_read_type_parameters(s, 0, m.type_parameters);
    lemma_read_parameters(s, p2, seq![], m.parameter_types);
    assert(seq![] + m.parameter_types =~= m.parameter_types);
    lemma_type_text_first(m.return_type);
    lemma_placed_first(s, p4, e);
    lemma_read_java_type(s, p4, m.return_type);
    lemma_read_throws(s, p5, seq![], m.throws);
    assert(seq![] + m.throws =~= m.throws);
}

} // verus!

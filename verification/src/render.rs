//! Writing signatures back out as text.
use vstd::prelude::*;

use crate::signature::{
    class_type_model, signature_type_model, simple_class_model, simple_classes_model,
    type_argument_model, type_arguments_model, type_parameter_model, throws_model, ClassSignature,
    ClassTypeSignature, MethodSignature, SignatureError, SignatureType, SimpleClassTypeSignature, SpecSignatureError,
    SpecClassSignature, SpecClassTypeSignature, SpecMethodSignature, SpecSignatureType,
    SpecSimpleClassTypeSignature, SpecThrowsSignature, SpecTypeArgument, SpecTypeParameter,
    ThrowsSignature, TypeArgument, TypeParameter,
};
use crate::text::push_char;
use crate::types::Type;

verus! {

/// The one-letter descriptor of a primitive type.
pub open spec fn descriptor(t: Type) -> char {
    match t {
        Type::Void => 'V',
        Type::Boolean => 'Z',
        Type::Char => 'C',
        Type::Byte => 'B',
        Type::Short => 'S',
        Type::Int => 'I',
        Type::Float => 'F',
        Type::Long => 'J',
        Type::Double => 'D',
    }
}

/// The text of each item of `s`, one after the other.
pub open spec fn concat_text<A>(s: Seq<A>, text: spec_fn(A) -> Seq<char>) -> Seq<char>
    decreases s.len(),
{
    if s.len() == 0 {
        seq![]
    } else {
        concat_text(s.drop_last(), text) + text(s.last())
    }
}

pub open spec fn type_text(t: SpecSignatureType) -> Seq<char>
    decreases t,
{
    match t {
        SpecSignatureType::Base(b) => seq![descriptor(b)],
        SpecSignatureType::TypeVariable(name) => seq!['T'] + name + seq![';'],
        SpecSignatureType::Array(element) => seq!['['] + type_text(*element),
        SpecSignatureType::Class(c) => class_type_text(c),
    }
}

/// Each package name followed by a `/`.
pub open spec fn package_text(names: Seq<Seq<char>>) -> Seq<char> {
    concat_text(names, |n: Seq<char>| n + seq!['/'])
}

pub open spec fn class_type_text(c: SpecClassTypeSignature) -> Seq<char>
    decreases c,
{
    seq!['L'] + package_text(c.package_specifier) + simple_class_text(c.simple_class)
        + suffixes_text(c.suffixes) + seq![';']
}

pub open spec fn suffixes_text(s: Seq<SpecSimpleClassTypeSignature>) -> Seq<char>
    decreases s,
{
    if s.len() == 0 {
        seq![]
    } else {
        suffixes_text(s.drop_last()) + seq!['.'] + simple_class_text(s.last())
    }
}

pub open spec fn simple_class_text(c: SpecSimpleClassTypeSignature) -> Seq<char>
    decreases c,
{
    if c.type_arguments.len() == 0 {
        c.name
    } else {
        c.name + seq!['<'] + arguments_text(c.type_arguments) + seq!['>']
    }
}

pub open spec fn arguments_text(s: Seq<SpecTypeArgument>) -> Seq<char>
    decreases s,
{
    if s.len() == 0 {
        seq![]
    } else {
        arguments_text(s.drop_last()) + argument_text(s.last())
    }
}

pub open spec fn argument_text(a: SpecTypeArgument) -> Seq<char>
    decreases a,
{
    match a {
        SpecTypeArgument::Any => seq!['*'],
        SpecTypeArgument::Exact(t) => type_text(t),
        SpecTypeArgument::Extends(t) => seq!['+'] + type_text(t),
        SpecTypeArgument::Super(t) => seq!['-'] + type_text(t),
    }
}

pub open spec fn type_parameters_text(ps: Seq<SpecTypeParameter>) -> Seq<char> {
    if ps.len() == 0 {
        seq![]
    } else {
        seq!['<'] + concat_text(ps, |p: SpecTypeParameter| type_parameter_text(p)) + seq!['>']
    }
}

pub open spec fn type_parameter_text(p: SpecTypeParameter) -> Seq<char> {
    p.name + seq![':'] + match p.class_bound {
        Some(t) => type_text(t),
        None => seq![],
    } + concat_text(p.interface_bounds, |t: SpecSignatureType| seq![':'] + type_text(t))
}

pub open spec fn throws_text(t: SpecThrowsSignature) -> Seq<char> {
    match t {
        SpecThrowsSignature::Class(c) => class_type_text(c),
        SpecThrowsSignature::TypeVariable(name) => seq!['T'] + name + seq![';'],
    }
}

pub open spec fn class_signature_text(c: SpecClassSignature) -> Seq<char> {
    type_parameters_text(c.type_parameters) + class_type_text(c.super_class) + concat_text(
        c.interfaces,
        |i: SpecClassTypeSignature| class_type_text(i),
    )
}

pub open spec fn method_signature_text(m: SpecMethodSignature) -> Seq<char> {
    type_parameters_text(m.type_parameters) + seq!['('] + concat_text(
        m.parameter_types,
        |t: SpecSignatureType| type_text(t),
    ) + seq![')'] + type_text(m.return_type) + concat_text(
        m.throws,
        |t: SpecThrowsSignature| seq!['^'] + throws_text(t),
    )
}

pub proof fn lemma_concat_text_push<A>(s: Seq<A>, x: A, text: spec_fn(A) -> Seq<char>)
    ensures
        concat_text(s.push(x), text) == concat_text(s, text) + text(x),
{
    assert(s.push(x).drop_last() =~= s);
}

pub proof fn lemma_arguments_text_push(s: Seq<SpecTypeArgument>, a: SpecTypeArgument)
    ensures
        arguments_text(s.push(a)) == arguments_text(s) + argument_text(a),
{
    assert(s.push(a).drop_last() =~= s);
}

pub proof fn lemma_suffixes_text_push(s: Seq<SpecSimpleClassTypeSignature>, c: SpecSimpleClassTypeSignature)
    ensures
        suffixes_text(s.push(c)) == suffixes_text(s) + seq!['.'] + simple_class_text(c),
{
    assert(s.push(c).drop_last() =~= s);
}

/// The descriptor letter of a primitive type.
fn base_type_descriptor(ty: &Type) -> (c: char)
    ensures
        c == descriptor(*ty),
{
    match ty {
        Type::Void => 'V',
        Type::Boolean => 'Z',
        Type::Char => 'C',
        Type::Byte => 'B',
        Type::Short => 'S',
        Type::Int => 'I',
        Type::Float => 'F',
        Type::Long => 'J',
        Type::Double => 'D',
    }
}

impl SignatureType {
    fn write_to(&self, out: &mut String)
        ensures
            final(out)@ == old(out)@ + type_text(self@),
        decreases self,
    {
        match self {
            SignatureType::Base(ty) => push_char(out, base_type_descriptor(ty)),
            SignatureType::TypeVariable(name) => {
                push_char(out, 'T');
                out.append(name.as_str());
                push_char(out, ';');
            },
            SignatureType::Array(element) => {
                push_char(out, '[');
                element.write_to(out);
            },
            SignatureType::Class(class) => class.write_to(out),
        }
    }

    /// The signature text of this type.
    pub fn to_string(&self) -> (res: String)
        ensures
            res@ == type_text(self@),
    {
        let mut out = String::new();
        self.write_to(&mut out);
        out
    }
}

impl ClassTypeSignature {
    fn write_to(&self, out: &mut String)
        ensures
            final(out)@ == old(out)@ + class_type_text(self@),
        decreases self,
    {
        let ghost start = out@;
        push_char(out, 'L');
        let ghost names = self.package_specifier@.map_values(|n: String| n@);
        let mut i: usize = 0;
        while i < self.package_specifier.len()
            invariant
                i <= self.package_specifier@.len(),
                names == self.package_specifier@.map_values(|n: String| n@),
                out@ == start + seq!['L'] + package_text(names.take(i as int)),
            decreases self.package_specifier@.len() - i,
        {
            out.append(self.package_specifier[i].as_str());
            push_char(out, '/');
            proof {
                assert(names.take(i + 1) =~= names.take(i as int).push(names[i as int]));
                lemma_concat_text_push(names.take(i as int), names[i as int], |n: Seq<char>| n + seq!['/']);
            }
            i += 1;
        }
        assert(names.take(i as int) =~= names);
        self.simple_class.write_to(out);
        let ghost suffixes = self.suffixes@;
        let ghost before_suffixes = out@;
        let mut j: usize = 0;
        while j < self.suffixes.len()
            invariant
                j <= suffixes.len(),
                suffixes == self.suffixes@,
                out@ == before_suffixes + suffixes_text(simple_classes_model(suffixes.take(j as int))),
            decreases suffixes.len() - j,
        {
            push_char(out, '.');
            assert(decreases_to!(self => self.suffixes@[j as int]));
            self.suffixes[j].write_to(out);
            proof {
                assert(suffixes.take(j + 1) =~= suffixes.take(j as int).push(suffixes[j as int]));
                crate::parser::lemma_simple_classes_model_push(suffixes.take(j as int), suffixes[j as int]);
                lemma_suffixes_text_push(simple_classes_model(suffixes.take(j as int)), suffixes[j as int]@);
            }
            j += 1;
        }
        assert(suffixes.take(j as int) =~= suffixes);
        push_char(out, ';');
    }

    /// The signature text of this class type.
    pub fn to_string(&self) -> (res: String)
        ensures
            res@ == class_type_text(self@),
    {
        let mut out = String::new();
        self.write_to(&mut out);
        out
    }
}

impl SimpleClassTypeSignature {
    fn write_to(&self, out: &mut String)
        ensures
            final(out)@ == old(out)@ + simple_class_text(self@),
        decreases self,
    {
        out.append(self.name.as_str());
        if self.type_arguments.len() != 0 {
            push_char(out, '<');
            let ghost args = self.type_arguments@;
            let ghost before = out@;
            let mut i: usize = 0;
            while i < self.type_arguments.len()
                invariant
                    i <= args.len(),
                    args == self.type_arguments@,
                    out@ == before + arguments_text(type_arguments_model(args.take(i as int))),
                decreases args.len() - i,
            {
                assert(decreases_to!(self => self.type_arguments@[i as int]));
                self.type_arguments[i].write_to(out);
                proof {
                    assert(args.take(i + 1) =~= args.take(i as int).push(args[i as int]));
                    crate::parser::lemma_type_arguments_model_push(args.take(i as int), args[i as int]);
                    lemma_arguments_text_push(type_arguments_model(args.take(i as int)), args[i as int]@);
                }
                i += 1;
            }
            assert(args.take(i as int) =~= args);
            push_char(out, '>');
        } else {
            assert(type_arguments_model(self.type_arguments@).len() == 0);
        }
    }
}

impl TypeArgument {
    fn write_to(&self, out: &mut String)
        ensures
            final(out)@ == old(out)@ + argument_text(self@),
        decreases self,
    {
        match self {
            TypeArgument::Any => push_char(out, '*'),
            TypeArgument::Exact(ty) => ty.write_to(out),
            TypeArgument::Extends(ty) => {
                push_char(out, '+');
                ty.write_to(out);
            },
            TypeArgument::Super(ty) => {
                push_char(out, '-');
                ty.write_to(out);
            },
        }
    }
}

/// Writes `<` each parameter `>`, or nothing when there are none.
fn write_type_parameters(type_parameters: &Vec<TypeParameter>, out: &mut String)
    ensures
        final(out)@ == old(out)@ + type_parameters_text(
            type_parameters@.map_values(|p: TypeParameter| type_parameter_model(p)),
        ),
{
    let ghost params = type_parameters@.map_values(|p: TypeParameter| type_parameter_model(p));
    if type_parameters.len() == 0 {
        return;
    }
    let ghost start = out@;
    push_char(out, '<');
    let mut i: usize = 0;
    while i < type_parameters.len()
        invariant
            i <= type_parameters@.len(),
            params == type_parameters@.map_values(|p: TypeParameter| type_parameter_model(p)),
            out@ == start + seq!['<'] + concat_text(
                params.take(i as int),
                |p: SpecTypeParameter| type_parameter_text(p),
            ),
        decreases type_parameters@.len() - i,
    {
        let parameter = &type_parameters[i];
        let ghost before = out@;
        out.append(parameter.name.as_str());
        push_char(out, ':');
        if let Some(bound) = &parameter.class_bound {
            bound.write_to(out);
        }
        let ghost bounds = parameter.interface_bounds@.map_values(
            |t: SignatureType| signature_type_model(t),
        );
        let ghost after_class_bound = out@;
        let mut j: usize = 0;
        while j < parameter.interface_bounds.len()
            invariant
                j <= parameter.interface_bounds@.len(),
                bounds == parameter.interface_bounds@.map_values(
                    |t: SignatureType| signature_type_model(t),
                ),
                out@ == after_class_bound + concat_text(
                    bounds.take(j as int),
                    |t: SpecSignatureType| seq![':'] + type_text(t),
                ),
            decreases parameter.interface_bounds@.len() - j,
        {
            push_char(out, ':');
            parameter.interface_bounds[j].write_to(out);
            proof {
                assert(bounds.take(j + 1) =~= bounds.take(j as int).push(bounds[j as int]));
                lemma_concat_text_push(
                    bounds.take(j as int),
                    bounds[j as int],
                    |t: SpecSignatureType| seq![':'] + type_text(t),
                );
            }
            j += 1;
        }
        proof {
            assert(bounds.take(j as int) =~= bounds);
            assert(out@ == before + type_parameter_text(params[i as int]));
            assert(params.take(i + 1) =~= params.take(i as int).push(params[i as int]));
            lemma_concat_text_push(
                params.take(i as int),
                params[i as int],
                |p: SpecTypeParameter| type_parameter_text(p),
            );
        }
        i += 1;
    }
    assert(params.take(i as int) =~= params);
    push_char(out, '>');
}

impl ClassSignature {
    /// The signature text: type parameters, superclass, then each interface.
    pub fn to_string(&self) -> (res: String)
        ensures
            res@ == class_signature_text(self@),
    {
        let mut out = String::new();
        write_type_parameters(&self.type_parameters, &mut out);
        self.super_class.write_to(&mut out);
        let ghost interfaces = self.interfaces@.map_values(|i: ClassTypeSignature| class_type_model(i));
        let ghost before = out@;
        let mut i: usize = 0;
        while i < self.interfaces.len()
            invariant
                i <= self.interfaces@.len(),
                interfaces == self.interfaces@.map_values(|i: ClassTypeSignature| class_type_model(i)),
                out@ == before + concat_text(
                    interfaces.take(i as int),
                    |i: SpecClassTypeSignature| class_type_text(i),
                ),
            decreases self.interfaces@.len() - i,
        {
            self.interfaces[i].write_to(&mut out);
            proof {
                assert(interfaces.take(i + 1) =~= interfaces.take(i as int).push(interfaces[i as int]));
                lemma_concat_text_push(
                    interfaces.take(i as int),
                    interfaces[i as int],
                    |i: SpecClassTypeSignature| class_type_text(i),
                );
            }
            i += 1;
        }
        assert(interfaces.take(i as int) =~= interfaces);
        out
    }
}

impl MethodSignature {
    /// The signature text: type parameters, `(` parameters `)`, return type, then
    /// each exception after a `^`.
    pub fn to_string(&self) -> (res: String)
        ensures
            res@ == method_signature_text(self@),
    {
        let mut out = String::new();
        write_type_parameters(&self.type_parameters, &mut out);
        push_char(&mut out, '(');
        let ghost params = self.parameter_types@.map_values(|t: SignatureType| signature_type_model(t));
        let ghost before = out@;
        let mut i: usize = 0;
        while i < self.parameter_types.len()
            invariant
                i <= self.parameter_types@.len(),
                params == self.parameter_types@.map_values(|t: SignatureType| signature_type_model(t)),
                out@ == before + concat_text(params.take(i as int), |t: SpecSignatureType| type_text(t)),
            decreases self.parameter_types@.len() - i,
        {
            self.parameter_types[i].write_to(&mut out);
            proof {
                assert(params.take(i + 1) =~= params.take(i as int).push(params[i as int]));
                lemma_concat_text_push(params.take(i as int), params[i as int], |t: SpecSignatureType| type_text(t));
            }
            i += 1;
        }
        assert(params.take(i as int) =~= params);
        push_char(&mut out, ')');
        self.return_type.write_to(&mut out);
        let ghost throws = self.throws@.map_values(|t: ThrowsSignature| throws_model(t));
        let ghost before_throws = out@;
        let mut j: usize = 0;
        while j < self.throws.len()
            invariant
                j <= self.throws@.len(),
                throws == self.throws@.map_values(|t: ThrowsSignature| throws_model(t)),
                out@ == before_throws + concat_text(
                    throws.take(j as int),
                    |t: SpecThrowsSignature| seq!['^'] + throws_text(t),
                ),
            decreases self.throws@.len() - j,
        {
            push_char(&mut out, '^');
            match &self.throws[j] {
                ThrowsSignature::Class(class) => class.write_to(&mut out),
                ThrowsSignature::TypeVariable(name) => {
                    push_char(&mut out, 'T');
                    out.append(name.as_str());
                    push_char(&mut out, ';');
                },
            }
            proof {
                assert(throws.take(j + 1) =~= throws.take(j as int).push(throws[j as int]));
                lemma_concat_text_push(
                    throws.take(j as int),
                    throws[j as int],
                    |t: SpecThrowsSignature| seq!['^'] + throws_text(t),
                );
            }
            j += 1;
        }
        assert(throws.take(j as int) =~= throws);
        out
    }
}

/// The binary name of a class type: packages joined by `/`, then the class name,
/// then each inner class name after a `$`.
pub open spec fn internal_name_text(c: SpecClassTypeSignature) -> Seq<char> {
    package_text(c.package_specifier) + c.simple_class.name + concat_text(
        c.suffixes,
        |s: SpecSimpleClassTypeSignature| seq!['$'] + s.name,
    )
}

impl ClassTypeSignature {
    /// The binary name of the class, such as `java/util/Map$Entry`.
    pub fn internal_name(&self) -> (name: String)
        ensures
            name@ == internal_name_text(self@),
    {
        let mut name = String::new();
        let ghost names = self.package_specifier@.map_values(|n: String| n@);
        let mut i: usize = 0;
        while i < self.package_specifier.len()
            invariant
                i <= self.package_specifier@.len(),
                names == self.package_specifier@.map_values(|n: String| n@),
                name@ == package_text(names.take(i as int)),
            decreases self.package_specifier@.len() - i,
        {
            name.append(self.package_specifier[i].as_str());
            push_char(&mut name, '/');
            proof {
                assert(names.take(i + 1) =~= names.take(i as int).push(names[i as int]));
                lemma_concat_text_push(names.take(i as int), names[i as int], |n: Seq<char>| n + seq!['/']);
            }
            i += 1;
        }
        assert(names.take(i as int) =~= names);
        name.append(self.simple_class.name.as_str());
        let ghost before = name@;
        let mut j: usize = 0;
        while j < self.suffixes.len()
            invariant
                j <= self.suffixes@.len(),
                name@ == before + concat_text(
                    simple_classes_model(self.suffixes@.take(j as int)),
                    |s: SpecSimpleClassTypeSignature| seq!['$'] + s.name,
                ),
            decreases self.suffixes@.len() - j,
        {
            push_char(&mut name, '$');
            name.append(self.suffixes[j].name.as_str());
            proof {
                let taken = self.suffixes@.take(j as int);
                assert(self.suffixes@.take(j + 1) =~= taken.push(self.suffixes@[j as int]));
                crate::parser::lemma_simple_classes_model_push(taken, self.suffixes@[j as int]);
                lemma_concat_text_push(
                    simple_classes_model(taken),
                    self.suffixes@[j as int]@,
                    |s: SpecSimpleClassTypeSignature| seq!['$'] + s.name,
                );
            }
            j += 1;
        }
        assert(self.suffixes@.take(j as int) =~= self.suffixes@);
        name
    }
}

/// The decimal digit of `n % 10`.
pub open spec fn digit(n: nat) -> char {
    ((n % 10) + 48) as char
}

/// The decimal notation of `n`, without leading zeros.
pub open spec fn decimal(n: nat) -> Seq<char>
    decreases n,
{
    if n < 10 {
        seq![digit(n)]
    } else {
        decimal(n / 10) + seq![digit(n)]
    }
}

fn write_decimal(n: usize, out: &mut String)
    ensures
        final(out)@ == old(out)@ + decimal(n as nat),
    decreases n,
{
    if n >= 10 {
        write_decimal(n / 10, out);
    }
    let d: u8 = (n % 10) as u8;
    push_char(out, (d + 48) as char);
}

/// The message that reports an error.
pub open spec fn error_text(e: SpecSignatureError) -> Seq<char> {
    match e {
        SpecSignatureError::UnexpectedEof => "unexpected end of signature"@,
        SpecSignatureError::Invalid { offset, message } => "invalid signature at offset "@
            + decimal(offset as nat) + ": "@ + message,
    }
}

impl SignatureError {
    /// The message that reports this error.
    pub fn to_string(&self) -> (res: String)
        ensures
            res@ == error_text(self@),
    {
        match self {
            SignatureError::UnexpectedEof => String::from_str("unexpected end of signature"),
            SignatureError::Invalid { offset, message } => {
                let mut out = String::from_str("invalid signature at offset ");
                write_decimal(*offset, &mut out);
                out.append(": ");
                out.append(message.as_str());
                out
            },
        }
    }
}

} // verus!

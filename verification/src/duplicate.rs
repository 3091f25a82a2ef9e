//! Deep copies of signature values.
use vstd::prelude::*;

use crate::signature::{
    signature_type_model, simple_classes_model, type_arguments_model, ClassSignature,
    ClassTypeSignature, MethodSignature, SignatureError, SignatureType, SimpleClassTypeSignature,
    ThrowsSignature, TypeArgument, TypeParameter,
};

verus! {

fn copy_strings(v: &Vec<String>) -> (res: Vec<String>)
    ensures
        res@.map_values(|n: String| n@) == v@.map_values(|n: String| n@),
{
    let mut res: Vec<String> = Vec::new();
    let mut i: usize = 0;
    while i < v.len()
        invariant
            i <= v@.len(),
            res@.len() == i,
            forall|k: int| 0 <= k < i ==> res@[k]@ == v@[k]@,
        decreases v@.len() - i,
    {
        res.push(v[i].clone());
        i += 1;
    }
    assert(res@.map_values(|n: String| n@) =~= v@.map_values(|n: String| n@));
    res
}

fn copy_signature_type(t: &SignatureType) -> (res: SignatureType)
    ensures
        res@ == t@,
    decreases t,
{
    match t {
        SignatureType::Base(b) => SignatureType::Base(*b),
        SignatureType::TypeVariable(n) => SignatureType::TypeVariable(n.clone()),
        SignatureType::Array(e) => SignatureType::Array(Box::new(copy_signature_type(e))),
        SignatureType::Class(c) => SignatureType::Class(copy_class_type(c)),
    }
}

fn copy_class_type(c: &ClassTypeSignature) -> (res: ClassTypeSignature)
    ensures
        res@ == c@,
    decreases c,
{
    let package_specifier = copy_strings(&c.package_specifier);
    let simple_class = copy_simple_class(&c.simple_class);
    let mut suffixes: Vec<SimpleClassTypeSignature> = Vec::new();
    let mut i: usize = 0;
    while i < c.suffixes.len()
        invariant
            i <= c.suffixes@.len(),
            simple_classes_model(suffixes@) == simple_classes_model(c.suffixes@.take(i as int)),
        decreases c.suffixes@.len() - i,
    {
        assert(decreases_to!(c => c.suffixes@[i as int]));
        let suffix = copy_simple_class(&c.suffixes[i]);
        proof {
            let taken = c.suffixes@.take(i as int);
            assert(c.suffixes@.take(i + 1) =~= taken.push(c.suffixes@[i as int]));
            crate::parser::lemma_simple_classes_model_push(taken, c.suffixes@[i as int]);
            crate::parser::lemma_simple_classes_model_push(suffixes@, suffix);
        }
        suffixes.push(suffix);
        i += 1;
    }
    assert(c.suffixes@.take(i as int) =~= c.suffixes@);
    ClassTypeSignature { package_specifier, simple_class, suffixes }
}

fn copy_simple_class(s: &SimpleClassTypeSignature) -> (res: SimpleClassTypeSignature)
    ensures
        res@ == s@,
    decreases s,
{
    let mut type_arguments: Vec<TypeArgument> = Vec::new();
    let mut i: usize = 0;
    while i < s.type_arguments.len()
        invariant
            i <= s.type_arguments@.len(),
            type_arguments_model(type_arguments@) == type_arguments_model(
                s.type_arguments@.take(i as int),
            ),
        decreases s.type_arguments@.len() - i,
    {
        assert(decreases_to!(s => s.type_arguments@[i as int]));
        let argument = copy_type_argument(&s.type_arguments[i]);
        proof {
            let taken = s.type_arguments@.take(i as int);
            assert(s.type_arguments@.take(i + 1) =~= taken.push(s.type_arguments@[i as int]));
            crate::parser::lemma_type_arguments_model_push(taken, s.type_arguments@[i as int]);
            crate::parser::lemma_type_arguments_model_push(type_arguments@, argument);
        }
        type_arguments.push(argument);
        i += 1;
    }
    assert(s.type_arguments@.take(i as int) =~= s.type_arguments@);
    SimpleClassTypeSignature { name: s.name.clone(), type_arguments }
}

fn copy_type_argument(a: &TypeArgument) -> (res: TypeArgument)
    ensures
        res@ == a@,
    decreases a,
{
    match a {
        TypeArgument::Any => TypeArgument::Any,
        TypeArgument::Exact(t) => TypeArgument::Exact(copy_signature_type(t)),
        TypeArgument::Extends(t) => TypeArgument::Extends(copy_signature_type(t)),
        TypeArgument::Super(t) => TypeArgument::Super(copy_signature_type(t)),
    }
}

fn copy_signature_types(v: &Vec<SignatureType>) -> (res: Vec<SignatureType>)
    ensures
        res@.map_values(|t: SignatureType| signature_type_model(t)) == v@.map_values(
            |t: SignatureType| signature_type_model(t),
        ),
{
    let mut res: Vec<SignatureType> = Vec::new();
    let mut i: usize = 0;
    while i < v.len()
        invariant
            i <= v@.len(),
            res@.len() == i,
            forall|k: int| 0 <= k < i ==> res@[k]@ == v@[k]@,
        decreases v@.len() - i,
    {
        res.push(copy_signature_type(&v[i]));
        i += 1;
    }
    assert(res@.map_values(|t: SignatureType| signature_type_model(t)) =~= v@.map_values(
        |t: SignatureType| signature_type_model(t),
    ));
    res
}

impl Clone for SignatureType {
    fn clone(&self) -> (res: Self)
        ensures
            res@ == self@,
    {
        copy_signature_type(self)
    }
}

impl Clone for ClassTypeSignature {
    fn clone(&self) -> (res: Self)
        ensures
            res@ == self@,
    {
        copy_class_type(self)
    }
}

impl Clone for SimpleClassTypeSignature {
    fn clone(&self) -> (res: Self)
        ensures
            res@ == self@,
    {
        copy_simple_class(self)
    }
}

impl Clone for TypeArgument {
    fn clone(&self) -> (res: Self)
        ensures
            res@ == self@,
    {
        copy_type_argument(self)
    }
}

impl Clone for TypeParameter {
    fn clone(&self) -> (res: Self)
        ensures
            res@ == self@,
    {
        let class_bound = match &self.class_bound {
            Some(t) => Some(copy_signature_type(t)),
            None => None,
        };
        TypeParameter {
            name: self.name.clone(),
            class_bound,
            interface_bounds: copy_signature_types(&self.interface_bounds),
        }
    }
}

impl Clone for ThrowsSignature {
    fn clone(&self) -> (res: Self)
        ensures
            res@ == self@,
    {
        match self {
            ThrowsSignature::Class(c) => ThrowsSignature::Class(copy_class_type(c)),
            ThrowsSignature::TypeVariable(n) => ThrowsSignature::TypeVariable(n.clone()),
        }
    }
}

impl Clone for ClassSignature {
    fn clone(&self) -> (res: Self)
        ensures
            res@ == self@,
    {
        let mut type_parameters: Vec<TypeParameter> = Vec::new();
        let mut i: usize = 0;
        while i < self.type_parameters.len()
            invariant
                i <= self.type_parameters@.len(),
                type_parameters@.len() == i,
                forall|k: int| 0 <= k < i ==> type_parameters@[k]@ == self.type_parameters@[k]@,
            decreases self.type_parameters@.len() - i,
        {
            type_parameters.push(self.type_parameters[i].clone());
            i += 1;
        }
        let mut interfaces: Vec<ClassTypeSignature> = Vec::new();
        let mut j: usize = 0;
        while j < self.interfaces.len()
            invariant
                j <= self.interfaces@.len(),
                interfaces@.len() == j,
                forall|k: int| 0 <= k < j ==> interfaces@[k]@ == self.interfaces@[k]@,
            decreases self.interfaces@.len() - j,
        {
            interfaces.push(copy_class_type(&self.interfaces[j]));
            j += 1;
        }
        let res = ClassSignature {
            type_parameters,
            super_class: copy_class_type(&self.super_class),
            interfaces,
        };
        assert(res@.type_parameters =~= self@.type_parameters);
        assert(res@.interfaces =~= self@.interfaces);
        res
    }
}

impl Clone for MethodSignature {
    fn clone(&self) -> (res: Self)
        ensures
            res@ == self@,
    {
        let mut type_parameters: Vec<TypeParameter> = Vec::new();
        let mut i: usize = 0;
        while i < self.type_parameters.len()
            invariant
                i <= self.type_parameters@.len(),
                type_parameters@.len() == i,
                forall|k: int| 0 <= k < i ==> type_parameters@[k]@ == self.type_parameters@[k]@,
            decreases self.type_parameters@.len() - i,
        {
            type_parameters.push(self.type_parameters[i].clone());
            i += 1;
        }
        let mut throws: Vec<ThrowsSignature> = Vec::new();
        let mut j: usize = 0;
        while j < self.throws.len()
            invariant
                j <= self.throws@.len(),
                throws@.len() == j,
                forall|k: int| 0 <= k < j ==> throws@[k]@ == self.throws@[k]@,
            decreases self.throws@.len() - j,
        {
            throws.push(self.throws[j].clone());
            j += 1;
        }
        let res = MethodSignature {
            type_parameters,
            parameter_types: copy_signature_types(&self.parameter_types),
            return_type: copy_signature_type(&self.return_type),
            throws,
        };
        assert(res@.type_parameters =~= self@.type_parameters);
        assert(res@.throws =~= self@.throws);
        res
    }
}

impl Clone for SignatureError {
    fn clone(&self) -> (res: Self)
        ensures
            res@ == self@,
    {
        match self {
            SignatureError::UnexpectedEof => SignatureError::UnexpectedEof,
            SignatureError::Invalid { offset, message } => SignatureError::Invalid {
                offset: *offset,
                message: message.clone(),
            },
        }
    }
}

} // verus!

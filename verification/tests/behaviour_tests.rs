use jvm_signature::signature::{
    parse_class_signature, parse_field_signature, parse_method_signature, SignatureError,
    SignatureType, ThrowsSignature, TypeArgument,
};
use jvm_signature::types::Type;

fn invalid(offset: usize, message: &str) -> SignatureError {
    SignatureError::Invalid { offset, message: message.to_string() }
}

#[test]
fn trailing_input_is_rejected_at_its_offset() {
    let error = parse_field_signature("Ljava/lang/Object;X").unwrap_err();
    assert_eq!(error, invalid(18, "trailing input"));
    assert_eq!(error.to_string(), "invalid signature at offset 18: trailing input");
}

#[test]
fn missing_open_paren_names_both_bytes() {
    let error = parse_method_signature("<T:Ljava/lang/Object;>X").unwrap_err();
    assert_eq!(error, invalid(22, "expected '(', found 'X'"));
}

#[test]
fn base_type_is_not_a_field_signature() {
    let error = parse_field_signature("I").unwrap_err();
    assert_eq!(error, invalid(0, "expected reference type signature, found 'I'"));
    assert_eq!(
        error.to_string(),
        "invalid signature at offset 0: expected reference type signature, found 'I'"
    );
}

#[test]
fn bad_throws_start_is_reported() {
    let error = parse_method_signature("()V^I").unwrap_err();
    assert_eq!(error, invalid(4, "invalid throws signature start 'I'"));
}

#[test]
fn empty_class_name_is_rejected() {
    let error = parse_field_signature("L;").unwrap_err();
    assert_eq!(error, invalid(1, "expected identifier"));
}

#[test]
fn truncated_signature_is_unexpected_eof() {
    let error = parse_field_signature("Ljava/lang/Object").unwrap_err();
    assert_eq!(error, SignatureError::UnexpectedEof);
    assert_eq!(error.to_string(), "unexpected end of signature");
    assert_eq!(parse_method_signature("").unwrap_err(), SignatureError::UnexpectedEof);
    assert_eq!(parse_class_signature("").unwrap_err(), SignatureError::UnexpectedEof);
}

#[test]
fn non_ascii_names_round_trip_and_offsets_count_bytes() {
    let parsed = parse_field_signature("Lpkg/Café;").unwrap();
    assert_eq!(parsed.to_string(), "Lpkg/Café;");
    let class = parsed.as_class().unwrap();
    assert_eq!(class.simple_class.name, "Café");
    assert_eq!(class.internal_name(), "pkg/Café");
    let error = parse_field_signature("Lé;X").unwrap_err();
    assert_eq!(error, invalid(4, "trailing input"));
}

#[test]
fn non_ascii_byte_is_quoted_as_latin1() {
    let error = parse_field_signature("é").unwrap_err();
    assert_eq!(error, invalid(0, "expected reference type signature, found 'Ã'"));
}

#[test]
fn empty_type_argument_list_is_dropped_when_written() {
    let parsed = parse_field_signature("LA<>;").unwrap();
    assert_eq!(parsed.to_string(), "LA;");
    let parsed = parse_class_signature("<>LA;").unwrap();
    assert!(parsed.type_parameters.is_empty());
    assert_eq!(parsed.to_string(), "LA;");
}

#[test]
fn base_and_as_class() {
    let base = SignatureType::base(Type::Int);
    assert_eq!(base, SignatureType::Base(Type::Int));
    assert!(base.as_class().is_none());
    assert_eq!(base.to_string(), "I");
    let class = parse_field_signature("Ljava/util/Map$Entry;").unwrap();
    assert_eq!(class.as_class().unwrap().internal_name(), "java/util/Map$Entry");
}

#[test]
fn every_base_type_round_trips_in_a_method() {
    let signature = "(BCDFIJSZ[V)V";
    let parsed = parse_method_signature(signature).unwrap();
    assert_eq!(parsed.parameter_types.len(), 9);
    assert_eq!(parsed.parameter_types[0], SignatureType::Base(Type::Byte));
    assert_eq!(parsed.parameter_types[7], SignatureType::Base(Type::Boolean));
    assert_eq!(
        parsed.parameter_types[8],
        SignatureType::Array(Box::new(SignatureType::Base(Type::Void)))
    );
    assert_eq!(parsed.return_type, SignatureType::Base(Type::Void));
    assert_eq!(parsed.to_string(), signature);
}

#[test]
fn wildcards_and_bounds_round_trip() {
    let signature = "<K::Ljava/lang/Comparable<-TK;>;V:Ljava/lang/Object;>Ljava/util/AbstractMap<TK;TV;>;Ljava/util/Map<TK;*>;";
    let parsed = parse_class_signature(signature).unwrap();
    assert_eq!(parsed.type_parameters.len(), 2);
    assert!(parsed.type_parameters[0].class_bound.is_none());
    assert_eq!(parsed.type_parameters[0].interface_bounds.len(), 1);
    let interface = &parsed.interfaces[0];
    assert_eq!(interface.simple_class.type_arguments[1], TypeArgument::Any);
    assert_eq!(parsed.to_string(), signature);
}

#[test]
fn internal_name_without_package() {
    let parsed = parse_field_signature("LFoo;").unwrap();
    assert_eq!(parsed.as_class().unwrap().internal_name(), "Foo");
}

#[test]
fn clone_keeps_every_part() {
    let parsed = parse_method_signature("<T:Ljava/lang/Object;>([TT;)TT;^TT;").unwrap();
    let copy = parsed.clone();
    assert_eq!(copy, parsed);
    assert_eq!(copy.to_string(), parsed.to_string());
    assert!(matches!(&copy.throws[0], ThrowsSignature::TypeVariable(name) if name == "T"));
    let class = parse_class_signature("Ljava/lang/Object;").unwrap();
    assert_eq!(class.clone(), class);
    let error = parse_field_signature("X").unwrap_err();
    assert_eq!(error.clone(), error);
}

#[test]
fn print_then_read_gives_back_the_value() {
    let parsed = parse_field_signature("[[Ljava/util/List<+[TE;>.Node<*>;").unwrap();
    let again = parse_field_signature(&parsed.to_string()).unwrap();
    assert_eq!(again, parsed);
}

#[test]
fn read_write_read_is_stable_even_with_empty_lists() {
    for text in ["LA<>;", "Lp/Outer<>.Inner<*>;", "[[TT;"] {
        let first = parse_field_signature(text).unwrap();
        let second = parse_field_signature(&first.to_string()).unwrap();
        assert_eq!(second, first);
    }
    let first = parse_class_signature("<>LA<>;LB;").unwrap();
    let second = parse_class_signature(&first.to_string()).unwrap();
    assert_eq!(second, first);
    assert_eq!(first.to_string(), "LA;LB;");
    let first = parse_method_signature("<>(LA<>;)V^TE;").unwrap();
    let second = parse_method_signature(&first.to_string()).unwrap();
    assert_eq!(second, first);
    assert_eq!(first.to_string(), "(LA;)V^TE;");
}

#[test]
fn written_method_reads_back() {
    let text = "<A::Lx/I;B:TA;>(ITB;[[J)Lx/Y<TA;>.Z;^Lx/E;";
    let parsed = parse_method_signature(text).unwrap();
    assert_eq!(parsed.to_string(), text);
    assert_eq!(parse_method_signature(&parsed.to_string()).unwrap(), parsed);
}

#[test]
fn bound_free_parameter_followed_by_reference_letter_reads_as_bound() {
    // A parameter with no bound followed by one whose name starts with `L` is not
    // well formed: its text reads back with the second name taken as the first bound.
    let parsed = parse_class_signature("<A:Lx;>LB;").unwrap();
    assert_eq!(parsed.type_parameters.len(), 1);
    assert!(parsed.type_parameters[0].class_bound.is_some());
}

#[test]
fn text_after_a_method_signature_needs_a_caret() {
    let base = "<T:Ljava/lang/Object;>(TT;)V";
    assert!(parse_method_signature(base).is_ok());
    let error = parse_method_signature(&format!("{}X", base)).unwrap_err();
    assert_eq!(error, invalid(base.len(), "expected '^', found 'X'"));
    let error = parse_method_signature("()VI").unwrap_err();
    assert_eq!(error, invalid(3, "expected '^', found 'I'"));
}

#[test]
fn caret_and_class_add_one_exception() {
    let base = parse_method_signature("(I)V^Ljava/io/IOException;").unwrap();
    let extended =
        parse_method_signature("(I)V^Ljava/io/IOException;^Ljava/lang/Exception;").unwrap();
    assert_eq!(extended.type_parameters, base.type_parameters);
    assert_eq!(extended.parameter_types, base.parameter_types);
    assert_eq!(extended.return_type, base.return_type);
    assert_eq!(extended.throws.len(), base.throws.len() + 1);
    assert_eq!(extended.throws[..base.throws.len()], base.throws[..]);
    let added = parse_field_signature("Ljava/lang/Exception;").unwrap();
    match (&extended.throws[1], added.as_class()) {
        (ThrowsSignature::Class(c), Some(expected)) => assert_eq!(c, expected),
        _ => panic!("the added exception is not the class type"),
    }
}

#[test]
fn appended_class_type_adds_one_interface() {
    let base = parse_class_signature("<T:Ljava/lang/Object;>Ljava/lang/Object;").unwrap();
    let extended =
        parse_class_signature("<T:Ljava/lang/Object;>Ljava/lang/Object;Ljava/util/List<TT;>;")
            .unwrap();
    assert_eq!(extended.type_parameters, base.type_parameters);
    assert_eq!(extended.super_class, base.super_class);
    assert!(base.interfaces.is_empty());
    assert_eq!(extended.interfaces.len(), 1);
    let added = parse_field_signature("Ljava/util/List<TT;>;").unwrap();
    assert_eq!(Some(&extended.interfaces[0]), added.as_class());
}

#[test]
fn any_text_after_a_field_signature_is_trailing() {
    let base = "Ljava/util/List<Ljava/lang/String;>;";
    for extra in ["X", ";", "Ljava/lang/Object;", "é"] {
        let error = parse_field_signature(&format!("{}{}", base, extra)).unwrap_err();
        assert_eq!(error, invalid(base.len(), "trailing input"));
    }
}

#[test]
fn internal_name_ignores_type_arguments() {
    let with_args = parse_field_signature("Lp/A<TT;>.B;").unwrap();
    let other_args = parse_field_signature("Lp/A.B<*>;").unwrap();
    let a = with_args.as_class().unwrap();
    let b = other_args.as_class().unwrap();
    assert_ne!(a, b);
    assert_eq!(a.internal_name(), "p/A$B");
    assert_eq!(a.internal_name(), b.internal_name());
}

#[test]
fn reference_type_inside_a_longer_text_is_written_as_read() {
    let method = parse_method_signature("(Ljava/util/Map<TK;TV;>;Ljava/util/List<>;)V").unwrap();
    assert_eq!(method.parameter_types[0].to_string(), "Ljava/util/Map<TK;TV;>;");
    assert_eq!(method.parameter_types[1].to_string(), "Ljava/util/List;");
    let method = parse_method_signature("<K:Ljava/lang/Object;>(Ljava/util/Map<TK;[I>;)V^TK;")
        .unwrap();
    assert_eq!(method.parameter_types[0].to_string(), "Ljava/util/Map<TK;[I>;");
}

#[test]
fn parameter_that_is_not_primitive_is_read_as_a_reference_type() {
    let error = parse_method_signature("(X)V").unwrap_err();
    assert_eq!(error, invalid(1, "expected reference type signature, found 'X'"));
    let error = parse_method_signature("(").unwrap_err();
    assert_eq!(error, SignatureError::UnexpectedEof);
    let method = parse_method_signature("([[ITT;)V").unwrap();
    assert_eq!(method.parameter_types[0].to_string(), "[[I");
    assert_eq!(method.parameter_types[1].to_string(), "TT;");
}

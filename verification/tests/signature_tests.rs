use jvm_signature::signature::{
    parse_class_signature, parse_field_signature, parse_method_signature, ClassSignature,
    ClassTypeSignature, MethodSignature, SignatureType, SimpleClassTypeSignature, ThrowsSignature,
    TypeArgument,
};

fn assert_class_roundtrip(signature: &str) -> ClassSignature {
    let parsed = parse_class_signature(signature).expect("class signature should parse");
    assert_eq!(signature, parsed.to_string());
    parsed
}

fn assert_field_roundtrip(signature: &str) -> SignatureType {
    let parsed = parse_field_signature(signature).expect("field signature should parse");
    assert_eq!(signature, parsed.to_string());
    parsed
}

fn assert_method_roundtrip(signature: &str) -> MethodSignature {
    let parsed = parse_method_signature(signature).expect("method signature should parse");
    assert_eq!(signature, parsed.to_string());
    parsed
}

#[test]
fn parses_class_signature_with_inner_type_arguments() {
    let parsed =
        assert_class_roundtrip("<P:Ljava/lang/Object;>Ljava/lang/Object;Ljava/util/List<TP;>;");
    assert_eq!(parsed.type_parameters.len(), 1);
    assert_eq!(parsed.super_class.internal_name(), "java/lang/Object");
    assert_eq!(parsed.interfaces.len(), 1);
    assert_eq!(parsed.interfaces[0].internal_name(), "java/util/List");
}

#[test]
fn parses_field_signature_with_parameterized_inner_class() {
    let parsed = assert_field_roundtrip(
        "Lpkg/TestParameterizedTypes<Ljava/lang/Number;>.Inner<Ljava/lang/String;>;",
    );
    let SignatureType::Class(class) = parsed else {
        panic!("expected class signature");
    };
    assert_eq!(class.internal_name(), "pkg/TestParameterizedTypes$Inner");
    assert_eq!(class.simple_class.name, "TestParameterizedTypes");
    assert_eq!(class.suffixes.len(), 1);
    assert_eq!(class.suffixes[0].name, "Inner");
}

#[test]
fn parses_method_signature_with_bounds_and_throws() {
    let parsed = assert_method_roundtrip(
        "<T:Ljava/lang/Object;U::Ljava/lang/Runnable;>(TT;Ljava/util/List<+Ljava/lang/Number;>;)[TU;^Ljava/io/IOException;^TT;",
    );
    assert_eq!(parsed.type_parameters.len(), 2);
    assert!(matches!(
        parsed.throws.as_slice(),
        [
            ThrowsSignature::Class(_),
            ThrowsSignature::TypeVariable(name)
        ] if name == "T"
    ));
}

#[test]
fn parses_deep_field_signature() {
    let parsed = assert_field_roundtrip("LGeneric<LOpen;LGeneric<LOpen;LGeneric<LOpen;LClose;>;LClose;>;LClose;>;");
    let SignatureType::Class(class) = parsed else {
        panic!("expected class signature");
    };
    assert_eq!(class.simple_class.name, "Generic");
}

#[test]
fn rejects_invalid_signature() {
    let error = parse_method_signature("-").expect_err("signature should be rejected");
    assert!(error.to_string().contains("invalid signature") || error.to_string().contains("unexpected end"));
}

#[test]
fn class_type_internal_name_uses_dollar_for_suffixes() {
    let class = ClassTypeSignature {
        package_specifier: vec!["pkg".to_string()],
        simple_class: SimpleClassTypeSignature {
            name: "Outer".to_string(),
            type_arguments: vec![TypeArgument::Any],
        },
        suffixes: vec![SimpleClassTypeSignature {
            name: "Inner".to_string(),
            type_arguments: Vec::new(),
        }],
    };
    assert_eq!(class.internal_name(), "pkg/Outer$Inner");
    assert_eq!(class.to_string(), "Lpkg/Outer<*>.Inner;");
}

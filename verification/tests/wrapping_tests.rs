use wasm_calling::wrapping::{
    decimal_digits, plan_magic_arg, plan_wrapper, ArgModel, ConstructKind, DataModel, DeriveError,
    FieldAccess, FieldsModel, WrapError,
};

fn b(s: &str) -> Vec<u8> {
    s.as_bytes().to_vec()
}

#[test]
fn a_wrapper_plan_names_everything() {
    let args = vec![
        ArgModel::Typed { ident: Some(b("foo")) },
        ArgModel::Typed { ident: Some(b("bar")) },
    ];
    let p = plan_wrapper(&b("test_impl"), &args).unwrap();
    assert_eq!(p.inner, b("test_impl_inner"));
    assert_eq!(p.wrapper, b("WRAPPED__test_impl"));
    assert_eq!(p.arg_count, b("WRAPMETA_SIG_ARG_COUNT__test_impl"));
    assert_eq!(p.return_count, b("WRAPMETA_SIG_RETURN_COUNT__test_impl"));
    assert_eq!(p.signature, b("WRAPMETA_SIG__test_impl"));
    assert_eq!(p.arguments, vec![b("foo"), b("bar")]);
}

#[test]
fn a_function_without_parameters_can_be_wrapped() {
    let p = plan_wrapper(&b("test"), &vec![]).unwrap();
    assert!(p.arguments.is_empty());
}

#[test]
fn self_cannot_be_wrapped() {
    let args = vec![ArgModel::Typed { ident: Some(b("a")) }, ArgModel::Receiver];
    assert_eq!(plan_wrapper(&b("f"), &args).unwrap_err(), WrapError::SelfArgument { index: 1 });
}

#[test]
fn patterns_cannot_be_wrapped() {
    let args = vec![ArgModel::Typed { ident: None }, ArgModel::Receiver];
    assert_eq!(plan_wrapper(&b("f"), &args).unwrap_err(), WrapError::BadIdentifier { index: 0 });
}

#[test]
fn named_fields_are_read_in_order() {
    let p = plan_magic_arg(&DataModel::Struct(FieldsModel::Named(vec![b("a"), b("foo")]))).unwrap();
    assert_eq!(p.temporaries, vec![b("arg0"), b("arg1")]);
    assert!(matches!(&p.fields[0], FieldAccess::Named(n) if *n == b("a")));
    assert!(matches!(&p.fields[1], FieldAccess::Named(n) if *n == b("foo")));
    assert_eq!(p.construct, ConstructKind::Named);
}

#[test]
fn unnamed_fields_are_reached_by_position() {
    let p = plan_magic_arg(&DataModel::Struct(FieldsModel::Unnamed(12))).unwrap();
    assert_eq!(p.temporaries.len(), 12);
    assert_eq!(p.temporaries[11], b("arg11"));
    assert!(matches!(p.fields[11], FieldAccess::Index(11)));
    assert_eq!(p.construct, ConstructKind::Unnamed);
}

#[test]
fn unit_structs_have_no_fields() {
    let p = plan_magic_arg(&DataModel::Struct(FieldsModel::Unit)).unwrap();
    assert!(p.temporaries.is_empty() && p.fields.is_empty());
    assert_eq!(p.construct, ConstructKind::Unit);
}

#[test]
fn only_structs_get_the_calling_convention() {
    assert_eq!(plan_magic_arg(&DataModel::Other).unwrap_err(), DeriveError::NotAStruct);
}

#[test]
fn decimal_digits_of_numbers() {
    assert_eq!(decimal_digits(0), b("0"));
    assert_eq!(decimal_digits(9), b("9"));
    assert_eq!(decimal_digits(10), b("10"));
    assert_eq!(decimal_digits(1234567890), b("1234567890"));
    assert_eq!(decimal_digits(usize::MAX), b(&usize::MAX.to_string()));
}

use wasm_calling::naming::{
    arg_count_key_bytes, bytes_start_with, exported_identifier, inner_name, metadata_name,
    return_count_key_bytes, signature_key_bytes, split_at_separator, wrapper_name,
};

fn b(s: &str) -> Vec<u8> {
    s.as_bytes().to_vec()
}

#[test]
fn names_of_a_wrapped_function() {
    assert_eq!(wrapper_name(&b("test_impl")), b("WRAPPED__test_impl"));
    assert_eq!(inner_name(&b("test_impl")), b("test_impl_inner"));
    assert_eq!(metadata_name(&signature_key_bytes(), &b("f")), b("WRAPMETA_SIG__f"));
    assert_eq!(metadata_name(&arg_count_key_bytes(), &b("f")), b("WRAPMETA_SIG_ARG_COUNT__f"));
    assert_eq!(
        metadata_name(&return_count_key_bytes(), &b("f")),
        b("WRAPMETA_SIG_RETURN_COUNT__f")
    );
}

#[test]
fn the_export_of_a_rewritten_wrapper_keeps_an_underscore() {
    let name = wrapper_name(&b("test2"));
    assert_eq!(exported_identifier(&name), Some(b("_test2")));
    assert_eq!(exported_identifier(&b("WRAPPED_")), Some(b("")));
    assert_eq!(exported_identifier(&b("WRAPPE")), None);
    assert_eq!(exported_identifier(&b("test2")), None);
}

#[test]
fn metadata_names_split_back_into_key_and_function() {
    for key in [signature_key_bytes(), arg_count_key_bytes(), return_count_key_bytes()] {
        for f in ["f", "_f", "a__b", "__", ""] {
            let name = metadata_name(&key, &b(f));
            assert_eq!(split_at_separator(&name), Some((key.clone(), b(f))));
        }
    }
}

#[test]
fn split_at_the_first_separator() {
    assert_eq!(split_at_separator(&b("a__b__c")), Some((b("a"), b("b__c"))));
    assert_eq!(split_at_separator(&b("___x")), Some((b(""), b("_x"))));
    assert_eq!(split_at_separator(&b("a_b_c")), None);
    assert_eq!(split_at_separator(&b("")), None);
    assert_eq!(split_at_separator(&b("_")), None);
}

#[test]
fn prefixes() {
    assert!(bytes_start_with(&b("wasm_calling_support_read_u8_arg"), &b("wasm_calling_support")));
    assert!(bytes_start_with(&b("abc"), &b("")));
    assert!(!bytes_start_with(&b("ab"), &b("abc")));
    assert!(!bytes_start_with(&b("xbc"), &b("abc")));
}

use wasm_calling::calling_test::{test2, test_impl, Bar, Foo, Test2};

#[test]
fn test_impl_rewrites_bar_when_c_exceeds_42() {
    let foo = Foo { a: 10, b: 20, c: 43 };
    let bar = Bar { a: 7, foo: Foo { a: 1, b: 2, c: 3 } };
    let res = test_impl(foo, bar);
    assert_eq!(res, Bar { a: 0, foo: Foo { a: 11, b: 22, c: 46 } });
}

#[test]
fn test_impl_returns_bar_when_c_is_42() {
    let foo = Foo { a: 10, b: 20, c: 42 };
    let bar = Bar { a: 7, foo: Foo { a: 1, b: 2, c: 3 } };
    assert_eq!(test_impl(foo, bar), bar);
}

#[test]
fn test_impl_keeps_bar_for_small_c_even_at_limits() {
    let foo = Foo { a: u32::MAX, b: u32::MAX, c: 0 };
    let bar = Bar::default();
    assert_eq!(test_impl(foo, bar), Bar::default());
}

#[test]
fn test2_returns_its_argument() {
    let t = Test2 { a: u64::MAX, b: 7 };
    assert_eq!(test2(t), t);
}

#[test]
fn test_does_nothing() {
    wasm_calling::calling_test::test();
}

#[test]
fn defaults_are_zero() {
    assert_eq!(Foo::default(), Foo { a: 0, b: 0, c: 0 });
    assert_eq!(Bar::default(), Bar { a: 0, foo: Foo { a: 0, b: 0, c: 0 } });
    assert_eq!(Test2::default(), Test2 { a: 0, b: 0 });
}

//! The sample functions that the calling convention is exercised with.

use vstd::prelude::*;

verus! {

/// A plain record of three integers.
#[derive(Default, Debug, Clone, Copy, PartialEq, Eq, Structural)]
pub struct Foo {
    pub a: u32,
    pub b: u32,
    pub c: u64,
}

/// A record that nests a [`Foo`].
#[derive(Default, Debug, Clone, Copy, PartialEq, Eq, Structural)]
pub struct Bar {
    pub a: u32,
    pub foo: Foo,
}

/// A record whose fields have different widths.
#[derive(Default, Debug, Clone, Copy, PartialEq, Eq, Structural)]
pub struct Test2 {
    pub a: u64,
    pub b: u16,
}

/// The value that [`test_impl`] returns for its arguments.
pub open spec fn spec_test_impl(foo: Foo, bar: Bar) -> Bar {
    if foo.c > 42 {
        Bar { a: 0, foo: Foo { a: (foo.a + 1) as u32, b: (foo.b + 2) as u32, c: (foo.c + 3) as u64 } }
    } else {
        bar
    }
}

/// An export that does nothing.
pub fn test() {
}

/// When `foo.c` exceeds 42, a fresh `Bar` whose `a` is zero and whose `foo`
/// is `foo` with 1, 2 and 3 added to its fields; otherwise `bar` unchanged.
pub fn test_impl(foo: Foo, bar: Bar) -> (res: Bar)
    requires
        foo.c > 42 ==> foo.a + 1 <= u32::MAX && foo.b + 2 <= u32::MAX && foo.c + 3 <= u64::MAX,
    ensures
        res == spec_test_impl(foo, bar),
{
    if foo.c > 42 {
        Bar { a: 0, foo: Foo { a: foo.a + 1, b: foo.b + 2, c: foo.c + 3 } }
    } else {
        bar
    }
}

/// Returns its argument.
pub fn test2(tst: Test2) -> (res: Test2)
    ensures
        res == tst,
{
    tst
}

} // verus!

//! The calling convention of wrapped exports: each argument is read, and the
//! result written, as a sequence of wasm scalars; after the rewriting, the
//! scalars read are the parameters of the exported function and the scalars
//! written are its results.

use vstd::prelude::*;
use crate::calling_test::{Bar, Foo, Test2};

verus! {

/// A wasm scalar as it crosses the boundary: an `i32` or an `i64`, by its
/// bits.
#[derive(Debug, Clone, Copy, PartialEq, Eq, Structural)]
pub enum WasmValue {
    I32(u32),
    I64(u64),
}

/// The scalars that a wrapped export reads, and how many it has read.
#[derive(Debug)]
pub struct ArgReader {
    pub values: Vec<WasmValue>,
    pub position: usize,
}

impl ArgReader {
    /// The scalars not read yet.
    pub open spec fn remaining(self) -> Seq<WasmValue> {
        if self.position <= self.values@.len() {
            self.values@.skip(self.position as int)
        } else {
            seq![]
        }
    }

    /// A reader of `values`, from the first on.
    pub fn new(values: Vec<WasmValue>) -> (res: ArgReader)
        ensures
            res.remaining() == values@,
    {
        let res = ArgReader { values, position: 0 };
        assert(res.values@.skip(0) =~= res.values@);
        res
    }

    /// Reads the next scalar.
    pub fn next(&mut self) -> (res: WasmValue)
        requires
            old(self).remaining().len() > 0,
        ensures
            res == old(self).remaining()[0],
            final(self).remaining() == old(self).remaining().skip(1),
    {
        assert(self.position < self.values@.len());
        assert(self.values@.len() == self.values.len());
        let v = self.values[self.position];
        self.position = self.position + 1;
        assert(self.remaining() =~= old(self).remaining().skip(1));
        v
    }
}

/// The scalars that a wrapped export has written.
#[derive(Debug)]
pub struct ArgWriter {
    pub values: Vec<WasmValue>,
}

impl ArgWriter {
    /// A writer that has written nothing.
    pub fn new() -> (res: ArgWriter)
        ensures
            res.values@ == Seq::<WasmValue>::empty(),
    {
        ArgWriter { values: Vec::new() }
    }

    /// Writes one scalar.
    pub fn push(&mut self, v: WasmValue)
        ensures
            final(self).values@ == old(self).values@.push(v),
    {
        self.values.push(v);
    }
}

/// A type whose values cross the boundary of a wrapped export as a fixed
/// number of scalars.
pub trait MagicArg: Sized {
    /// The number of scalars a value takes.
    spec fn arg_count() -> nat;

    /// The scalars that stand for `value`.
    spec fn encode(value: Self) -> Seq<WasmValue>;

    /// `values` stand for a value.
    spec fn decodes(values: Seq<WasmValue>) -> bool;

    /// The value that `values` stand for.
    spec fn decode(values: Seq<WasmValue>) -> Self;

    /// `value` fits the calling convention (a `usize` of the host fits in 32
    /// bits, as on wasm32).
    spec fn representable(value: Self) -> bool;

    /// A representable value takes `arg_count` scalars, which stand for it.
    proof fn lemma_encode(value: Self)
        requires
            Self::representable(value),
        ensures
            Self::encode(value).len() == Self::arg_count(),
            Self::decodes(Self::encode(value)),
            Self::decode(Self::encode(value)) == value,
    ;

    /// Scalars that stand for a value are that value's scalars.
    proof fn lemma_decode(values: Seq<WasmValue>)
        requires
            Self::decodes(values),
        ensures
            values.len() == Self::arg_count(),
            Self::representable(Self::decode(values)),
            Self::encode(Self::decode(values)) == values,
    ;

    /// The number of scalars a value takes, where that number fits in a
    /// `usize`.
    fn number_of_args() -> (n: usize)
        requires
            Self::arg_count() <= usize::MAX,
        ensures
            n == Self::arg_count(),
    ;

    /// Reads a value from the next scalars.
    fn read(args: &mut ArgReader) -> (value: Self)
        requires
            old(args).remaining().len() >= Self::arg_count(),
            Self::decodes(old(args).remaining().take(Self::arg_count() as int)),
        ensures
            value == Self::decode(old(args).remaining().take(Self::arg_count() as int)),
            final(args).remaining() == old(args).remaining().skip(Self::arg_count() as int),
    ;

    /// Writes the scalars of `value`.
    fn write(value: Self, out: &mut ArgWriter)
        requires
            Self::representable(value),
        ensures
            final(out).values@ == old(out).values@ + Self::encode(value),
    ;
}

/// Writing a representable value and reading the scalars written gives the
/// value back.
pub proof fn lemma_write_then_read<T: MagicArg>(value: T)
    requires
        T::representable(value),
    ensures
        T::decodes(T::encode(value)),
        T::decode(T::encode(value)) == value,
        T::encode(value).len() == T::arg_count(),
{
    T::lemma_encode(value);
}

/// Reads one `i32` scalar.
fn read_i32(args: &mut ArgReader) -> (res: u32)
    requires
        old(args).remaining().len() >= 1,
        old(args).remaining()[0] is I32,
    ensures
        old(args).remaining()[0] == WasmValue::I32(res),
        final(args).remaining() == old(args).remaining().skip(1),
{
    match args.next() {
        WasmValue::I32(v) => v,
        WasmValue::I64(_) => 0,
    }
}

/// Reads one `i64` scalar.
fn read_i64(args: &mut ArgReader) -> (res: u64)
    requires
        old(args).remaining().len() >= 1,
        old(args).remaining()[0] is I64,
    ensures
        old(args).remaining()[0] == WasmValue::I64(res),
        final(args).remaining() == old(args).remaining().skip(1),
{
    match args.next() {
        WasmValue::I64(v) => v,
        WasmValue::I32(_) => 0,
    }
}

impl MagicArg for u8 {
    open spec fn arg_count() -> nat {
        1
    }

    open spec fn encode(value: u8) -> Seq<WasmValue> {
        seq![WasmValue::I32(value as u32)]
    }

    open spec fn decodes(values: Seq<WasmValue>) -> bool {
        values.len() == 1 && (values[0] matches WasmValue::I32(x) && x <= u8::MAX)
    }

    open spec fn decode(values: Seq<WasmValue>) -> u8 {
        (values[0]->I32_0) as u8
    }

    open spec fn representable(value: u8) -> bool {
        true
    }

    proof fn lemma_encode(value: u8) {
    }

    proof fn lemma_decode(values: Seq<WasmValue>) {
        assert(values =~= seq![WasmValue::I32((values[0]->I32_0) as u8 as u32)]);
    }

    fn number_of_args() -> (n: usize) {
        1
    }

    fn read(args: &mut ArgReader) -> (value: u8) {
        read_i32(args) as u8
    }

    fn write(value: u8, out: &mut ArgWriter) {
        out.push(WasmValue::I32(value as u32));
        assert(out.values@ =~= old(out).values@ + Self::encode(value));
    }
}

impl MagicArg for u16 {
    open spec fn arg_count() -> nat {
        1
    }

    open spec fn encode(value: u16) -> Seq<WasmValue> {
        seq![WasmValue::I32(value as u32)]
    }

    open spec fn decodes(values: Seq<WasmValue>) -> bool {
        values.len() == 1 && (values[0] matches WasmValue::I32(x) && x <= u16::MAX)
    }

    open spec fn decode(values: Seq<WasmValue>) -> u16 {
        (values[0]->I32_0) as u16
    }

    open spec fn representable(value: u16) -> bool {
        true
    }

    proof fn lemma_encode(value: u16) {
    }

    proof fn lemma_decode(values: Seq<WasmValue>) {
        assert(values =~= seq![WasmValue::I32((values[0]->I32_0) as u16 as u32)]);
    }

    fn number_of_args() -> (n: usize) {
        1
    }

    fn read(args: &mut ArgReader) -> (value: u16) {
        read_i32(args) as u16
    }

    fn write(value: u16, out: &mut ArgWriter) {
        out.push(WasmValue::I32(value as u32));
        assert(out.values@ =~= old(out).values@ + Self::encode(value));
    }
}

impl MagicArg for u32 {
    open spec fn arg_count() -> nat {
        1
    }

    open spec fn encode(value: u32) -> Seq<WasmValue> {
        seq![WasmValue::I32(value as u32)]
    }

    open spec fn decodes(values: Seq<WasmValue>) -> bool {
        values.len() == 1 && values[0] is I32
    }

    open spec fn decode(values: Seq<WasmValue>) -> u32 {
        (values[0]->I32_0) as u32
    }

    open spec fn representable(value: u32) -> bool {
        true
    }

    proof fn lemma_encode(value: u32) {

    }

    proof fn lemma_decode(values: Seq<WasmValue>) {
        assert(values =~= seq![WasmValue::I32(values[0]->I32_0)]);
    }

    fn number_of_args() -> (n: usize) {
        1
    }

    fn read(args: &mut ArgReader) -> (value: u32) {
        read_i32(args) as u32
    }

    fn write(value: u32, out: &mut ArgWriter) {
        out.push(WasmValue::I32(value as u32));
        assert(out.values@ =~= old(out).values@ + Self::encode(value));
    }
}

impl MagicArg for u64 {
    open spec fn arg_count() -> nat {
        1
    }

    open spec fn encode(value: u64) -> Seq<WasmValue> {
        seq![WasmValue::I64(value as u64)]
    }

    open spec fn decodes(values: Seq<WasmValue>) -> bool {
        values.len() == 1 && values[0] is I64
    }

    open spec fn decode(values: Seq<WasmValue>) -> u64 {
        (values[0]->I64_0) as u64
    }

    open spec fn representable(value: u64) -> bool {
        true
    }

    proof fn lemma_encode(value: u64) {

    }

    proof fn lemma_decode(values: Seq<WasmValue>) {
        assert(values =~= seq![WasmValue::I64(values[0]->I64_0)]);
    }

    fn number_of_args() -> (n: usize) {
        1
    }

    fn read(args: &mut ArgReader) -> (value: u64) {
        read_i64(args) as u64
    }

    fn write(value: u64, out: &mut ArgWriter) {
        out.push(WasmValue::I64(value as u64));
        assert(out.values@ =~= old(out).values@ + Self::encode(value));
    }
}

impl MagicArg for i8 {
    open spec fn arg_count() -> nat {
        1
    }

    open spec fn encode(value: i8) -> Seq<WasmValue> {
        seq![WasmValue::I32(value as u32)]
    }

    open spec fn decodes(values: Seq<WasmValue>) -> bool {
        values.len() == 1 && (values[0] matches WasmValue::I32(x) && i8::MIN <= (x as i32) <= i8::MAX)
    }

    open spec fn decode(values: Seq<WasmValue>) -> i8 {
        (values[0]->I32_0) as i32 as i8
    }

    open spec fn representable(value: i8) -> bool {
        true
    }

    proof fn lemma_encode(value: i8) {
        assert(((value as u32) as i32) as i8 == value) by (bit_vector);
        assert(i8::MIN <= ((value as u32) as i32) <= i8::MAX) by (bit_vector);
    }

    proof fn lemma_decode(values: Seq<WasmValue>) {
        let x = values[0]->I32_0;
        assert((((x as i32) as i8) as u32) == x) by (bit_vector)
            requires
                i8::MIN <= (x as i32) <= i8::MAX,
        ;
        assert(values =~= seq![WasmValue::I32(((x as i32) as i8) as u32)]);
    }

    fn number_of_args() -> (n: usize) {
        1
    }

    fn read(args: &mut ArgReader) -> (value: i8) {
        read_i32(args) as i32 as i8
    }

    fn write(value: i8, out: &mut ArgWriter) {
        out.push(WasmValue::I32(value as u32));
        assert(out.values@ =~= old(out).values@ + Self::encode(value));
    }
}

impl MagicArg for i16 {
    open spec fn arg_count() -> nat {
        1
    }

    open spec fn encode(value: i16) -> Seq<WasmValue> {
        seq![WasmValue::I32(value as u32)]
    }

    open spec fn decodes(values: Seq<WasmValue>) -> bool {
        values.len() == 1 && (values[0] matches WasmValue::I32(x) && i16::MIN <= (x as i32) <= i16::MAX)
    }

    open spec fn decode(values: Seq<WasmValue>) -> i16 {
        (values[0]->I32_0) as i32 as i16
    }

    open spec fn representable(value: i16) -> bool {
        true
    }

    proof fn lemma_encode(value: i16) {
        assert(((value as u32) as i32) as i16 == value) by (bit_vector);
        assert(i16::MIN <= ((value as u32) as i32) <= i16::MAX) by (bit_vector);
    }

    proof fn lemma_decode(values: Seq<WasmValue>) {
        let x = values[0]->I32_0;
        assert((((x as i32) as i16) as u32) == x) by (bit_vector)
            requires
                i16::MIN <= (x as i32) <= i16::MAX,
        ;
        assert(values =~= seq![WasmValue::I32(((x as i32) as i16) as u32)]);
    }

    fn number_of_args() -> (n: usize) {
        1
    }

    fn read(args: &mut ArgReader) -> (value: i16) {
        read_i32(args) as i32 as i16
    }

    fn write(value: i16, out: &mut ArgWriter) {
        out.push(WasmValue::I32(value as u32));
        assert(out.values@ =~= old(out).values@ + Self::encode(value));
    }
}

impl MagicArg for i32 {
    open spec fn arg_count() -> nat {
        1
    }

    open spec fn encode(value: i32) -> Seq<WasmValue> {
        seq![WasmValue::I32(value as u32)]
    }

    open spec fn decodes(values: Seq<WasmValue>) -> bool {
        values.len() == 1 && values[0] is I32
    }

    open spec fn decode(values: Seq<WasmValue>) -> i32 {
        (values[0]->I32_0) as i32 as i32
    }

    open spec fn representable(value: i32) -> bool {
        true
    }

    proof fn lemma_encode(value: i32) {
        assert(((value as u32) as i32) == value) by (bit_vector);
    }

    proof fn lemma_decode(values: Seq<WasmValue>) {
        let x = values[0]->I32_0;
        assert(((x as i32) as u32) == x) by (bit_vector);
        assert(values =~= seq![WasmValue::I32((x as i32) as u32)]);
    }

    fn number_of_args() -> (n: usize) {
        1
    }

    fn read(args: &mut ArgReader) -> (value: i32) {
        read_i32(args) as i32 as i32
    }

    fn write(value: i32, out: &mut ArgWriter) {
        out.push(WasmValue::I32(value as u32));
        assert(out.values@ =~= old(out).values@ + Self::encode(value));
    }
}

impl MagicArg for i64 {
    open spec fn arg_count() -> nat {
        1
    }

    open spec fn encode(value: i64) -> Seq<WasmValue> {
        seq![WasmValue::I64(value as u64)]
    }

    open spec fn decodes(values: Seq<WasmValue>) -> bool {
        values.len() == 1 && values[0] is I64
    }

    open spec fn decode(values: Seq<WasmValue>) -> i64 {
        (values[0]->I64_0) as i64 as i64
    }

    open spec fn representable(value: i64) -> bool {
        true
    }

    proof fn lemma_encode(value: i64) {
        assert(((value as u64) as i64) == value) by (bit_vector);
    }

    proof fn lemma_decode(values: Seq<WasmValue>) {
        let x = values[0]->I64_0;
        assert(((x as i64) as u64) == x) by (bit_vector);
        assert(values =~= seq![WasmValue::I64((x as i64) as u64)]);
    }

    fn number_of_args() -> (n: usize) {
        1
    }

    fn read(args: &mut ArgReader) -> (value: i64) {
        read_i64(args) as i64 as i64
    }

    fn write(value: i64, out: &mut ArgWriter) {
        out.push(WasmValue::I64(value as u64));
        assert(out.values@ =~= old(out).values@ + Self::encode(value));
    }
}

impl MagicArg for usize {
    open spec fn arg_count() -> nat {
        1
    }

    open spec fn encode(value: usize) -> Seq<WasmValue> {
        seq![WasmValue::I32(value as u32)]
    }

    open spec fn decodes(values: Seq<WasmValue>) -> bool {
        values.len() == 1 && values[0] is I32
    }

    open spec fn decode(values: Seq<WasmValue>) -> usize {
        (values[0]->I32_0) as usize
    }

    open spec fn representable(value: usize) -> bool {
        value <= u32::MAX
    }

    proof fn lemma_encode(value: usize) {

    }

    proof fn lemma_decode(values: Seq<WasmValue>) {
        assert(values =~= seq![WasmValue::I32(((values[0]->I32_0) as usize) as u32)]);
    }

    fn number_of_args() -> (n: usize) {
        1
    }

    fn read(args: &mut ArgReader) -> (value: usize) {
        read_i32(args) as usize
    }

    fn write(value: usize, out: &mut ArgWriter) {
        out.push(WasmValue::I32(value as u32));
        assert(out.values@ =~= old(out).values@ + Self::encode(value));
    }
}

impl MagicArg for isize {
    open spec fn arg_count() -> nat {
        1
    }

    open spec fn encode(value: isize) -> Seq<WasmValue> {
        seq![WasmValue::I32(value as u32)]
    }

    open spec fn decodes(values: Seq<WasmValue>) -> bool {
        values.len() == 1 && values[0] is I32
    }

    open spec fn decode(values: Seq<WasmValue>) -> isize {
        (values[0]->I32_0) as i32 as isize
    }

    open spec fn representable(value: isize) -> bool {
        i32::MIN <= value <= i32::MAX
    }

    proof fn lemma_encode(value: isize) {
        assert(((value as u32) as i32) as isize == value) by (bit_vector)
            requires
                i32::MIN <= value <= i32::MAX,
        ;
    }

    proof fn lemma_decode(values: Seq<WasmValue>) {
        let x = values[0]->I32_0;
        assert((((x as i32) as isize) as u32) == x) by (bit_vector);
        assert(values =~= seq![WasmValue::I32(((x as i32) as isize) as u32)]);
    }

    fn number_of_args() -> (n: usize) {
        1
    }

    fn read(args: &mut ArgReader) -> (value: isize) {
        read_i32(args) as i32 as isize
    }

    fn write(value: isize, out: &mut ArgWriter) {
        out.push(WasmValue::I32(value as u32));
        assert(out.values@ =~= old(out).values@ + Self::encode(value));
    }
}

/// A [`Foo`] crosses the boundary as the scalars of its fields, in order.
impl MagicArg for Foo {
    open spec fn arg_count() -> nat {
        3
    }

    open spec fn encode(value: Foo) -> Seq<WasmValue> {
        <u32 as MagicArg>::encode(value.a) + <u32 as MagicArg>::encode(value.b) + <u64 as MagicArg>::encode(value.c)
    }

    open spec fn decodes(values: Seq<WasmValue>) -> bool {
        values.len() == 3 && <u32 as MagicArg>::decodes(values.subrange(0, 1)) && <u32 as MagicArg>::decodes(values.subrange(1, 2)) && <u64 as MagicArg>::decodes(values.subrange(2, 3))
    }

    open spec fn decode(values: Seq<WasmValue>) -> Foo {
        Foo { a: <u32 as MagicArg>::decode(values.subrange(0, 1)), b: <u32 as MagicArg>::decode(values.subrange(1, 2)), c: <u64 as MagicArg>::decode(values.subrange(2, 3)) }
    }

    open spec fn representable(value: Foo) -> bool {
        <u32 as MagicArg>::representable(value.a) && <u32 as MagicArg>::representable(value.b) && <u64 as MagicArg>::representable(value.c)
    }

    proof fn lemma_encode(value: Foo) {
        <u32 as MagicArg>::lemma_encode(value.a);
        <u32 as MagicArg>::lemma_encode(value.b);
        <u64 as MagicArg>::lemma_encode(value.c);
        let e = Self::encode(value);
        assert(e.subrange(0, 1) =~= <u32 as MagicArg>::encode(value.a));
        assert(e.subrange(1, 2) =~= <u32 as MagicArg>::encode(value.b));
        assert(e.subrange(2, 3) =~= <u64 as MagicArg>::encode(value.c));
    }

    proof fn lemma_decode(values: Seq<WasmValue>) {
        <u32 as MagicArg>::lemma_decode(values.subrange(0, 1));
        <u32 as MagicArg>::lemma_decode(values.subrange(1, 2));
        <u64 as MagicArg>::lemma_decode(values.subrange(2, 3));
        assert(values =~= Self::encode(Self::decode(values)));
    }

    fn number_of_args() -> (n: usize) {
        3
    }

    fn read(args: &mut ArgReader) -> (value: Foo) {
        let ghost start = args.remaining().take(3);
        proof {
            assert(args.remaining() =~= start + args.remaining().skip(3));
        }
        let ghost all = args.remaining();
        proof {
            assert(args.remaining().take(1) =~= start.subrange(0, 1));
        }
        let a = <u32 as MagicArg>::read(args);
        proof {
            assert(args.remaining() =~= all.skip(1));
        }
        proof {
            assert(args.remaining().take(1) =~= start.subrange(1, 2));
        }
        let b = <u32 as MagicArg>::read(args);
        proof {
            assert(args.remaining() =~= all.skip(2));
        }
        proof {
            assert(args.remaining().take(1) =~= start.subrange(2, 3));
        }
        let c = <u64 as MagicArg>::read(args);
        proof {
            assert(args.remaining() =~= all.skip(3));
        }
        Foo { a, b, c }
    }

    fn write(value: Foo, out: &mut ArgWriter) {
        <u32 as MagicArg>::write(value.a, out);
        <u32 as MagicArg>::write(value.b, out);
        <u64 as MagicArg>::write(value.c, out);
        assert(out.values@ =~= old(out).values@ + Self::encode(value));
    }
}

/// A [`Bar`] crosses the boundary as the scalars of its fields, in order.
impl MagicArg for Bar {
    open spec fn arg_count() -> nat {
        4
    }

    open spec fn encode(value: Bar) -> Seq<WasmValue> {
        <u32 as MagicArg>::encode(value.a) + <Foo as MagicArg>::encode(value.foo)
    }

    open spec fn decodes(values: Seq<WasmValue>) -> bool {
        values.len() == 4 && <u32 as MagicArg>::decodes(values.subrange(0, 1)) && <Foo as MagicArg>::decodes(values.subrange(1, 4))
    }

    open spec fn decode(values: Seq<WasmValue>) -> Bar {
        Bar { a: <u32 as MagicArg>::decode(values.subrange(0, 1)), foo: <Foo as MagicArg>::decode(values.subrange(1, 4)) }
    }

    open spec fn representable(value: Bar) -> bool {
        <u32 as MagicArg>::representable(value.a) && <Foo as MagicArg>::representable(value.foo)
    }

    proof fn lemma_encode(value: Bar) {
        <u32 as MagicArg>::lemma_encode(value.a);
        <Foo as MagicArg>::lemma_encode(value.foo);
        let e = Self::encode(value);
        assert(e.subrange(0, 1) =~= <u32 as MagicArg>::encode(value.a));
        assert(e.subrange(1, 4) =~= <Foo as MagicArg>::encode(value.foo));
    }

    proof fn lemma_decode(values: Seq<WasmValue>) {
        <u32 as MagicArg>::lemma_decode(values.subrange(0, 1));
        <Foo as MagicArg>::lemma_decode(values.subrange(1, 4));
        assert(values =~= Self::encode(Self::decode(values)));
    }

    fn number_of_args() -> (n: usize) {
        4
    }

    fn read(args: &mut ArgReader) -> (value: Bar) {
        let ghost start = args.remaining().take(4);
        proof {
            assert(args.remaining() =~= start + args.remaining().skip(4));
        }
        let ghost all = args.remaining();
        proof {
            assert(args.remaining().take(1) =~= start.subrange(0, 1));
        }
        let a = <u32 as MagicArg>::read(args);
        proof {
            assert(args.remaining() =~= all.skip(1));
        }
        proof {
            assert(args.remaining().take(3) =~= start.subrange(1, 4));
        }
        let foo = <Foo as MagicArg>::read(args);
        proof {
            assert(args.remaining() =~= all.skip(4));
        }
        Bar { a, foo }
    }

    fn write(value: Bar, out: &mut ArgWriter) {
        <u32 as MagicArg>::write(value.a, out);
        <Foo as MagicArg>::write(value.foo, out);
        assert(out.values@ =~= old(out).values@ + Self::encode(value));
    }
}

/// A [`Test2`] crosses the boundary as the scalars of its fields, in order.
impl MagicArg for Test2 {
    open spec fn arg_count() -> nat {
        2
    }

    open spec fn encode(value: Test2) -> Seq<WasmValue> {
        <u64 as MagicArg>::encode(value.a) + <u16 as MagicArg>::encode(value.b)
    }

    open spec fn decodes(values: Seq<WasmValue>) -> bool {
        values.len() == 2 && <u64 as MagicArg>::decodes(values.subrange(0, 1)) && <u16 as MagicArg>::decodes(values.subrange(1, 2))
    }

    open spec fn decode(values: Seq<WasmValue>) -> Test2 {
        Test2 { a: <u64 as MagicArg>::decode(values.subrange(0, 1)), b: <u16 as MagicArg>::decode(values.subrange(1, 2)) }
    }

    open spec fn representable(value: Test2) -> bool {
        <u64 as MagicArg>::representable(value.a) && <u16 as MagicArg>::representable(value.b)
    }

    proof fn lemma_encode(value: Test2) {
        <u64 as MagicArg>::lemma_encode(value.a);
        <u16 as MagicArg>::lemma_encode(value.b);
        let e = Self::encode(value);
        assert(e.subrange(0, 1) =~= <u64 as MagicArg>::encode(value.a));
        assert(e.subrange(1, 2) =~= <u16 as MagicArg>::encode(value.b));
    }

    proof fn lemma_decode(values: Seq<WasmValue>) {
        <u64 as MagicArg>::lemma_decode(values.subrange(0, 1));
        <u16 as MagicArg>::lemma_decode(values.subrange(1, 2));
        assert(values =~= Self::encode(Self::decode(values)));
    }

    fn number_of_args() -> (n: usize) {
        2
    }

    fn read(args: &mut ArgReader) -> (value: Test2) {
        let ghost start = args.remaining().take(2);
        proof {
            assert(args.remaining() =~= start + args.remaining().skip(2));
        }
        let ghost all = args.remaining();
        proof {
            assert(args.remaining().take(1) =~= start.subrange(0, 1));
        }
        let a = <u64 as MagicArg>::read(args);
        proof {
            assert(args.remaining() =~= all.skip(1));
        }
        proof {
            assert(args.remaining().take(1) =~= start.subrange(1, 2));
        }
        let b = <u16 as MagicArg>::read(args);
        proof {
            assert(args.remaining() =~= all.skip(2));
        }
        Test2 { a, b }
    }

    fn write(value: Test2, out: &mut ArgWriter) {
        <u64 as MagicArg>::write(value.a, out);
        <u16 as MagicArg>::write(value.b, out);
        assert(out.values@ =~= old(out).values@ + Self::encode(value));
    }
}

/// The scalars of `values`, those of each value after those of the one
/// before.
pub open spec fn encode_all<T: MagicArg>(values: Seq<T>) -> Seq<WasmValue>
    decreases values.len(),
{
    if values.len() == 0 {
        seq![]
    } else {
        T::encode(values[0]) + encode_all::<T>(values.skip(1))
    }
}

/// `values` are the scalars of `n` values of `T`, one after the other.
pub open spec fn decodes_all<T: MagicArg>(values: Seq<WasmValue>, n: nat) -> bool
    decreases n,
{
    if n == 0 {
        values.len() == 0
    } else {
        &&& values.len() >= T::arg_count()
        &&& T::decodes(values.take(T::arg_count() as int))
        &&& decodes_all::<T>(values.skip(T::arg_count() as int), (n - 1) as nat)
    }
}

/// The `n` values of `T` whose scalars, one after the other, are `values`.
pub open spec fn decode_all<T: MagicArg>(values: Seq<WasmValue>, n: nat) -> Seq<T>
    decreases n,
{
    if n == 0 {
        seq![]
    } else {
        seq![T::decode(values.take(T::arg_count() as int))] + decode_all::<T>(
            values.skip(T::arg_count() as int),
            (n - 1) as nat,
        )
    }
}

/// An array whose first `k` elements are those of `s`.
pub open spec fn fill_array<T, const N: usize>(s: Seq<T>, k: nat) -> [T; N]
    decreases k,
{
    if k == 0 {
        vstd::pervasive::arbitrary()
    } else {
        vstd::array::spec_array_update(fill_array::<T, N>(s, (k - 1) as nat), k - 1, s[k - 1])
    }
}

/// The array whose elements are those of `s`.
pub open spec fn array_of<T, const N: usize>(s: Seq<T>) -> [T; N] {
    fill_array::<T, N>(s, N as nat)
}

/// The first `k` elements of [`fill_array`] are those of `s`.
proof fn lemma_fill_array<T, const N: usize>(s: Seq<T>, k: nat)
    requires
        k <= N,
        k <= s.len(),
    ensures
        fill_array::<T, N>(s, k)@.len() == N,
        forall|i: int| 0 <= i < k ==> #[trigger] fill_array::<T, N>(s, k)@[i] == s[i],
    decreases k,
{
    if k > 0 {
        lemma_fill_array::<T, N>(s, (k - 1) as nat);
        let prev = fill_array::<T, N>(s, (k - 1) as nat);
        vstd::array::axiom_spec_array_update(prev, k - 1, s[k - 1]);
        assert(fill_array::<T, N>(s, k)@ == prev@.update(k - 1, s[k - 1]));
    }
}

/// An array is the [`array_of`] its elements, and the elements of the
/// [`array_of`] `N` values are those values.
proof fn lemma_array_of<T, const N: usize>(a: [T; N], s: Seq<T>)
    requires
        s.len() == N,
    ensures
        array_of::<T, N>(s)@ == s,
        a@ == s ==> a == array_of::<T, N>(s),
{
    lemma_fill_array::<T, N>(s, N as nat);
    let b = array_of::<T, N>(s);
    assert(b@ =~= s);
    if a@ == s {
        vstd::array::axiom_array_ext_equal(a, b);
        assert forall|i: int| 0 <= i < N implies a[i] == b[i] by {
            assert(a@[i] == s[i]);
            assert(b@[i] == s[i]);
        }
        assert(a =~= b);
    }
}

/// Representable values take `arg_count` scalars each, which stand for
/// them.
proof fn lemma_encode_all<T: MagicArg>(s: Seq<T>)
    requires
        forall|i: int| 0 <= i < s.len() ==> T::representable(#[trigger] s[i]),
    ensures
        encode_all::<T>(s).len() == s.len() * T::arg_count(),
        decodes_all::<T>(encode_all::<T>(s), s.len()),
        decode_all::<T>(encode_all::<T>(s), s.len()) == s,
    decreases s.len(),
{
    if s.len() == 0 {
        assert(decode_all::<T>(encode_all::<T>(s), 0) =~= s);
    } else {
        let c = T::arg_count();
        let tail = s.skip(1);
        assert forall|i: int| 0 <= i < tail.len() implies T::representable(#[trigger] tail[i]) by {
            assert(tail[i] == s[i + 1]);
        }
        T::lemma_encode(s[0]);
        lemma_encode_all::<T>(tail);
        let e = encode_all::<T>(s);
        let n = s.len();
        assert(e.take(c as int) =~= T::encode(s[0]));
        assert(e.skip(c as int) =~= encode_all::<T>(tail));
        assert(c + (n - 1) * c == n * c) by (nonlinear_arith);
        assert(decode_all::<T>(e, n) =~= seq![s[0]] + tail);
        assert(seq![s[0]] + tail =~= s);
    }
}

/// Scalars that stand for `n` values are their scalars.
proof fn lemma_decode_all<T: MagicArg>(values: Seq<WasmValue>, n: nat)
    requires
        decodes_all::<T>(values, n),
    ensures
        values.len() == n * T::arg_count(),
        decode_all::<T>(values, n).len() == n,
        forall|i: int| 0 <= i < n ==> T::representable(#[trigger] decode_all::<T>(values, n)[i]),
        encode_all::<T>(decode_all::<T>(values, n)) == values,
    decreases n,
{
    let c = T::arg_count();
    if n == 0 {
        assert(values =~= seq![]);
    } else {
        let head = values.take(c as int);
        let rest = values.skip(c as int);
        T::lemma_decode(head);
        lemma_decode_all::<T>(rest, (n - 1) as nat);
        let d = decode_all::<T>(values, n);
        let d_rest = decode_all::<T>(rest, (n - 1) as nat);
        assert(d.skip(1) =~= d_rest);
        assert(d[0] == T::decode(head));
        assert forall|i: int| 0 <= i < n implies T::representable(#[trigger] d[i]) by {
            if i > 0 {
                assert(d[i] == d_rest[i - 1]);
            }
        }
        assert(c + (n - 1) * c == n * c) by (nonlinear_arith);
        assert(head + rest =~= values);
    }
}

/// The scalars already written, followed by those of `rest`.
pub open spec fn written_then<T: MagicArg>(written: Seq<WasmValue>, rest: Seq<T>) -> Seq<WasmValue> {
    written + encode_all::<T>(rest)
}

/// `<[T; N]>::try_from(Vec<T>)` of std: a vector of exactly `N` elements
/// becomes the array of those elements, in the same order.
#[verifier::external_body]
fn array_from_vec<T, const N: usize>(items: Vec<T>) -> (res: [T; N])
    requires
        items@.len() == N,
    ensures
        res@ == items@,
{
    <[T; N]>::try_from(items).ok().expect("the vector holds exactly N elements")
}

/// `Vec::from([T; N])` of std: the elements of the array, moved into a
/// vector in the same order.
#[verifier::external_body]
fn vec_from_array<T, const N: usize>(value: [T; N]) -> (res: Vec<T>)
    ensures
        res@ == value@,
{
    Vec::from(value)
}

/// An array crosses the boundary as the scalars of its elements, in index
/// order.
impl<T: MagicArg, const N: usize> MagicArg for [T; N] {
    open spec fn arg_count() -> nat {
        (N * T::arg_count()) as nat
    }

    open spec fn encode(value: [T; N]) -> Seq<WasmValue> {
        encode_all::<T>(value@)
    }

    open spec fn decodes(values: Seq<WasmValue>) -> bool {
        decodes_all::<T>(values, N as nat)
    }

    open spec fn decode(values: Seq<WasmValue>) -> [T; N] {
        array_of::<T, N>(decode_all::<T>(values, N as nat))
    }

    open spec fn representable(value: [T; N]) -> bool {
        forall|i: int| 0 <= i < N ==> T::representable(#[trigger] value@[i])
    }

    proof fn lemma_encode(value: [T; N]) {
        lemma_encode_all::<T>(value@);
        lemma_array_of::<T, N>(value, value@);
    }

    proof fn lemma_decode(values: Seq<WasmValue>) {
        lemma_decode_all::<T>(values, N as nat);
        let d = decode_all::<T>(values, N as nat);
        lemma_array_of::<T, N>(array_of::<T, N>(d), d);
    }

    fn number_of_args() -> (n: usize) {
        if N == 0 {
            0
        } else {
            proof {
                let c = T::arg_count();
                let k = N as int;
                assert(c <= k * c) by (nonlinear_arith)
                    requires
                        k >= 1,
                ;
            }
            let c = T::number_of_args();
            N * c
        }
    }

    fn read(args: &mut ArgReader) -> (value: [T; N]) {
        let ghost c = T::arg_count();
        let ghost start = args.remaining().take(Self::arg_count() as int);
        let ghost after = args.remaining().skip(Self::arg_count() as int);
        proof {
            assert(args.remaining() =~= start + after);
        }
        let mut items: Vec<T> = Vec::new();
        let ghost mut rest = start;
        let mut i: usize = 0;
        while i < N
            invariant
                i <= N,
                c == T::arg_count(),
                decodes_all::<T>(rest, (N - i) as nat),
                items@ + decode_all::<T>(rest, (N - i) as nat) == decode_all::<T>(start, N as nat),
                args.remaining() == rest + after,
            decreases N - i,
        {
            let ghost items0 = items@;
            let ghost rest0 = rest;
            proof {
                assert((rest0 + after).take(c as int) =~= rest0.take(c as int));
            }
            let x = T::read(args);
            proof {
                assert((rest0 + after).skip(c as int) =~= rest0.skip(c as int) + after);
                rest = rest0.skip(c as int);
            }
            items.push(x);
            proof {
                assert(decode_all::<T>(rest0, (N - i) as nat) == seq![x] + decode_all::<T>(
                    rest,
                    (N - i - 1) as nat,
                ));
                assert(items@ + decode_all::<T>(rest, (N - i - 1) as nat) =~= items0 + decode_all::<T>(
                    rest0,
                    (N - i) as nat,
                ));
            }
            i = i + 1;
        }
        proof {
            assert(rest =~= Seq::<WasmValue>::empty());
            assert(items@ =~= decode_all::<T>(start, N as nat));
            assert(args.remaining() =~= after);
            lemma_decode_all::<T>(start, N as nat);
        }
        let value = array_from_vec::<T, N>(items);
        proof {
            lemma_array_of::<T, N>(value, decode_all::<T>(start, N as nat));
        }
        value
    }

    fn write(value: [T; N], out: &mut ArgWriter) {
        let mut items = vec_from_array::<T, N>(value);
        let ghost out0 = out.values@;
        let ghost all = items@;
        while items.len() > 0
            invariant
                forall|j: int| 0 <= j < items@.len() ==> T::representable(#[trigger] items@[j]),
                written_then::<T>(out.values@, items@) == written_then::<T>(out0, all),
            decreases items@.len(),
        {
            let ghost before = items@;
            let ghost written0 = out.values@;
            let x = items.remove(0);
            proof {
                assert(items@ =~= before.skip(1));
                assert(T::representable(before[0]));
                assert forall|j: int| 0 <= j < items@.len() implies T::representable(#[trigger] items@[j]) by {
                    assert(items@[j] == before[j + 1]);
                }
            }
            T::write(x, out);
            proof {
                assert(encode_all::<T>(before) == T::encode(x) + encode_all::<T>(items@));
                assert(written_then::<T>(out.values@, items@) =~= written_then::<T>(written0, before));
            }
        }
        proof {
            assert(encode_all::<T>(items@) =~= Seq::<WasmValue>::empty());
            assert(out.values@ =~= written_then::<T>(out.values@, items@));
        }
    }
}

} // verus!

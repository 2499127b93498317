use wasm_calling::calling_test::{Bar, Foo, Test2};
use wasm_calling::magic_arg::{ArgReader, ArgWriter, MagicArg, WasmValue};

fn round_trip<T: MagicArg + Copy + PartialEq + std::fmt::Debug>(v: T) -> Vec<WasmValue> {
    let mut out = ArgWriter::new();
    T::write(v, &mut out);
    assert_eq!(out.values.len(), T::number_of_args());
    let written = out.values.clone();
    let mut reader = ArgReader::new(out.values);
    let back = T::read(&mut reader);
    assert_eq!(back, v);
    assert_eq!(reader.position, written.len());
    written
}

#[test]
fn scalars_take_one_value_each() {
    assert_eq!(round_trip(200u8), vec![WasmValue::I32(200)]);
    assert_eq!(round_trip(65535u16), vec![WasmValue::I32(65535)]);
    assert_eq!(round_trip(u32::MAX), vec![WasmValue::I32(u32::MAX)]);
    assert_eq!(round_trip(u64::MAX), vec![WasmValue::I64(u64::MAX)]);
    assert_eq!(round_trip(7usize), vec![WasmValue::I32(7)]);
}

#[test]
fn signed_scalars_are_sign_extended() {
    assert_eq!(round_trip(-1i8), vec![WasmValue::I32(0xFFFF_FFFF)]);
    assert_eq!(round_trip(-2i16), vec![WasmValue::I32(0xFFFF_FFFE)]);
    assert_eq!(round_trip(i32::MIN), vec![WasmValue::I32(0x8000_0000)]);
    assert_eq!(round_trip(-1i64), vec![WasmValue::I64(u64::MAX)]);
    assert_eq!(round_trip(-5isize), vec![WasmValue::I32(0xFFFF_FFFB)]);
    assert_eq!(round_trip(127i8), vec![WasmValue::I32(127)]);
}

#[test]
fn structs_take_the_values_of_their_fields_in_order() {
    let foo = Foo { a: 1, b: 2, c: 3 };
    assert_eq!(round_trip(foo), vec![WasmValue::I32(1), WasmValue::I32(2), WasmValue::I64(3)]);
    let bar = Bar { a: 9, foo };
    assert_eq!(
        round_trip(bar),
        vec![WasmValue::I32(9), WasmValue::I32(1), WasmValue::I32(2), WasmValue::I64(3)]
    );
    let t = Test2 { a: 5, b: 6 };
    assert_eq!(round_trip(t), vec![WasmValue::I64(5), WasmValue::I32(6)]);
    assert_eq!(Foo::number_of_args(), 3);
    assert_eq!(Bar::number_of_args(), 4);
    assert_eq!(Test2::number_of_args(), 2);
}

#[test]
fn arguments_are_read_one_after_the_other() {
    let mut out = ArgWriter::new();
    Foo::write(Foo { a: 1, b: 2, c: 3 }, &mut out);
    Bar::write(Bar { a: 4, foo: Foo { a: 5, b: 6, c: 7 } }, &mut out);
    let mut reader = ArgReader::new(out.values);
    assert_eq!(Foo::read(&mut reader), Foo { a: 1, b: 2, c: 3 });
    assert_eq!(Bar::read(&mut reader), Bar { a: 4, foo: Foo { a: 5, b: 6, c: 7 } });
    assert_eq!(reader.position, 7);
}

#[test]
fn next_reads_in_order() {
    let mut reader = ArgReader::new(vec![WasmValue::I32(1), WasmValue::I64(2)]);
    assert_eq!(reader.next(), WasmValue::I32(1));
    assert_eq!(reader.next(), WasmValue::I64(2));
}

#[test]
fn arrays_take_the_values_of_their_elements_in_order() {
    assert_eq!(
        round_trip([1u32, 2, 3]),
        vec![WasmValue::I32(1), WasmValue::I32(2), WasmValue::I32(3)]
    );
    assert_eq!(<[u32; 3] as MagicArg>::number_of_args(), 3);
    let foos = [Foo { a: 1, b: 2, c: 3 }, Foo { a: 4, b: 5, c: 6 }];
    assert_eq!(
        round_trip(foos),
        vec![
            WasmValue::I32(1),
            WasmValue::I32(2),
            WasmValue::I64(3),
            WasmValue::I32(4),
            WasmValue::I32(5),
            WasmValue::I64(6),
        ]
    );
    assert_eq!(<[Foo; 2] as MagicArg>::number_of_args(), 6);
    assert_eq!(round_trip([[-1i8, 2], [3, -4]]).len(), 4);
    assert_eq!(<[[i8; 2]; 2] as MagicArg>::number_of_args(), 4);
}

#[test]
fn an_empty_array_takes_no_value() {
    let empty: [Bar; 0] = [];
    assert_eq!(round_trip(empty), Vec::<WasmValue>::new());
    assert_eq!(<[Bar; 0] as MagicArg>::number_of_args(), 0);
}

#[test]
fn an_array_is_read_from_the_next_values() {
    let mut reader = ArgReader::new(vec![
        WasmValue::I64(9),
        WasmValue::I32(7),
        WasmValue::I32(8),
        WasmValue::I64(10),
    ]);
    assert_eq!(u64::read(&mut reader), 9);
    assert_eq!(<[u32; 2] as MagicArg>::read(&mut reader), [7, 8]);
    assert_eq!(u64::read(&mut reader), 10);
}

use wasm_calling::support::SupportData;
use wasm_calling::wasm::{
    BlockModel, ConstValue, ExportItemModel, ExportModel, FunctionKindModel, Instr,
    LocalFunctionModel, ModuleModel, Signature, ValType,
};

fn b(s: &str) -> Vec<u8> {
    s.as_bytes().to_vec()
}

fn local(instrs: Vec<Instr>) -> FunctionKindModel {
    FunctionKindModel::Local(LocalFunctionModel { entry: 0, blocks: vec![BlockModel { ty: 0, instrs }] })
}

fn module() -> ModuleModel {
    ModuleModel {
        import_names: vec![
            b("wasm_calling_support_read_u32_arg"),
            b("wasm_calling_support_read_u64_arg"),
            b("wasm_calling_support_write_u32_arg"),
        ],
        functions: vec![
            FunctionKindModel::Import {
                import: 0,
                signature: Some(Signature { params: vec![], results: vec![ValType::I32] }),
            },
            FunctionKindModel::Import {
                import: 1,
                signature: Some(Signature { params: vec![], results: vec![ValType::I64] }),
            },
            local(vec![
                Instr::Call { func: 0 },
                Instr::Other { op: 0 },
                Instr::Call { func: 1 },
                Instr::Call { func: 0 },
            ]),
            local(vec![Instr::Const { value: ConstValue::I32(2) }]),
            local(vec![Instr::Const { value: ConstValue::I64(1) }]),
            FunctionKindModel::Import {
                import: 2,
                signature: Some(Signature { params: vec![ValType::I32], results: vec![] }),
            },
        ],
        exports: vec![
            ExportModel { id: 0, name: b("WRAPMETA_SIG__f"), item: ExportItemModel::Function { func: 2 } },
            ExportModel {
                id: 1,
                name: b("WRAPMETA_SIG_ARG_COUNT__f"),
                item: ExportItemModel::Function { func: 3 },
            },
            ExportModel {
                id: 2,
                name: b("WRAPMETA_SIG_RETURN_COUNT__f"),
                item: ExportItemModel::Function { func: 4 },
            },
            ExportModel { id: 3, name: b("WRAPPED__f"), item: ExportItemModel::Function { func: 2 } },
        ],
    }
}

#[test]
fn scan_finds_helpers_and_metadata() {
    let m = module();
    let d = SupportData::scan(&m);
    assert_eq!(d.support_imports, vec![0, 1, 2]);
    assert_eq!(d.input_functions, vec![Some(ValType::I32), Some(ValType::I64), None, None, None, None]);
    assert_eq!(d.output_functions, vec![None, None, None, None, None, Some(ValType::I32)]);
    let mut functions = d.support_functions.clone();
    functions.sort();
    assert_eq!(functions, vec![0, 1, 2, 3, 4, 5]);
    let mut exports = d.support_exports.clone();
    exports.sort();
    assert_eq!(exports, vec![0, 1, 2]);
    assert_eq!(d.signature_metadata.len(), 3);
    assert_eq!(d.signature_metadata[1].key, b("WRAPMETA_SIG_ARG_COUNT"));
    assert_eq!(d.signature_metadata[1].function_name, b("f"));
    assert_eq!(d.signature_metadata[1].function, 3);
}

#[test]
fn the_signature_splits_the_calls_at_the_argument_count() {
    let m = module();
    let d = SupportData::scan(&m);
    assert_eq!(
        d.get_function_signature(&m.functions, &b("f")),
        Some((vec![ValType::I32, ValType::I64], vec![ValType::I32]))
    );
}

#[test]
fn a_missing_metadata_export_gives_no_signature() {
    let mut m = module();
    assert_eq!(SupportData::scan(&m).get_function_signature(&m.functions, &b("g")), None);
    m.exports.remove(2);
    assert_eq!(SupportData::scan(&m).get_function_signature(&m.functions, &b("f")), None);
}

#[test]
fn the_last_metadata_export_of_a_key_counts() {
    let mut m = module();
    m.functions.push(local(vec![Instr::Const { value: ConstValue::I32(3) }]));
    m.functions.push(local(vec![Instr::Const { value: ConstValue::I32(0) }]));
    m.exports.push(ExportModel {
        id: 4,
        name: b("WRAPMETA_SIG_ARG_COUNT__f"),
        item: ExportItemModel::Function { func: 6 },
    });
    m.exports.push(ExportModel {
        id: 5,
        name: b("WRAPMETA_SIG_RETURN_COUNT__f"),
        item: ExportItemModel::Function { func: 7 },
    });
    let d = SupportData::scan(&m);
    assert_eq!(
        d.get_function_signature(&m.functions, &b("f")),
        Some((vec![ValType::I32, ValType::I64, ValType::I32], vec![]))
    );
}

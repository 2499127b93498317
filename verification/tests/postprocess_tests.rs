use wasm_calling::postprocess::{plan, PlanError};
use wasm_calling::rewrite::{Emit, HelperFunctionDirection};
use wasm_calling::wasm::{
    BlockModel, ExportItemModel, ExportModel, FunctionKindModel, Instr, LocalFunctionModel,
    ModuleModel, Signature, ValType,
};

fn b(s: &str) -> Vec<u8> {
    s.as_bytes().to_vec()
}

fn sig(params: Vec<ValType>, results: Vec<ValType>) -> Option<Signature> {
    Some(Signature { params, results })
}

fn wrapped_body() -> LocalFunctionModel {
    LocalFunctionModel {
        entry: 0,
        blocks: vec![BlockModel {
            ty: 0,
            instrs: vec![
                Instr::Call { func: 1 },
                Instr::Call { func: 0 },
                Instr::Call { func: 2 },
            ],
        }],
    }
}

fn module() -> ModuleModel {
    ModuleModel {
        import_names: vec![
            b("env_log"),
            b("wasm_calling_support_read_u32_arg"),
            b("wasm_calling_support_write_u64_arg"),
        ],
        functions: vec![
            FunctionKindModel::Import { import: 0, signature: sig(vec![ValType::I32], vec![]) },
            FunctionKindModel::Import { import: 1, signature: sig(vec![], vec![ValType::I32]) },
            FunctionKindModel::Import { import: 2, signature: sig(vec![ValType::I64], vec![]) },
            FunctionKindModel::Local(wrapped_body()),
            FunctionKindModel::Absent,
        ],
        exports: vec![
            ExportModel { id: 7, name: b("memory"), item: ExportItemModel::Other },
            ExportModel { id: 8, name: b("WRAPPED__f"), item: ExportItemModel::Function { func: 3 } },
            ExportModel { id: 9, name: b("g"), item: ExportItemModel::Function { func: 3 } },
        ],
    }
}

#[test]
fn plan_finds_helpers_and_rewrites_wrappers() {
    let p = plan(&module()).unwrap();
    assert_eq!(p.support_imports, vec![1, 2]);
    assert_eq!(p.support_functions, vec![1, 2]);
    assert_eq!(
        p.helpers,
        vec![
            None,
            Some(HelperFunctionDirection::Input(ValType::I32)),
            Some(HelperFunctionDirection::Output(ValType::I64)),
            None,
            None,
        ]
    );
    assert_eq!(p.wrappers.len(), 1);
    let w = &p.wrappers[0];
    assert_eq!(w.export, 1);
    assert_eq!(w.export_id, 8);
    assert_eq!(w.old_function, 3);
    assert_eq!(w.identifier, b("_f"));
    assert_eq!(w.function.name, b("_f"));
    assert_eq!(w.function.params, vec![ValType::I32]);
    assert_eq!(w.function.results, vec![ValType::I64]);
    assert_eq!(
        w.function.body,
        vec![
            Emit::ArgGet { arg: 0 },
            Emit::Call { func: 0 },
            Emit::ResultSet { result: 0 },
            Emit::ResultGet { result: 0 },
        ]
    );
}

#[test]
fn a_module_without_support_is_left_alone() {
    let m = ModuleModel {
        import_names: vec![b("env")],
        functions: vec![FunctionKindModel::Import { import: 0, signature: None }],
        exports: vec![],
    };
    let p = plan(&m).unwrap();
    assert!(p.support_imports.is_empty());
    assert!(p.support_functions.is_empty());
    assert_eq!(p.helpers, vec![None]);
    assert!(p.wrappers.is_empty());
}

#[test]
fn a_helper_without_function_type_is_refused() {
    let mut m = module();
    m.functions[2] = FunctionKindModel::Import { import: 2, signature: None };
    assert_eq!(plan(&m).unwrap_err(), PlanError::HelperNotAFunctionType { function: 2 });
}

#[test]
fn a_helper_without_value_is_refused() {
    let mut m = module();
    m.functions[1] = FunctionKindModel::Import { import: 1, signature: sig(vec![], vec![]) };
    m.functions[2] = FunctionKindModel::Import { import: 2, signature: None };
    assert_eq!(plan(&m).unwrap_err(), PlanError::HelperWithoutValue { function: 1 });
}

#[test]
fn a_helper_takes_its_first_parameter_over_its_result() {
    let mut m = module();
    m.functions[1] =
        FunctionKindModel::Import { import: 1, signature: sig(vec![ValType::F64], vec![ValType::I32]) };
    let p = plan(&m).unwrap();
    assert_eq!(p.helpers[1], Some(HelperFunctionDirection::Output(ValType::F64)));
}

#[test]
fn a_wrapper_that_exports_no_function_is_refused() {
    let mut m = module();
    m.exports[0].name = b("WRAPPED_table");
    assert_eq!(plan(&m).unwrap_err(), PlanError::WrapperNotAFunction { export: 0 });
}

#[test]
fn a_wrapper_of_an_import_is_refused() {
    let mut m = module();
    m.exports[1].item = ExportItemModel::Function { func: 0 };
    assert_eq!(plan(&m).unwrap_err(), PlanError::WrapperNotLocal { export: 1 });
    m.exports[1].item = ExportItemModel::Function { func: 4 };
    assert_eq!(plan(&m).unwrap_err(), PlanError::WrapperNotLocal { export: 1 });
    m.exports[1].item = ExportItemModel::Function { func: 40 };
    assert_eq!(plan(&m).unwrap_err(), PlanError::WrapperNotLocal { export: 1 });
}

#[test]
fn a_malformed_wrapper_is_refused() {
    let mut m = module();
    m.functions[3] = FunctionKindModel::Local(LocalFunctionModel {
        entry: 0,
        blocks: vec![BlockModel { ty: 0, instrs: vec![Instr::Br { block: 5 }] }],
    });
    assert_eq!(plan(&m).unwrap_err(), PlanError::WrapperMalformed { export: 1 });
}

#[test]
fn helper_errors_come_before_wrapper_errors() {
    let mut m = module();
    m.exports[0].name = b("WRAPPED_table");
    m.functions[2] = FunctionKindModel::Import { import: 2, signature: None };
    assert_eq!(plan(&m).unwrap_err(), PlanError::HelperNotAFunctionType { function: 2 });
}

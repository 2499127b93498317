use wasm_calling::rewrite::{
    rewrite_function, Emit, EmittedSeq, HelperFunctionDirection, ScannedFunction,
};
use wasm_calling::wasm::{BlockModel, ConstValue, Instr, LocalFunctionModel, ValType};

fn helpers() -> Vec<Option<HelperFunctionDirection>> {
    vec![
        None,
        Some(HelperFunctionDirection::Input(ValType::I32)),
        Some(HelperFunctionDirection::Output(ValType::I64)),
        Some(HelperFunctionDirection::Input(ValType::I64)),
    ]
}

fn sample() -> LocalFunctionModel {
    LocalFunctionModel {
        entry: 0,
        blocks: vec![
            BlockModel {
                ty: 10,
                instrs: vec![
                    Instr::Call { func: 1 },
                    Instr::Block { seq: 2 },
                    Instr::Call { func: 2 },
                    Instr::Other { op: 5 },
                    Instr::Call { func: 0 },
                ],
            },
            BlockModel { ty: 11, instrs: vec![Instr::Call { func: 3 }] },
            BlockModel {
                ty: 12,
                instrs: vec![
                    Instr::Call { func: 3 },
                    Instr::Br { block: 0 },
                    Instr::BrTable { blocks: vec![0, 2], default: 2 },
                    Instr::Const { value: ConstValue::I32(4) },
                    Instr::BrOnCast { block: 2, cast: 8 },
                ],
            },
        ],
    }
}

#[test]
fn scan_visits_the_reachable_blocks_only() {
    let f = sample();
    let s = ScannedFunction::scan(&f, &helpers());
    assert_eq!(s.entry, 0);
    assert_eq!(s.order, vec![0, 2]);
    assert_eq!(s.blocks[0], Some(f.blocks[0].clone()));
    assert_eq!(s.blocks[1], None);
    assert_eq!(s.blocks[2], Some(f.blocks[2].clone()));
    assert_eq!(s.params, vec![ValType::I32, ValType::I64]);
    assert_eq!(s.results, vec![ValType::I64]);
}

#[test]
fn build_replaces_helper_calls_and_renumbers_blocks() {
    let f = sample();
    let (_, r) = rewrite_function(&f, &b"_f".to_vec(), &helpers());
    assert_eq!(r.name, b"_f".to_vec());
    assert_eq!(r.params, vec![ValType::I32, ValType::I64]);
    assert_eq!(r.results, vec![ValType::I64]);
    assert_eq!(
        r.body,
        vec![
            Emit::ArgGet { arg: 0 },
            Emit::Block { seq: 1 },
            Emit::ResultSet { result: 0 },
            Emit::Other { op: 5 },
            Emit::Call { func: 0 },
            Emit::ResultGet { result: 0 },
        ]
    );
    assert_eq!(
        r.seqs,
        vec![EmittedSeq {
            ty: 12,
            instrs: vec![
                Emit::ArgGet { arg: 1 },
                Emit::Br { block: 0 },
                Emit::BrTable { blocks: vec![0, 1], default: 1 },
                Emit::Const { value: ConstValue::I32(4) },
                Emit::BrOnCast { block: 1, cast: 8 },
            ],
        }]
    );
}

#[test]
fn a_function_without_helper_calls_is_copied() {
    let f = LocalFunctionModel {
        entry: 1,
        blocks: vec![
            BlockModel { ty: 0, instrs: vec![Instr::Other { op: 1 }] },
            BlockModel { ty: 3, instrs: vec![Instr::Loop { seq: 0 }, Instr::Other { op: 2 }] },
        ],
    };
    let (s, r) = rewrite_function(&f, &b"g".to_vec(), &vec![]);
    assert_eq!(s.order, vec![1, 0]);
    assert!(r.params.is_empty() && r.results.is_empty());
    assert_eq!(r.body, vec![Emit::Loop { seq: 1 }, Emit::Other { op: 2 }]);
    assert_eq!(r.seqs, vec![EmittedSeq { ty: 0, instrs: vec![Emit::Other { op: 1 }] }]);
}

#[test]
fn the_scan_takes_the_least_pending_block_first() {
    // Entry 3 enters 2 and 0; 2 enters 1.  The scan visits 3, 0, 2, 1, while
    // the rewriting numbers parameters by increasing block.
    let h = vec![
        None,
        Some(HelperFunctionDirection::Input(ValType::I32)),
        Some(HelperFunctionDirection::Input(ValType::I64)),
        Some(HelperFunctionDirection::Input(ValType::F32)),
    ];
    let f = LocalFunctionModel {
        entry: 3,
        blocks: vec![
            BlockModel { ty: 0, instrs: vec![Instr::Call { func: 1 }] },
            BlockModel { ty: 1, instrs: vec![Instr::Call { func: 2 }] },
            BlockModel { ty: 2, instrs: vec![Instr::Block { seq: 1 }] },
            BlockModel {
                ty: 3,
                instrs: vec![Instr::Call { func: 3 }, Instr::Block { seq: 2 }, Instr::Block { seq: 0 }],
            },
        ],
    };
    let (s, r) = rewrite_function(&f, &b"h".to_vec(), &h);
    assert_eq!(s.order, vec![3, 0, 2, 1]);
    assert_eq!(s.params, vec![ValType::F32, ValType::I32, ValType::I64]);
    assert_eq!(r.body, vec![Emit::ArgGet { arg: 2 }, Emit::Block { seq: 3 }, Emit::Block { seq: 1 }]);
    assert_eq!(r.seqs[0].instrs, vec![Emit::ArgGet { arg: 0 }]);
    assert_eq!(r.seqs[1].instrs, vec![Emit::ArgGet { arg: 1 }]);
    assert_eq!(r.seqs[2].instrs, vec![Emit::Block { seq: 2 }]);
}

#[test]
fn a_helper_table_shorter_than_the_functions_means_no_helper() {
    let f = LocalFunctionModel {
        entry: 0,
        blocks: vec![BlockModel { ty: 0, instrs: vec![Instr::Call { func: 9 }] }],
    };
    let (_, r) = rewrite_function(&f, &b"k".to_vec(), &helpers());
    assert_eq!(r.body, vec![Emit::Call { func: 9 }]);
}

//! The parts of a wasm module that the rewriting reads: value types,
//! instructions, instruction sequences (blocks) and functions.
//!
//! Identifiers of blocks, functions, imports and exports are the dense arena
//! indices of the module they come from.  Whatever the rewriting only carries
//! through (the type of a block, the operands of a cast, an instruction that is
//! copied unchanged) is held as a handle that the owner of the module resolves.

use vstd::prelude::*;

verus! {

/// A wasm value type.
#[derive(Debug, Clone, Copy, PartialEq, Eq, Structural)]
pub enum ValType {
    I32,
    I64,
    F32,
    F64,
    V128,
    /// A reference type, by a handle.
    Ref { handle: usize },
}

/// The value of a constant instruction; floats by their bit patterns.
#[derive(Debug, Clone, Copy, PartialEq, Eq, Structural)]
pub enum ConstValue {
    I32(i32),
    I64(i64),
    F32Bits(u32),
    F64Bits(u64),
    V128(u128),
}

/// An instruction, as far as the rewriting tells instructions apart.
#[derive(Debug, Clone, PartialEq, Eq)]
pub enum Instr {
    Block { seq: usize },
    Loop { seq: usize },
    Br { block: usize },
    BrIf { block: usize },
    BrTable { blocks: Vec<usize>, default: usize },
    /// A `br_on_cast`; `cast` is a handle to its operand types.
    BrOnCast { block: usize, cast: usize },
    /// A `br_on_cast_fail`; `cast` is a handle to its operand types.
    BrOnCastFail { block: usize, cast: usize },
    BrOnNull { block: usize },
    BrOnNonNull { block: usize },
    Call { func: usize },
    Const { value: ConstValue },
    /// Any other instruction, by a handle.
    Other { op: usize },
}

/// The mathematical value of an [`Instr`].
pub enum InstrView {
    Block { seq: usize },
    Loop { seq: usize },
    Br { block: usize },
    BrIf { block: usize },
    BrTable { blocks: Seq<usize>, default: usize },
    BrOnCast { block: usize, cast: usize },
    BrOnCastFail { block: usize, cast: usize },
    BrOnNull { block: usize },
    BrOnNonNull { block: usize },
    Call { func: usize },
    Const { value: ConstValue },
    Other { op: usize },
}

impl View for Instr {
    type V = InstrView;

    open spec fn view(&self) -> InstrView {
        match self {
            Instr::Block { seq } => InstrView::Block { seq: *seq },
            Instr::Loop { seq } => InstrView::Loop { seq: *seq },
            Instr::Br { block } => InstrView::Br { block: *block },
            Instr::BrIf { block } => InstrView::BrIf { block: *block },
            Instr::BrTable { blocks, default } => InstrView::BrTable { blocks: blocks@, default: *default },
            Instr::BrOnCast { block, cast } => InstrView::BrOnCast { block: *block, cast: *cast },
            Instr::BrOnCastFail { block, cast } => InstrView::BrOnCastFail { block: *block, cast: *cast },
            Instr::BrOnNull { block } => InstrView::BrOnNull { block: *block },
            Instr::BrOnNonNull { block } => InstrView::BrOnNonNull { block: *block },
            Instr::Call { func } => InstrView::Call { func: *func },
            Instr::Const { value } => InstrView::Const { value: *value },
            Instr::Other { op } => InstrView::Other { op: *op },
        }
    }
}

/// The blocks that an instruction enters or branches to, in the order the
/// instruction names them.
pub open spec fn targets(i: InstrView) -> Seq<usize> {
    match i {
        InstrView::Block { seq } => seq![seq],
        InstrView::Loop { seq } => seq![seq],
        InstrView::Br { block } => seq![block],
        InstrView::BrIf { block } => seq![block],
        InstrView::BrTable { blocks, default } => blocks.push(default),
        InstrView::BrOnCast { block, .. } => seq![block],
        InstrView::BrOnCastFail { block, .. } => seq![block],
        InstrView::BrOnNull { block } => seq![block],
        InstrView::BrOnNonNull { block } => seq![block],
        _ => seq![],
    }
}

/// Every block that some instruction of `instrs` names.
pub open spec fn instrs_targets(instrs: Seq<InstrView>) -> Set<usize> {
    Set::new(|t: usize| exists|j: int| 0 <= j < instrs.len() && #[trigger] targets(instrs[j]).contains(t))
}

impl Instr {
    /// A copy of this instruction.
    pub fn duplicate(&self) -> (res: Instr)
        ensures
            res@ == self@,
    {
        match self {
            Instr::Block { seq } => Instr::Block { seq: *seq },
            Instr::Loop { seq } => Instr::Loop { seq: *seq },
            Instr::Br { block } => Instr::Br { block: *block },
            Instr::BrIf { block } => Instr::BrIf { block: *block },
            Instr::BrTable { blocks, default } => {
                let copied = copy_ids(blocks);
                Instr::BrTable { blocks: copied, default: *default }
            },
            Instr::BrOnCast { block, cast } => Instr::BrOnCast { block: *block, cast: *cast },
            Instr::BrOnCastFail { block, cast } => Instr::BrOnCastFail { block: *block, cast: *cast },
            Instr::BrOnNull { block } => Instr::BrOnNull { block: *block },
            Instr::BrOnNonNull { block } => Instr::BrOnNonNull { block: *block },
            Instr::Call { func } => Instr::Call { func: *func },
            Instr::Const { value } => Instr::Const { value: *value },
            Instr::Other { op } => Instr::Other { op: *op },
        }
    }
}

/// A copy of a list of identifiers.
pub fn copy_ids(ids: &Vec<usize>) -> (res: Vec<usize>)
    ensures
        res@ == ids@,
{
    let mut res: Vec<usize> = Vec::new();
    let mut i: usize = 0;
    while i < ids.len()
        invariant
            i <= ids.len(),
            res@ == ids@.take(i as int),
        decreases ids.len() - i,
    {
        res.push(ids[i]);
        i = i + 1;
        assert(res@ =~= ids@.take(i as int));
    }
    assert(ids@.take(ids.len() as int) =~= ids@);
    res
}

/// An instruction sequence: its type, by a handle, and its instructions.
#[derive(Debug, Clone, PartialEq, Eq)]
pub struct BlockModel {
    pub ty: usize,
    pub instrs: Vec<Instr>,
}

/// The mathematical value of a [`BlockModel`].
pub struct BlockView {
    pub ty: usize,
    pub instrs: Seq<InstrView>,
}

impl View for BlockModel {
    type V = BlockView;

    open spec fn view(&self) -> BlockView {
        BlockView { ty: self.ty, instrs: self.instrs@.map_values(|i: Instr| i@) }
    }
}

/// A function defined in the module: its entry block and all its blocks,
/// each at the index that identifies it.
#[derive(Debug, Clone, PartialEq, Eq)]
pub struct LocalFunctionModel {
    pub entry: usize,
    pub blocks: Vec<BlockModel>,
}

/// The mathematical value of a [`LocalFunctionModel`].
pub struct FunctionView {
    pub entry: usize,
    pub blocks: Seq<BlockView>,
}

impl View for LocalFunctionModel {
    type V = FunctionView;

    open spec fn view(&self) -> FunctionView {
        FunctionView { entry: self.entry, blocks: self.blocks@.map_values(|b: BlockModel| b@) }
    }
}

/// The entry and every block that an instruction names exist.
pub open spec fn function_wf(f: FunctionView) -> bool {
    &&& f.entry < f.blocks.len()
    &&& forall|b: int, t: usize|
        0 <= b < f.blocks.len() && #[trigger] instrs_targets(f.blocks[b].instrs).contains(t)
            ==> t < f.blocks.len()
}

/// Whether every block that an instruction of `f` names exists, and the
/// entry too.
pub fn function_is_well_formed(f: &LocalFunctionModel) -> (res: bool)
    ensures
        res == function_wf(f@),
{
    let n = f.blocks.len();
    if f.entry >= n {
        return false;
    }
    let mut b: usize = 0;
    while b < n
        invariant
            n == f.blocks@.len(),
            f.entry < n,
            b <= n,
            forall|c: int, t: usize|
                0 <= c < b && #[trigger] instrs_targets(f@.blocks[c].instrs).contains(t) ==> t < n,
        decreases n - b,
    {
        let instrs = &f.blocks[b].instrs;
        let ghost iv = f@.blocks[b as int].instrs;
        let mut i: usize = 0;
        while i < instrs.len()
            invariant
                n == f.blocks@.len(),
                b < n,
                instrs == &f.blocks@[b as int].instrs,
                iv == f@.blocks[b as int].instrs,
                iv.len() == instrs@.len(),
                i <= instrs.len(),
                forall|j: int, t: usize| 0 <= j < i && #[trigger] targets(iv[j]).contains(t) ==> t < n,
            decreases instrs.len() - i,
        {
            let ts = instr_target_list(&instrs[i]);
            let mut k: usize = 0;
            while k < ts.len()
                invariant
                    k <= ts.len(),
                    i < iv.len(),
                    b < n,
                    n == f@.blocks.len(),
                    iv == f@.blocks[b as int].instrs,
                    ts@ == targets(iv[i as int]),
                    forall|j: int| 0 <= j < k ==> ts@[j] < n,
                decreases ts.len() - k,
            {
                if ts[k] >= n {
                    proof {
                        assert(targets(iv[i as int]).contains(ts@[k as int]));
                        assert(instrs_targets(iv).contains(ts@[k as int]));
                    }
                    return false;
                }
                k = k + 1;
            }
            proof {
                assert forall|j: int, t: usize| 0 <= j < i + 1 && #[trigger] targets(iv[j]).contains(t) implies t < n by {
                    if j == i {
                        let q = choose|q: int| 0 <= q < ts@.len() && ts@[q] == t;
                    }
                }
            }
            i = i + 1;
        }
        proof {
            assert forall|c: int, t: usize|
                0 <= c < b + 1 && #[trigger] instrs_targets(f@.blocks[c].instrs).contains(t) implies t < n by {
                if c == b {
                    let j = choose|j: int| 0 <= j < iv.len() && #[trigger] targets(iv[j]).contains(t);
                }
            }
        }
        b = b + 1;
    }
    true
}

/// The blocks that an instruction names, as [`targets`] lists them.
pub fn instr_target_list(instr: &Instr) -> (res: Vec<usize>)
    ensures
        res@ == targets(instr@),
{
    let mut res: Vec<usize> = Vec::new();
    match instr {
        Instr::Block { seq } => res.push(*seq),
        Instr::Loop { seq } => res.push(*seq),
        Instr::Br { block } => res.push(*block),
        Instr::BrIf { block } => res.push(*block),
        Instr::BrTable { blocks, default } => {
            res = copy_ids(blocks);
            res.push(*default);
        },
        Instr::BrOnCast { block, .. } => res.push(*block),
        Instr::BrOnCastFail { block, .. } => res.push(*block),
        Instr::BrOnNull { block } => res.push(*block),
        Instr::BrOnNonNull { block } => res.push(*block),
        _ => {},
    }
    assert(res@ =~= targets(instr@));
    res
}

/// The type of a function: its parameter and result types.
#[derive(Debug, Clone, PartialEq, Eq)]
pub struct Signature {
    pub params: Vec<ValType>,
    pub results: Vec<ValType>,
}

/// What stands at a function index of a module.
#[derive(Debug, Clone, PartialEq, Eq)]
pub enum FunctionKindModel {
    /// An imported function: the import, by its index, and its type if the
    /// type is a function type.
    Import { import: usize, signature: Option<Signature> },
    /// A function defined in the module.
    Local(LocalFunctionModel),
    /// No function.
    Absent,
}

/// What an export exports.
#[derive(Debug, Clone, PartialEq, Eq)]
pub enum ExportItemModel {
    Function { func: usize },
    Other,
}

/// An export: its index, its name and what it exports.
#[derive(Debug, Clone, PartialEq, Eq)]
pub struct ExportModel {
    pub id: usize,
    pub name: Vec<u8>,
    pub item: ExportItemModel,
}

/// The parts of a module that the rewriting reads: the names of the imports
/// and the functions, each at its index, and the exports in the module's
/// order.
#[derive(Debug, Clone, PartialEq, Eq)]
pub struct ModuleModel {
    pub import_names: Vec<Vec<u8>>,
    pub functions: Vec<FunctionKindModel>,
    pub exports: Vec<ExportModel>,
}

} // verus!

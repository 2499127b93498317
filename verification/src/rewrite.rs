//! Turning an export that reads its arguments and writes its results through
//! helper imports into an ordinary wasm function: the helper calls become
//! reads of the new function's parameters and writes of its result locals.

use vstd::prelude::*;
use crate::wasm::{
    copy_ids, function_wf, instr_target_list, instrs_targets, targets, BlockModel, ConstValue, FunctionView, Instr,
    InstrView, LocalFunctionModel, ValType,
};

verus! {

/// What a helper import does: hand the wrapped function one argument of the
/// given type (`Input`), or take one result of the given type (`Output`).
#[derive(Debug, Clone, Copy, PartialEq, Eq, Structural)]
pub enum HelperFunctionDirection {
    Input(ValType),
    Output(ValType),
}

/// The direction of function `func` in a helper table indexed by function.
pub open spec fn helper_of(helpers: Seq<Option<HelperFunctionDirection>>, func: usize) -> Option<
    HelperFunctionDirection,
> {
    if func < helpers.len() {
        helpers[func as int]
    } else {
        None
    }
}

/// The argument type that instruction `i` reads, if it calls an input helper.
pub open spec fn input_of(i: InstrView, helpers: Seq<Option<HelperFunctionDirection>>) -> Seq<ValType> {
    match i {
        InstrView::Call { func } => match helper_of(helpers, func) {
            Some(HelperFunctionDirection::Input(t)) => seq![t],
            _ => seq![],
        },
        _ => seq![],
    }
}

/// The result type that instruction `i` writes, if it calls an output helper.
pub open spec fn output_of(i: InstrView, helpers: Seq<Option<HelperFunctionDirection>>) -> Seq<ValType> {
    match i {
        InstrView::Call { func } => match helper_of(helpers, func) {
            Some(HelperFunctionDirection::Output(t)) => seq![t],
            _ => seq![],
        },
        _ => seq![],
    }
}

/// The argument types that `instrs` read, in order.
pub open spec fn inputs_of(instrs: Seq<InstrView>, helpers: Seq<Option<HelperFunctionDirection>>) -> Seq<
    ValType,
>
    decreases instrs.len(),
{
    if instrs.len() == 0 {
        seq![]
    } else {
        inputs_of(instrs.drop_last(), helpers) + input_of(instrs.last(), helpers)
    }
}

/// The result types that `instrs` write, in order.
pub open spec fn outputs_of(instrs: Seq<InstrView>, helpers: Seq<Option<HelperFunctionDirection>>) -> Seq<
    ValType,
>
    decreases instrs.len(),
{
    if instrs.len() == 0 {
        seq![]
    } else {
        outputs_of(instrs.drop_last(), helpers) + output_of(instrs.last(), helpers)
    }
}

/// The argument types read by the blocks `order` of `f`, block after block.
pub open spec fn inputs_along(
    f: FunctionView,
    order: Seq<usize>,
    helpers: Seq<Option<HelperFunctionDirection>>,
) -> Seq<ValType>
    decreases order.len(),
{
    if order.len() == 0 {
        seq![]
    } else {
        inputs_along(f, order.drop_last(), helpers) + inputs_of(
            f.blocks[order.last() as int].instrs,
            helpers,
        )
    }
}

/// The result types written by the blocks `order` of `f`, block after block.
pub open spec fn outputs_along(
    f: FunctionView,
    order: Seq<usize>,
    helpers: Seq<Option<HelperFunctionDirection>>,
) -> Seq<ValType>
    decreases order.len(),
{
    if order.len() == 0 {
        seq![]
    } else {
        outputs_along(f, order.drop_last(), helpers) + outputs_of(
            f.blocks[order.last() as int].instrs,
            helpers,
        )
    }
}

/// The blocks that the blocks `visited` of `f` name.
pub open spec fn successors(f: FunctionView, visited: Seq<usize>) -> Set<usize> {
    Set::new(
        |t: usize|
            exists|k: int|
                0 <= k < visited.len() && #[trigger] instrs_targets(
                    f.blocks[visited[k] as int].instrs,
                ).contains(t),
    )
}

/// `b` is the least block that the blocks `visited` name and that is not
/// among them.
pub open spec fn is_next(f: FunctionView, visited: Seq<usize>, b: usize) -> bool {
    &&& successors(f, visited).contains(b)
    &&& !visited.contains(b)
    &&& forall|x: usize| #[trigger]
        successors(f, visited).contains(x) && !visited.contains(x) ==> b <= x
}

/// `order` visits the blocks of `f` as a scan does: the entry first, then
/// always the least block that the visited blocks name and that is not
/// visited yet, until every named block is visited.
pub open spec fn is_scan_order(f: FunctionView, order: Seq<usize>) -> bool {
    &&& order.len() > 0
    &&& order[0] == f.entry
    &&& order.no_duplicates()
    &&& forall|k: int| 1 <= k < order.len() ==> #[trigger] is_next(f, order.take(k), order[k])
    &&& forall|x: usize| successors(f, order).contains(x) ==> order.contains(x)
}

/// The blocks of an export that a scan reached, with the types of the
/// arguments and results that they pass through helper calls.
#[derive(Debug, Clone, PartialEq, Eq)]
pub struct ScannedFunction {
    pub entry: usize,
    /// At the index of each block of the source function: a copy of the block
    /// if the scan reached it.
    pub blocks: Vec<Option<BlockModel>>,
    /// The blocks in the order in which the scan visited them.
    pub order: Vec<usize>,
    pub params: Vec<ValType>,
    pub results: Vec<ValType>,
}

impl ScannedFunction {
    /// This is the scan of `f` with helper table `helpers`.
    pub open spec fn scan_of(
        self,
        f: FunctionView,
        helpers: Seq<Option<HelperFunctionDirection>>,
    ) -> bool {
        &&& self.entry == f.entry
        &&& self.blocks@.len() == f.blocks.len()
        &&& is_scan_order(f, self.order@)
        &&& forall|b: int|
            0 <= b < f.blocks.len() ==> (#[trigger] self.blocks@[b] is Some <==> self.order@.contains(
                b as usize,
            ))
        &&& forall|b: int|
            0 <= b < f.blocks.len() && #[trigger] self.blocks@[b] is Some ==> self.blocks@[b]->0@
                == f.blocks[b]
        &&& self.params@ == inputs_along(f, self.order@, helpers)
        &&& self.results@ == outputs_along(f, self.order@, helpers)
    }
}

/// One step of [`inputs_of`] and [`outputs_of`].
proof fn lemma_inputs_of_step(instrs: Seq<InstrView>, helpers: Seq<Option<HelperFunctionDirection>>, i: int)
    requires
        0 <= i < instrs.len(),
    ensures
        inputs_of(instrs.take(i + 1), helpers) == inputs_of(instrs.take(i), helpers) + input_of(
            instrs[i],
            helpers,
        ),
        outputs_of(instrs.take(i + 1), helpers) == outputs_of(instrs.take(i), helpers) + output_of(
            instrs[i],
            helpers,
        ),
{
    assert(instrs.take(i + 1).drop_last() =~= instrs.take(i));
}

/// The targets of a longer prefix of instructions.
proof fn lemma_instrs_targets_step(instrs: Seq<InstrView>, j: int, t: usize)
    requires
        0 <= j < instrs.len(),
    ensures
        instrs_targets(instrs.take(j + 1)).contains(t) <==> (instrs_targets(instrs.take(j)).contains(t)
            || targets(instrs[j]).contains(t)),
{
    if instrs_targets(instrs.take(j + 1)).contains(t) {
        let k = choose|k: int|
            0 <= k < instrs.take(j + 1).len() && #[trigger] targets(instrs.take(j + 1)[k]).contains(t);
        if k < j {
            assert(instrs.take(j)[k] == instrs[k]);
            assert(targets(instrs.take(j)[k]).contains(t));
        }
    }
    if instrs_targets(instrs.take(j)).contains(t) {
        let k = choose|k: int|
            0 <= k < instrs.take(j).len() && #[trigger] targets(instrs.take(j)[k]).contains(t);
        assert(instrs.take(j + 1)[k] == instrs[k]);
        assert(targets(instrs.take(j + 1)[k]).contains(t));
    }
    if targets(instrs[j]).contains(t) {
        assert(instrs.take(j + 1)[j] == instrs[j]);
        assert(targets(instrs.take(j + 1)[j]).contains(t));
    }
}

/// The successors of a longer visit.
proof fn lemma_successors_push(f: FunctionView, visited: Seq<usize>, b: usize, t: usize)
    ensures
        successors(f, visited.push(b)).contains(t) <==> (successors(f, visited).contains(t)
            || instrs_targets(f.blocks[b as int].instrs).contains(t)),
{
    let v2 = visited.push(b);
    if successors(f, v2).contains(t) {
        let k = choose|k: int|
            0 <= k < v2.len() && #[trigger] instrs_targets(f.blocks[v2[k] as int].instrs).contains(t);
        if k < visited.len() {
            assert(v2[k] == visited[k]);
            assert(instrs_targets(f.blocks[visited[k] as int].instrs).contains(t));
        }
    }
    if successors(f, visited).contains(t) {
        let k = choose|k: int|
            0 <= k < visited.len() && #[trigger] instrs_targets(f.blocks[visited[k] as int].instrs).contains(
                t,
            );
        assert(v2[k] == visited[k]);
        assert(instrs_targets(f.blocks[v2[k] as int].instrs).contains(t));
    }
    if instrs_targets(f.blocks[b as int].instrs).contains(t) {
        assert(v2[visited.len() as int] == b);
        assert(instrs_targets(f.blocks[v2[visited.len() as int] as int].instrs).contains(t));
    }
}

/// The successors of an empty visit.
proof fn lemma_successors_empty(f: FunctionView, t: usize)
    ensures
        !successors(f, Seq::<usize>::empty()).contains(t),
{
}

impl ScannedFunction {
    /// Visits the blocks of `source` that its entry reaches, always the least
    /// pending block first, copies each, and collects the types of the
    /// arguments and results that its helper calls pass.
    pub fn scan(source: &LocalFunctionModel, helpers: &Vec<Option<HelperFunctionDirection>>) -> (res:
        ScannedFunction)
        requires
            function_wf(source@),
        ensures
            res.scan_of(source@, helpers@),
    {
        let ghost f = source@;
        let n = source.blocks.len();
        let mut visited: Vec<bool> = Vec::new();
        let mut pending: Vec<bool> = Vec::new();
        let mut blocks: Vec<Option<BlockModel>> = Vec::new();
        let mut i: usize = 0;
        while i < n
            invariant
                n == source.blocks.len(),
                i <= n,
                visited@.len() == i,
                pending@.len() == i,
                blocks@.len() == i,
                forall|x: int| 0 <= x < i ==> !visited@[x] && (pending@[x] <==> x == source.entry),
                forall|x: int| 0 <= x < i ==> blocks@[x] is None,
            decreases n - i,
        {
            visited.push(false);
            pending.push(i == source.entry);
            blocks.push(None);
            i = i + 1;
        }
        let mut order: Vec<usize> = Vec::new();
        let mut params: Vec<ValType> = Vec::new();
        let mut results: Vec<ValType> = Vec::new();
        let ghost mut unvisited: Set<int> = vstd::set_lib::set_int_range(0, n as int);
        proof {
            vstd::set_lib::lemma_int_range(0, n as int);
            assert forall|x: int|
                0 <= x < n implies (#[trigger] pending@[x] <==> if order@.len() == 0 {
                    x == f.entry
                } else {
                    successors(f, order@).contains(x as usize) && !visited@[x]
                }) by {}
        }
        loop
            invariant
                function_wf(f),
                f == source@,
                n == source.blocks.len(),
                visited@.len() == n,
                pending@.len() == n,
                blocks@.len() == n,
                unvisited.finite(),
                forall|x: int| #[trigger] unvisited.contains(x) <==> 0 <= x < n && !visited@[x],
                order@.no_duplicates(),
                order@.len() > 0 ==> order@[0] == f.entry,
                forall|k: int| 0 <= k < order@.len() ==> #[trigger] order@[k] < n,
                forall|x: int| 0 <= x < n ==> (#[trigger] visited@[x] <==> order@.contains(x as usize)),
                forall|x: int|
                    0 <= x < n ==> (#[trigger] pending@[x] <==> if order@.len() == 0 {
                        x == f.entry
                    } else {
                        successors(f, order@).contains(x as usize) && !visited@[x]
                    }),
                forall|k: int| 1 <= k < order@.len() ==> #[trigger] is_next(f, order@.take(k), order@[k]),
                forall|b: int| 0 <= b < n ==> (#[trigger] blocks@[b] is Some <==> visited@[b]),
                forall|b: int|
                    0 <= b < n && #[trigger] blocks@[b] is Some ==> blocks@[b]->0@ == f.blocks[b],
                params@ == inputs_along(f, order@, helpers@),
                results@ == outputs_along(f, order@, helpers@),
            ensures
                forall|x: int| 0 <= x < n ==> !pending@[x],
            decreases unvisited.len(),
        {
            let mut id: usize = 0;
            while id < n && !pending[id]
                invariant
                    n == pending@.len(),
                    id <= n,
                    forall|x: int| 0 <= x < id ==> !pending@[x],
                decreases n - id,
            {
                id = id + 1;
            }
            if id == n {
                break;
            }
            let ghost old_order = order@;
            proof {
                assert(!visited@[id as int]);
                assert(!old_order.contains(id));
                if old_order.len() > 0 {
                    assert forall|x: usize| #[trigger]
                        successors(f, old_order).contains(x) && !old_order.contains(x) implies id
                        <= x by {
                        let k = choose|k: int|
                            0 <= k < old_order.len() && #[trigger] instrs_targets(
                                f.blocks[old_order[k] as int].instrs,
                            ).contains(x);
                        assert(old_order[k] < n);
                        assert(x < n);
                        assert(pending@[x as int]);
                    }
                }
            }
            pending.set(id, false);
            visited.set(id, true);
            order.push(id);
            proof {
                unvisited = unvisited.remove(id as int);
                assert(order@.take(old_order.len() as int) =~= old_order);
                assert forall|k: int| 1 <= k < order@.len() implies #[trigger] is_next(
                    f,
                    order@.take(k),
                    order@[k],
                ) by {
                    if k < old_order.len() {
                        assert(order@.take(k) =~= old_order.take(k));
                    }
                }
                assert(order@.drop_last() =~= old_order);
                assert forall|x: int| 0 <= x < n implies (#[trigger] visited@[x] <==> order@.contains(
                    x as usize,
                )) by {
                    if x == id {
                        assert(order@[old_order.len() as int] == id);
                    } else if old_order.contains(x as usize) {
                        let k = choose|k: int| 0 <= k < old_order.len() && old_order[k] == x as usize;
                        assert(order@[k] == x as usize);
                    }
                }
            }
            let block = &source.blocks[id];
            let ghost instrs_v = f.blocks[id as int].instrs;
            let ghost params0 = params@;
            let ghost results0 = results@;
            let mut instructions: Vec<Instr> = Vec::new();
            let mut j: usize = 0;
            proof {
                assert(instrs_v.take(0) =~= Seq::<InstrView>::empty());
                assert(instructions@.map_values(|i: Instr| i@) =~= instrs_v.take(0));
                assert forall|x: int|
                    0 <= x < n implies (#[trigger] pending@[x] <==> (successors(f, old_order).contains(
                    x as usize)
                        || instrs_targets(instrs_v.take(0)).contains(x as usize))
                        && !visited@[x]) by {
                    if old_order.len() == 0 {
                        lemma_successors_empty(f, x as usize);
                    }
                }
            }
            while j < block.instrs.len()
                invariant
                    function_wf(f),
                    f == source@,
                    block == &source.blocks@[id as int],
                    instrs_v == f.blocks[id as int].instrs,
                    instrs_v.len() == block.instrs@.len(),
                    id < n,
                    n == source.blocks.len(),
                    j <= block.instrs.len(),
                    visited@.len() == n,
                    pending@.len() == n,
                    forall|x: int|
                        0 <= x < n ==> (#[trigger] pending@[x] <==> (successors(f, old_order).contains(
                        x as usize)
                            || instrs_targets(instrs_v.take(j as int)).contains(x as usize))
                            && !visited@[x]),
                    instructions@.map_values(|i: Instr| i@) == instrs_v.take(j as int),
                    params@ == params0 + inputs_of(instrs_v.take(j as int), helpers@),
                    results@ == results0 + outputs_of(instrs_v.take(j as int), helpers@),
                decreases block.instrs.len() - j,
            {
                let instruction = &block.instrs[j];
                instructions.push(instruction.duplicate());
                proof {
                    lemma_inputs_of_step(instrs_v, helpers@, j as int);
                    assert(instrs_v[j as int] == instruction@);
                    assert(instructions@.map_values(|i: Instr| i@) =~= instrs_v.take(j + 1));
                }
                let ts = instr_target_list(instruction);
                let mut m: usize = 0;
                while m < ts.len()
                    invariant
                        function_wf(f),
                        instrs_v == f.blocks[id as int].instrs,
                        id < n,
                        j < instrs_v.len(),
                        ts@ == targets(instrs_v[j as int]),
                        m <= ts.len(),
                        visited@.len() == n,
                        pending@.len() == n,
                        n == f.blocks.len(),
                        forall|x: int|
                            0 <= x < n ==> (#[trigger] pending@[x] <==> (successors(
                                f,
                                old_order,
                            ).contains(x as usize) || instrs_targets(instrs_v.take(j as int)).contains(
                                x as usize,
                            ) || ts@.take(m as int).contains(x as usize)) && !visited@[x]),
                    decreases ts.len() - m,
                {
                    let t = ts[m];
                    proof {
                        assert(targets(instrs_v[j as int]).contains(t));
                        assert(instrs_targets(instrs_v).contains(t));
                    }
                    let ghost pend0 = pending@;
                    if !visited[t] {
                        pending.set(t, true);
                    }
                    proof {
                        assert(ts@[m as int] == t);
                        assert forall|x: int|
                            0 <= x < n implies (#[trigger] pending@[x] <==> (successors(
                            f,
                            old_order,
                        ).contains(x as usize) || instrs_targets(instrs_v.take(j as int)).contains(
                            x as usize,
                        ) || ts@.take(m + 1).contains(x as usize)) && !visited@[x]) by {
                            let xs = x as usize;
                            assert(ts@.take(m + 1) =~= ts@.take(m as int).push(t));
                            assert(ts@.take(m + 1)[m as int] == t);
                            if x != t as int {
                                assert(pending@[x] == pend0[x]);
                                if ts@.take(m + 1).contains(xs) {
                                    let k = choose|k: int| 0 <= k < m + 1 && #[trigger] ts@.take(m + 1)[k] == xs;
                                    assert(ts@.take(m as int)[k] == xs);
                                }
                                if ts@.take(m as int).contains(xs) {
                                    let k = choose|k: int| 0 <= k < m && #[trigger] ts@.take(m as int)[k] == xs;
                                    assert(ts@.take(m + 1)[k] == xs);
                                }
                            }
                        }
                    }
                    m = m + 1;
                }
                match instruction {
                    Instr::Call { func } => {
                        if *func < helpers.len() {
                            match helpers[*func] {
                                Some(HelperFunctionDirection::Input(t)) => params.push(t),
                                Some(HelperFunctionDirection::Output(t)) => results.push(t),
                                None => {},
                            }
                        }
                    },
                    _ => {},
                }
                proof {
                    assert(ts@.take(ts@.len() as int) =~= ts@);
                    assert forall|x: int|
                        0 <= x < n implies (#[trigger] pending@[x] <==> (successors(
                        f,
                        old_order,
                    ).contains(x as usize) || instrs_targets(instrs_v.take(j + 1)).contains(x as usize))
                        && !visited@[x]) by {
                        lemma_instrs_targets_step(instrs_v, j as int, x as usize);
                    }
                    assert(params@ =~= params0 + inputs_of(instrs_v.take(j + 1), helpers@));
                    assert(results@ =~= results0 + outputs_of(instrs_v.take(j + 1), helpers@));
                }
                j = j + 1;
            }
            proof {
                assert(instrs_v.take(instrs_v.len() as int) =~= instrs_v);
                assert forall|x: int|
                    0 <= x < n implies (#[trigger] pending@[x] <==> if order@.len() == 0 {
                        x == f.entry
                    } else {
                        successors(f, order@).contains(x as usize) && !visited@[x]
                    }) by {
                    lemma_successors_push(f, old_order, id, x as usize);
                }
            }
            let ghost blocks_before = blocks@;
            blocks.set(id, Some(BlockModel { ty: block.ty, instrs: instructions }));
            proof {
                assert(blocks@[id as int]->0@.instrs =~= f.blocks[id as int].instrs);
                assert forall|b: int| 0 <= b < n && #[trigger] blocks@[b] is Some implies blocks@[b]->0@
                    == f.blocks[b] by {
                    if b != id {
                        assert(blocks@[b] == blocks_before[b]);
                    }
                }
            }
        }
        proof {
            assert(f.entry < n);
            assert(!pending@[f.entry as int]);
            assert(order@.len() > 0);
            assert forall|x: usize| successors(f, order@).contains(x) implies order@.contains(x) by {
                let k = choose|k: int|
                    0 <= k < order@.len() && #[trigger] instrs_targets(f.blocks[order@[k] as int].instrs).contains(
                        x,
                    );
                assert(order@[k] < n);
                assert(x < n);
                assert(!pending@[x as int]);
            }
        }
        ScannedFunction { entry: source.entry, blocks, order, params, results }
    }
}

/// An instruction of a rewritten function.
#[derive(Debug, Clone, PartialEq, Eq)]
pub enum Emit {
    Block { seq: usize },
    Loop { seq: usize },
    Br { block: usize },
    BrIf { block: usize },
    BrTable { blocks: Vec<usize>, default: usize },
    BrOnCast { block: usize, cast: usize },
    BrOnCastFail { block: usize, cast: usize },
    BrOnNull { block: usize },
    BrOnNonNull { block: usize },
    Call { func: usize },
    /// Read the parameter at this index.
    ArgGet { arg: usize },
    /// Store into the result local at this index.
    ResultSet { result: usize },
    /// Read the result local at this index.
    ResultGet { result: usize },
    Const { value: ConstValue },
    Other { op: usize },
}

/// The mathematical value of an [`Emit`].
pub enum EmitView {
    Block { seq: usize },
    Loop { seq: usize },
    Br { block: usize },
    BrIf { block: usize },
    BrTable { blocks: Seq<usize>, default: usize },
    BrOnCast { block: usize, cast: usize },
    BrOnCastFail { block: usize, cast: usize },
    BrOnNull { block: usize },
    BrOnNonNull { block: usize },
    Call { func: usize },
    ArgGet { arg: usize },
    ResultSet { result: usize },
    ResultGet { result: usize },
    Const { value: ConstValue },
    Other { op: usize },
}

impl View for Emit {
    type V = EmitView;

    open spec fn view(&self) -> EmitView {
        match self {
            Emit::Block { seq } => EmitView::Block { seq: *seq },
            Emit::Loop { seq } => EmitView::Loop { seq: *seq },
            Emit::Br { block } => EmitView::Br { block: *block },
            Emit::BrIf { block } => EmitView::BrIf { block: *block },
            Emit::BrTable { blocks, default } => EmitView::BrTable { blocks: blocks@, default: *default },
            Emit::BrOnCast { block, cast } => EmitView::BrOnCast { block: *block, cast: *cast },
            Emit::BrOnCastFail { block, cast } => EmitView::BrOnCastFail { block: *block, cast: *cast },
            Emit::BrOnNull { block } => EmitView::BrOnNull { block: *block },
            Emit::BrOnNonNull { block } => EmitView::BrOnNonNull { block: *block },
            Emit::Call { func } => EmitView::Call { func: *func },
            Emit::ArgGet { arg } => EmitView::ArgGet { arg: *arg },
            Emit::ResultSet { result } => EmitView::ResultSet { result: *result },
            Emit::ResultGet { result } => EmitView::ResultGet { result: *result },
            Emit::Const { value } => EmitView::Const { value: *value },
            Emit::Other { op } => EmitView::Other { op: *op },
        }
    }
}

/// The views of a list of emitted instructions.
pub open spec fn emits_view(instrs: Seq<Emit>) -> Seq<EmitView> {
    instrs.map_values(|e: Emit| e@)
}

/// A block of a rewritten function other than its body.
#[derive(Debug, Clone, PartialEq, Eq)]
pub struct EmittedSeq {
    /// The type of the block, by the handle of the source block's type.
    pub ty: usize,
    pub instrs: Vec<Emit>,
}

/// A rewritten function.  Its blocks are numbered: the body is 0 and
/// `seqs[k]` is `k + 1`.  The parameter at index `k` has type `params[k]`,
/// and the result local at index `k` has type `results[k]`.
#[derive(Debug, Clone, PartialEq, Eq)]
pub struct RewrittenFunction {
    pub name: Vec<u8>,
    pub params: Vec<ValType>,
    pub results: Vec<ValType>,
    pub body: Vec<Emit>,
    pub seqs: Vec<EmittedSeq>,
}

/// The number of helper calls of one direction in `instrs`.
pub open spec fn call_count(instrs: Seq<InstrView>, helpers: Seq<Option<HelperFunctionDirection>>, input: bool) -> nat {
    if input {
        inputs_of(instrs, helpers).len()
    } else {
        outputs_of(instrs, helpers).len()
    }
}

impl ScannedFunction {
    /// Block `b` was reached by the scan.
    pub open spec fn has_block(self, b: int) -> bool {
        0 <= b < self.blocks@.len() && self.blocks@[b] is Some
    }

    /// The instructions of block `b`, or none if it was not reached.
    pub open spec fn block_instrs(self, b: int) -> Seq<InstrView> {
        if self.has_block(b) {
            self.blocks@[b]->0@.instrs
        } else {
            seq![]
        }
    }

    /// The number of helper calls of one direction in the reached blocks
    /// below `b`.
    pub open spec fn calls_below(self, helpers: Seq<Option<HelperFunctionDirection>>, input: bool, b: int) -> nat
        decreases b,
    {
        if b <= 0 {
            0
        } else {
            self.calls_below(helpers, input, b - 1) + call_count(self.block_instrs(b - 1), helpers, input)
        }
    }

    /// The number of reached blocks below `b`, the entry aside.
    pub open spec fn others_below(self, b: int) -> nat
        decreases b,
    {
        if b <= 0 {
            0
        } else {
            self.others_below(b - 1) + if b - 1 != self.entry && self.has_block(b - 1) {
                1nat
            } else {
                0nat
            }
        }
    }

    /// The number of block `b` in the rewritten function: the entry becomes
    /// the body (0), the other reached blocks follow in increasing order.
    pub open spec fn new_index(self, b: int) -> int {
        if b == self.entry {
            0
        } else {
            1 + self.others_below(b) as int
        }
    }

    /// Block `b` becomes block `k + 1` of the rewritten function.
    pub open spec fn is_origin(self, b: int, k: int) -> bool {
        &&& self.has_block(b)
        &&& b != self.entry
        &&& self.new_index(b) == k + 1
    }

    /// Some reached block becomes block `k + 1` of the rewritten function.
    pub open spec fn has_origin(self, k: int) -> bool {
        exists|b: int| #[trigger] self.is_origin(b, k)
    }

    /// The scan reached the entry and every block that a reached block
    /// names, and the parameters and results count the helper calls of the
    /// reached blocks.
    #[verifier::opaque]
    pub open spec fn wf(self, helpers: Seq<Option<HelperFunctionDirection>>) -> bool {
        &&& self.has_block(self.entry as int)
        &&& forall|b: int, t: usize|
            self.has_block(b) && #[trigger] instrs_targets(self.block_instrs(b)).contains(t)
                ==> self.has_block(t as int)
        &&& self.params@.len() == self.calls_below(helpers, true, self.blocks@.len() as int)
        &&& self.results@.len() == self.calls_below(helpers, false, self.blocks@.len() as int)
    }

    /// Instruction `i` of the rewritten function, where `arg` and `res` are
    /// the numbers of input and output helper calls that come before it.
    pub open spec fn rewrite_instr(
        self,
        i: InstrView,
        helpers: Seq<Option<HelperFunctionDirection>>,
        arg: int,
        res: int,
    ) -> EmitView {
        match i {
            InstrView::Block { seq } => EmitView::Block { seq: self.new_index(seq as int) as usize },
            InstrView::Loop { seq } => EmitView::Loop { seq: self.new_index(seq as int) as usize },
            InstrView::Br { block } => EmitView::Br { block: self.new_index(block as int) as usize },
            InstrView::BrIf { block } => EmitView::BrIf { block: self.new_index(block as int) as usize },
            InstrView::BrTable { blocks, default } => EmitView::BrTable {
                blocks: blocks.map_values(|t: usize| self.new_index(t as int) as usize),
                default: self.new_index(default as int) as usize,
            },
            InstrView::BrOnCast { block, cast } => EmitView::BrOnCast {
                block: self.new_index(block as int) as usize,
                cast,
            },
            InstrView::BrOnCastFail { block, cast } => EmitView::BrOnCastFail {
                block: self.new_index(block as int) as usize,
                cast,
            },
            InstrView::BrOnNull { block } => EmitView::BrOnNull {
                block: self.new_index(block as int) as usize,
            },
            InstrView::BrOnNonNull { block } => EmitView::BrOnNonNull {
                block: self.new_index(block as int) as usize,
            },
            InstrView::Call { func } => match helper_of(helpers, func) {
                Some(HelperFunctionDirection::Input(_)) => EmitView::ArgGet { arg: arg as usize },
                Some(HelperFunctionDirection::Output(_)) => EmitView::ResultSet { result: res as usize },
                None => EmitView::Call { func },
            },
            InstrView::Const { value } => EmitView::Const { value },
            InstrView::Other { op } => EmitView::Other { op },
        }
    }

    /// The rewritten instructions of reached block `b`: the helper calls
    /// become reads of the next parameters and stores into the next result
    /// locals, counted over the blocks in increasing order, and the blocks
    /// that instructions name are renumbered.
    #[verifier::opaque]
    pub open spec fn emitted(self, helpers: Seq<Option<HelperFunctionDirection>>, b: int) -> Seq<EmitView> {
        let instrs = self.block_instrs(b);
        Seq::new(
            instrs.len(),
            |i: int|
                self.rewrite_instr(
                    instrs[i],
                    helpers,
                    (self.calls_below(helpers, true, b) + inputs_of(instrs.take(i), helpers).len()) as int,
                    (self.calls_below(helpers, false, b) + outputs_of(instrs.take(i), helpers).len()) as int,
                ),
        )
    }
}

/// Reads of the result locals `0..n`, in order.
pub open spec fn result_gets(n: nat) -> Seq<EmitView> {
    Seq::new(n, |k: int| EmitView::ResultGet { result: k as usize })
}

/// Counting helper calls over a prefix never exceeds the count over the
/// whole list.
proof fn lemma_prefix_count(instrs: Seq<InstrView>, helpers: Seq<Option<HelperFunctionDirection>>, i: int)
    requires
        0 <= i <= instrs.len(),
    ensures
        inputs_of(instrs.take(i), helpers).len() <= inputs_of(instrs, helpers).len(),
        outputs_of(instrs.take(i), helpers).len() <= outputs_of(instrs, helpers).len(),
    decreases instrs.len() - i,
{
    if i < instrs.len() {
        lemma_inputs_of_step(instrs, helpers, i);
        lemma_prefix_count(instrs, helpers, i + 1);
    } else {
        assert(instrs.take(i) =~= instrs);
    }
}

/// The calls below `b` and in `b` are among the calls below `c` when `b < c`.
proof fn lemma_calls_below_mono(s: ScannedFunction, helpers: Seq<Option<HelperFunctionDirection>>, input: bool, b: int, c: int)
    requires
        0 <= b < c,
    ensures
        s.calls_below(helpers, input, b) + call_count(s.block_instrs(b), helpers, input) <= s.calls_below(
            helpers,
            input,
            c,
        ),
    decreases c - b,
{
    if c > b + 1 {
        lemma_calls_below_mono(s, helpers, input, b, c - 1);
    }
}

/// The other blocks below `b` are at most `b`, and grow with `b`.
proof fn lemma_others_below_mono(s: ScannedFunction, b: int, c: int)
    requires
        0 <= b <= c,
    ensures
        s.others_below(b) <= s.others_below(c),
        s.others_below(c) <= s.others_below(b) + (c - b),
    decreases c - b,
{
    if c > b {
        lemma_others_below_mono(s, b, c - 1);
    }
}

impl ScannedFunction {
    /// Rewrites one instruction, renumbering the blocks it names through
    /// `mapping` and turning a helper call into a read of parameter `*arg`
    /// or a store into result local `*res`, whose counter it then advances.
    fn emit_instr(
        &self,
        instr: &Instr,
        mapping: &Vec<usize>,
        helpers: &Vec<Option<HelperFunctionDirection>>,
        arg: &mut usize,
        res: &mut usize,
    ) -> (e: Emit)
        requires
            forall|t: usize|
                #[trigger] targets(instr@).contains(t) ==> t < mapping@.len() && mapping@[t as int]
                    == self.new_index(t as int),
            *old(arg) + input_of(instr@, helpers@).len() <= usize::MAX,
            *old(res) + output_of(instr@, helpers@).len() <= usize::MAX,
        ensures
            e@ == self.rewrite_instr(instr@, helpers@, *old(arg) as int, *old(res) as int),
            *final(arg) == *old(arg) + input_of(instr@, helpers@).len(),
            *final(res) == *old(res) + output_of(instr@, helpers@).len(),
    {
        match instr {
            Instr::Block { seq } => {
                assert(targets(instr@)[0] == *seq);
                assert(targets(instr@).contains(*seq));
                Emit::Block { seq: mapping[*seq] }
            },
            Instr::Loop { seq } => {
                assert(targets(instr@)[0] == *seq);
                assert(targets(instr@).contains(*seq));
                Emit::Loop { seq: mapping[*seq] }
            },
            Instr::Br { block } => {
                assert(targets(instr@)[0] == *block);
                assert(targets(instr@).contains(*block));
                Emit::Br { block: mapping[*block] }
            },
            Instr::BrIf { block } => {
                assert(targets(instr@)[0] == *block);
                assert(targets(instr@).contains(*block));
                Emit::BrIf { block: mapping[*block] }
            },
            Instr::BrTable { blocks, default } => {
                let mut mapped: Vec<usize> = Vec::new();
                let mut k: usize = 0;
                while k < blocks.len()
                    invariant
                        k <= blocks.len(),
                        targets(instr@) == blocks@.push(*default),
                        forall|t: usize|
                            #[trigger] targets(instr@).contains(t) ==> t < mapping@.len()
                                && mapping@[t as int] == self.new_index(t as int),
                        mapped@ == blocks@.take(k as int).map_values(
                            |t: usize| self.new_index(t as int) as usize,
                        ),
                    decreases blocks.len() - k,
                {
                    let t = blocks[k];
                    assert(targets(instr@)[k as int] == t);
                    assert(targets(instr@).contains(t));
                    mapped.push(mapping[t]);
                    k = k + 1;
                    assert(mapped@ =~= blocks@.take(k as int).map_values(
                        |t: usize| self.new_index(t as int) as usize,
                    ));
                }
                assert(blocks@.take(blocks@.len() as int) =~= blocks@);
                assert(targets(instr@)[blocks@.len() as int] == *default);
                assert(targets(instr@).contains(*default));
                Emit::BrTable { blocks: mapped, default: mapping[*default] }
            },
            Instr::BrOnCast { block, cast } => {
                assert(targets(instr@)[0] == *block);
                assert(targets(instr@).contains(*block));
                Emit::BrOnCast { block: mapping[*block], cast: *cast }
            },
            Instr::BrOnCastFail { block, cast } => {
                assert(targets(instr@)[0] == *block);
                assert(targets(instr@).contains(*block));
                Emit::BrOnCastFail { block: mapping[*block], cast: *cast }
            },
            Instr::BrOnNull { block } => {
                assert(targets(instr@)[0] == *block);
                assert(targets(instr@).contains(*block));
                Emit::BrOnNull { block: mapping[*block] }
            },
            Instr::BrOnNonNull { block } => {
                assert(targets(instr@)[0] == *block);
                assert(targets(instr@).contains(*block));
                Emit::BrOnNonNull { block: mapping[*block] }
            },
            Instr::Call { func } => {
                let dir = if *func < helpers.len() {
                    helpers[*func]
                } else {
                    None
                };
                match dir {
                    Some(HelperFunctionDirection::Input(_)) => {
                        let e = Emit::ArgGet { arg: *arg };
                        *arg = *arg + 1;
                        e
                    },
                    Some(HelperFunctionDirection::Output(_)) => {
                        let e = Emit::ResultSet { result: *res };
                        *res = *res + 1;
                        e
                    },
                    None => Emit::Call { func: *func },
                }
            },
            Instr::Const { value } => Emit::Const { value: *value },
            Instr::Other { op } => Emit::Other { op: *op },
        }
    }

    /// `res` is the function that [`ScannedFunction::build`] makes of this
    /// scan under the name `identifier`: its parameters and results are the
    /// scanned ones; its body is the rewritten entry followed by reads of all
    /// result locals; and each other reached block, rewritten, is the block
    /// numbered [`ScannedFunction::new_index`], with nothing besides.
    pub open spec fn built(
        self,
        identifier: Seq<u8>,
        helpers: Seq<Option<HelperFunctionDirection>>,
        res: RewrittenFunction,
    ) -> bool {
        &&& res.name@ == identifier
        &&& res.params@ == self.params@
        &&& res.results@ == self.results@
        &&& emits_view(res.body@) == self.emitted(helpers, self.entry as int) + result_gets(
            self.results@.len(),
        )
        &&& res.seqs@.len() == self.others_below(self.blocks@.len() as int)
        &&& forall|b: int|
            #![trigger self.has_block(b)]
            self.has_block(b) && b != self.entry ==> {
                let k = self.new_index(b) - 1;
                &&& 0 <= k < res.seqs@.len()
                &&& res.seqs@[k].ty == self.blocks@[b]->0.ty
                &&& emits_view(res.seqs@[k].instrs@) == self.emitted(helpers, b)
            }
        &&& forall|k: int| 0 <= k < res.seqs@.len() ==> #[trigger] self.has_origin(k)
    }

    /// The number that each reached block gets in the rewritten function,
    /// at the block's index.
    fn block_mapping(&self) -> (mapping: Vec<usize>)
        ensures
            mapping@.len() == self.blocks@.len(),
            forall|c: int| self.has_block(c) ==> #[trigger] mapping@[c] == self.new_index(c),
    {
        let n = self.blocks.len();
        let mut mapping: Vec<usize> = Vec::new();
        let mut counter: usize = 0;
        let mut b: usize = 0;
        while b < n
            invariant
                n == self.blocks@.len(),
                b <= n,
                mapping@.len() == b,
                counter == self.others_below(b as int),
                counter <= b,
                forall|c: int| 0 <= c < b && self.has_block(c) ==> #[trigger] mapping@[c] == self.new_index(c),
            decreases n - b,
        {
            if b == self.entry {
                mapping.push(0);
            } else if self.blocks[b].is_some() {
                counter = counter + 1;
                mapping.push(counter);
            } else {
                mapping.push(0);
            }
            b = b + 1;
        }
        mapping
    }

    /// The rewritten instructions of reached block `b`; the counters of
    /// parameters and result locals read and stored so far advance past the
    /// block's helper calls.
    fn emit_block(
        &self,
        b: usize,
        block: &BlockModel,
        mapping: &Vec<usize>,
        helpers: &Vec<Option<HelperFunctionDirection>>,
        arg_counter: &mut usize,
        result_counter: &mut usize,
    ) -> (out: Vec<Emit>)
        requires
            self.wf(helpers@),
            b < self.blocks@.len(),
            self.blocks@[b as int] == Some(*block),
            mapping@.len() == self.blocks@.len(),
            forall|c: int| self.has_block(c) ==> #[trigger] mapping@[c] == self.new_index(c),
            *old(arg_counter) == self.calls_below(helpers@, true, b as int),
            *old(result_counter) == self.calls_below(helpers@, false, b as int),
        ensures
            emits_view(out@) == self.emitted(helpers@, b as int),
            *final(arg_counter) == self.calls_below(helpers@, true, b + 1),
            *final(result_counter) == self.calls_below(helpers@, false, b + 1),
    {
        let n_params = self.params.len();
        let n_results = self.results.len();
        let ghost instrs = self.block_instrs(b as int);
        proof {
            reveal(ScannedFunction::emitted);
            reveal(ScannedFunction::wf);
            assert(self.has_block(b as int));
            if b + 1 < self.blocks@.len() {
                lemma_calls_below_mono(*self, helpers@, true, b as int, self.blocks@.len() as int);
                lemma_calls_below_mono(*self, helpers@, false, b as int, self.blocks@.len() as int);
            }
        }
        let mut out: Vec<Emit> = Vec::new();
        let mut i: usize = 0;
        while i < block.instrs.len()
            invariant
                self.wf(helpers@),
                b < self.blocks@.len(),
                self.has_block(b as int),
                self.blocks@[b as int] == Some(*block),
                instrs == self.block_instrs(b as int),
                instrs.len() == block.instrs@.len(),
                i <= block.instrs.len(),
                mapping@.len() == self.blocks@.len(),
                forall|c: int| self.has_block(c) ==> #[trigger] mapping@[c] == self.new_index(c),
                *arg_counter == self.calls_below(helpers@, true, b as int) + inputs_of(
                    instrs.take(i as int),
                    helpers@,
                ).len(),
                *result_counter == self.calls_below(helpers@, false, b as int) + outputs_of(
                    instrs.take(i as int),
                    helpers@,
                ).len(),
                self.calls_below(helpers@, true, b + 1) <= n_params,
                self.calls_below(helpers@, false, b + 1) <= n_results,
                emits_view(out@) == self.emitted(helpers@, b as int).take(i as int),
            decreases block.instrs.len() - i,
        {
            let instr = &block.instrs[i];
            proof {
                reveal(ScannedFunction::wf);
                assert(instrs[i as int] == instr@);
                lemma_inputs_of_step(instrs, helpers@, i as int);
                lemma_prefix_count(instrs, helpers@, i + 1);
                assert forall|t: usize| #[trigger] targets(instr@).contains(t) implies t
                    < mapping@.len() && mapping@[t as int] == self.new_index(t as int) by {
                    assert(instrs_targets(instrs).contains(t));
                    assert(self.has_block(t as int));
                }
            }
            let ghost arg0 = *arg_counter;
            let ghost res0 = *result_counter;
            let e = self.emit_instr(instr, mapping, helpers, arg_counter, result_counter);
            let ghost out0 = out@;
            out.push(e);
            proof {
                reveal(ScannedFunction::emitted);
                assert(emits_view(out@) =~= emits_view(out0).push(e@));
                assert(self.emitted(helpers@, b as int)[i as int] == self.rewrite_instr(
                    instr@,
                    helpers@,
                    arg0 as int,
                    res0 as int,
                ));
                assert(emits_view(out@) =~= self.emitted(helpers@, b as int).take(i + 1));
            }
            i = i + 1;
        }
        proof {
            reveal(ScannedFunction::emitted);
            assert(instrs.take(instrs.len() as int) =~= instrs);
            assert(self.emitted(helpers@, b as int).take(i as int) =~= self.emitted(helpers@, b as int));
        }
        out
    }

    /// Builds the rewritten function: the reached blocks, in increasing
    /// order, become the blocks of the new function (the entry its body),
    /// each helper call a read of the next parameter or a store into the next
    /// result local, and the body ends by reading every result local.
    #[verifier::rlimit(40)]
    pub fn build(&self, identifier: &Vec<u8>, helpers: &Vec<Option<HelperFunctionDirection>>) -> (res:
        RewrittenFunction)
        requires
            self.wf(helpers@),
        ensures
            self.built(identifier@, helpers@, res),
    {
        let n = self.blocks.len();
        let n_results = self.results.len();
        let mapping = self.block_mapping();
        let mut body: Vec<Emit> = Vec::new();
        let mut seqs: Vec<EmittedSeq> = Vec::new();
        let mut arg_counter: usize = 0;
        let mut result_counter: usize = 0;
        let ghost mut origin: Seq<int> = Seq::empty();
        proof {
            assert(self.has_block(self.entry as int)) by {
                reveal(ScannedFunction::wf);
            }
        }
        let mut b: usize = 0;
        while b < n
            invariant
                self.wf(helpers@),
                self.has_block(self.entry as int),
                n == self.blocks@.len(),
                b <= n,
                mapping@.len() == n,
                forall|c: int| self.has_block(c) ==> #[trigger] mapping@[c] == self.new_index(c),
                arg_counter == self.calls_below(helpers@, true, b as int),
                result_counter == self.calls_below(helpers@, false, b as int),
                seqs@.len() == self.others_below(b as int),
                self.entry < b ==> emits_view(body@) == self.emitted(helpers@, self.entry as int),
                forall|c: int|
                    #![trigger self.has_block(c)]
                    0 <= c < b && self.has_block(c) && c != self.entry ==> {
                        let k = self.new_index(c) - 1;
                        &&& 0 <= k < seqs@.len()
                        &&& seqs@[k].ty == self.blocks@[c]->0.ty
                        &&& emits_view(seqs@[k].instrs@) == self.emitted(helpers@, c)
                    },
                origin.len() == seqs@.len(),
                forall|k: int|
                    0 <= k < origin.len() ==> self.has_block(#[trigger] origin[k]) && origin[k] != self.entry
                        && self.new_index(origin[k]) == k + 1,
            decreases n - b,
        {
            match &self.blocks[b] {
                Some(block) => {
                    let out = self.emit_block(b, block, &mapping, helpers, &mut arg_counter, &mut result_counter);
                    if b == self.entry {
                        body = out;
                    } else {
                        let ghost seqs0 = seqs@;
                        seqs.push(EmittedSeq { ty: block.ty, instrs: out });
                        proof {
                            assert(self.new_index(b as int) == seqs0.len() + 1);
                            origin = origin.push(b as int);
                            assert forall|c: int|
                                #![trigger self.has_block(c)]
                                0 <= c < b + 1 && self.has_block(c) && c != self.entry implies {
                                    let k = self.new_index(c) - 1;
                                    &&& 0 <= k < seqs@.len()
                                    &&& seqs@[k].ty == self.blocks@[c]->0.ty
                                    &&& emits_view(seqs@[k].instrs@) == self.emitted(helpers@, c)
                                } by {
                                if c < b {
                                    assert(seqs@[self.new_index(c) - 1] == seqs0[self.new_index(c) - 1]);
                                }
                            }
                        }
                    }
                },
                None => {},
            }
            b = b + 1;
        }
        push_result_gets(&mut body, n_results);
        proof {
            assert forall|k: int| 0 <= k < seqs@.len() implies #[trigger] self.has_origin(k) by {
                assert(self.is_origin(origin[k], k));
            }
        }
        RewrittenFunction {
            name: copy_bytes(identifier),
            params: copy_types(&self.params),
            results: copy_types(&self.results),
            body,
            seqs,
        }
    }
}

/// Appends reads of the result locals `0..n` to `body`.
fn push_result_gets(body: &mut Vec<Emit>, n: usize)
    ensures
        emits_view(final(body)@) == emits_view(old(body)@) + result_gets(n as nat),
{
    let ghost body0 = body@;
    let mut k: usize = 0;
    while k < n
        invariant
            k <= n,
            emits_view(body@) == emits_view(body0) + result_gets(k as nat),
        decreases n - k,
    {
        let ghost before = body@;
        body.push(Emit::ResultGet { result: k });
        assert(emits_view(body@) =~= emits_view(before).push(EmitView::ResultGet { result: k }));
        k = k + 1;
        assert(emits_view(body@) =~= emits_view(body0) + result_gets(k as nat));
    }
}

/// A copy of a list of bytes.
pub fn copy_bytes(v: &Vec<u8>) -> (res: Vec<u8>)
    ensures
        res@ == v@,
{
    let mut res: Vec<u8> = Vec::new();
    let mut i: usize = 0;
    while i < v.len()
        invariant
            i <= v.len(),
            res@ == v@.take(i as int),
        decreases v.len() - i,
    {
        res.push(v[i]);
        i = i + 1;
        assert(res@ =~= v@.take(i as int));
    }
    assert(v@.take(v.len() as int) =~= v@);
    res
}

/// A copy of a list of value types.
pub fn copy_types(v: &Vec<ValType>) -> (res: Vec<ValType>)
    ensures
        res@ == v@,
{
    let mut res: Vec<ValType> = Vec::new();
    let mut i: usize = 0;
    while i < v.len()
        invariant
            i <= v.len(),
            res@ == v@.take(i as int),
        decreases v.len() - i,
    {
        res.push(v[i]);
        i = i + 1;
        assert(res@ =~= v@.take(i as int));
    }
    assert(v@.take(v.len() as int) =~= v@);
    res
}

/// The number of helper calls of one direction in the blocks of `f` below
/// `b` that `order` visits.
pub open spec fn visited_calls_below(
    f: FunctionView,
    order: Seq<usize>,
    helpers: Seq<Option<HelperFunctionDirection>>,
    input: bool,
    b: int,
) -> nat
    decreases b,
{
    if b <= 0 {
        0
    } else {
        visited_calls_below(f, order, helpers, input, b - 1) + if order.contains((b - 1) as usize) {
            call_count(f.blocks[b - 1].instrs, helpers, input)
        } else {
            0
        }
    }
}

/// Visiting one more block adds its calls to the count below every bound
/// above it.
proof fn lemma_visited_calls_push(
    f: FunctionView,
    order: Seq<usize>,
    helpers: Seq<Option<HelperFunctionDirection>>,
    input: bool,
    x: usize,
    b: int,
)
    requires
        !order.contains(x),
        0 <= b <= usize::MAX + 1,
    ensures
        visited_calls_below(f, order.push(x), helpers, input, b) == visited_calls_below(
            f,
            order,
            helpers,
            input,
            b,
        ) + if x < b {
            call_count(f.blocks[x as int].instrs, helpers, input)
        } else {
            0
        },
    decreases b,
{
    if b > 0 {
        lemma_visited_calls_push(f, order, helpers, input, x, b - 1);
        let c = (b - 1) as usize;
        if order.push(x).contains(c) && c != x {
            let k = choose|k: int| 0 <= k < order.push(x).len() && order.push(x)[k] == c;
            assert(k < order.len());
            assert(order[k] == c);
        }
        if order.contains(c) {
            let k = choose|k: int| 0 <= k < order.len() && order[k] == c;
            assert(order.push(x)[k] == c);
        }
        if c == x {
            assert(order.push(x)[order.len() as int] == x);
        }
    }
}

/// The number of calls along a visit is the number of calls in the visited
/// blocks.
proof fn lemma_along_count(
    f: FunctionView,
    order: Seq<usize>,
    helpers: Seq<Option<HelperFunctionDirection>>,
    input: bool,
)
    requires
        order.no_duplicates(),
        forall|k: int| 0 <= k < order.len() ==> #[trigger] order[k] < f.blocks.len(),
        f.blocks.len() <= usize::MAX,
    ensures
        (if input {
            inputs_along(f, order, helpers).len()
        } else {
            outputs_along(f, order, helpers).len()
        }) == visited_calls_below(f, order, helpers, input, f.blocks.len() as int),
    decreases order.len(),
{
    if order.len() == 0 {
        lemma_visited_calls_none(f, order, helpers, input, f.blocks.len() as int);
    } else {
        let init = order.drop_last();
        let x = order.last();
        assert(init.push(x) =~= order);
        assert(init.no_duplicates());
        assert forall|k: int| 0 <= k < init.len() implies #[trigger] init[k] < f.blocks.len() by {
            assert(init[k] == order[k]);
        }
        lemma_along_count(f, init, helpers, input);
        if init.contains(x) {
            let k = choose|k: int| 0 <= k < init.len() && init[k] == x;
            assert(order[k] == order[order.len() - 1]);
        }
        assert(order[order.len() - 1] < f.blocks.len());
        lemma_visited_calls_push(f, init, helpers, input, x, f.blocks.len() as int);
    }
}

/// Nothing is counted for an empty visit.
proof fn lemma_visited_calls_none(
    f: FunctionView,
    order: Seq<usize>,
    helpers: Seq<Option<HelperFunctionDirection>>,
    input: bool,
    b: int,
)
    requires
        order.len() == 0,
    ensures
        visited_calls_below(f, order, helpers, input, b) == 0,
    decreases b,
{
    if b > 0 {
        lemma_visited_calls_none(f, order, helpers, input, b - 1);
    }
}

/// A scan counts the calls of the blocks it visited.
proof fn lemma_scan_calls_below(
    s: ScannedFunction,
    f: FunctionView,
    helpers: Seq<Option<HelperFunctionDirection>>,
    input: bool,
    b: int,
)
    requires
        s.scan_of(f, helpers),
        b <= f.blocks.len(),
    ensures
        s.calls_below(helpers, input, b) == visited_calls_below(f, s.order@, helpers, input, b),
    decreases b,
{
    if b > 0 {
        lemma_scan_calls_below(s, f, helpers, input, b - 1);
        let c = b - 1;
        if !s.has_block(c) {
            assert(inputs_of(Seq::<InstrView>::empty(), helpers).len() == 0);
            assert(outputs_of(Seq::<InstrView>::empty(), helpers).len() == 0);
            assert(s.blocks@[c] is None);
        } else {
            assert(s.blocks@[c] is Some);
        }
    }
}

/// Every block that a scan order visits exists.
proof fn lemma_order_in_range(f: FunctionView, order: Seq<usize>, k: int)
    requires
        function_wf(f),
        is_scan_order(f, order),
        0 <= k < order.len(),
    ensures
        order[k] < f.blocks.len(),
    decreases k,
{
    if k > 0 {
        assert(is_next(f, order.take(k), order[k]));
        let x = order[k];
        let j = choose|j: int|
            0 <= j < order.take(k).len() && #[trigger] instrs_targets(
                f.blocks[order.take(k)[j] as int].instrs,
            ).contains(x);
        lemma_order_in_range(f, order, j);
        assert(order.take(k)[j] == order[j]);
    }
}

/// A scan reaches the entry and every block that a reached block names, and
/// its parameters and results count the helper calls of the reached blocks:
/// what [`ScannedFunction::build`] needs.
pub proof fn lemma_scan_is_well_formed(
    s: ScannedFunction,
    f: FunctionView,
    helpers: Seq<Option<HelperFunctionDirection>>,
)
    requires
        function_wf(f),
        s.scan_of(f, helpers),
    ensures
        s.wf(helpers),
{
    reveal(ScannedFunction::wf);
    assert(s.blocks@.len() == s.blocks.len());
    assert(s.order@[0] == f.entry);
    assert(s.blocks@[f.entry as int] is Some);
    assert forall|b: int, t: usize|
        s.has_block(b) && #[trigger] instrs_targets(s.block_instrs(b)).contains(t) implies s.has_block(
        t as int,
    ) by {
        assert(s.blocks@[b] is Some);
        assert(s.blocks@[b]->0@ == f.blocks[b]);
        assert(s.block_instrs(b) == f.blocks[b].instrs);
        assert(s.order@.contains(b as usize));
        let k = choose|k: int| 0 <= k < s.order@.len() && s.order@[k] == b as usize;
        assert(s.order@[k] as int == b);
        assert(instrs_targets(f.blocks[s.order@[k] as int].instrs).contains(t));
        assert(successors(f, s.order@).contains(t));
        assert(t < f.blocks.len());
        assert(s.blocks@[t as int] is Some);
    }
    assert forall|k: int| 0 <= k < s.order@.len() implies #[trigger] s.order@[k] < f.blocks.len() by {
        lemma_order_in_range(f, s.order@, k);
    }
    lemma_along_count(f, s.order@, helpers, true);
    lemma_along_count(f, s.order@, helpers, false);
    lemma_scan_calls_below(s, f, helpers, true, f.blocks.len() as int);
    lemma_scan_calls_below(s, f, helpers, false, f.blocks.len() as int);
}

/// Scans `source` and builds its rewriting under the name `identifier`.
pub fn rewrite_function(
    source: &LocalFunctionModel,
    identifier: &Vec<u8>,
    helpers: &Vec<Option<HelperFunctionDirection>>,
) -> (res: (ScannedFunction, RewrittenFunction))
    requires
        function_wf(source@),
    ensures
        res.0.scan_of(source@, helpers@),
        res.0.built(identifier@, helpers@, res.1),
{
    let scanned = ScannedFunction::scan(source, helpers);
    proof {
        lemma_scan_is_well_formed(scanned, source@, helpers@);
    }
    let built = scanned.build(identifier, helpers);
    (scanned, built)
}

/// The parameter (`input`) or result local (otherwise) that an emitted
/// instruction reads or stores into, if it is such a read or store.
pub open spec fn slot(e: EmitView, input: bool) -> Option<usize> {
    match e {
        EmitView::ArgGet { arg } => if input {
            Some(arg)
        } else {
            None
        },
        EmitView::ResultSet { result } => if input {
            None
        } else {
            Some(result)
        },
        _ => None,
    }
}

/// The helper calls of one direction in `instrs`.
pub open spec fn calls_of(instrs: Seq<InstrView>, helpers: Seq<Option<HelperFunctionDirection>>, input: bool) -> Seq<
    ValType,
> {
    if input {
        inputs_of(instrs, helpers)
    } else {
        outputs_of(instrs, helpers)
    }
}

/// The helper call of one direction that `i` makes, if it makes one.
pub open spec fn call_of(i: InstrView, helpers: Seq<Option<HelperFunctionDirection>>, input: bool) -> Seq<ValType> {
    if input {
        input_of(i, helpers)
    } else {
        output_of(i, helpers)
    }
}

/// Counting calls of one direction over prefixes never goes down, and goes
/// up past a call.
proof fn lemma_calls_of_mono(instrs: Seq<InstrView>, helpers: Seq<Option<HelperFunctionDirection>>, input: bool, i: int, j: int)
    requires
        0 <= i <= j <= instrs.len(),
    ensures
        calls_of(instrs.take(i), helpers, input).len() <= calls_of(instrs.take(j), helpers, input).len(),
        i < j && call_of(instrs[i], helpers, input).len() > 0 ==> calls_of(instrs.take(i), helpers, input).len() + 1
            <= calls_of(instrs.take(j), helpers, input).len(),
    decreases j - i,
{
    if i < j {
        lemma_inputs_of_step(instrs, helpers, j - 1);
        lemma_calls_of_mono(instrs, helpers, input, i, j - 1);
    }
}

/// A call of one direction makes a list of one type.
proof fn lemma_call_of_len(i: InstrView, helpers: Seq<Option<HelperFunctionDirection>>, input: bool)
    ensures
        call_of(i, helpers, input).len() <= 1,
{
}

/// The instruction that makes the `j`-th call of one direction among the
/// first `i` instructions.
proof fn lemma_find_call(instrs: Seq<InstrView>, helpers: Seq<Option<HelperFunctionDirection>>, input: bool, j: int, i: int) -> (p: int)
    requires
        0 <= i <= instrs.len(),
        0 <= j < calls_of(instrs.take(i), helpers, input).len(),
    ensures
        0 <= p < i,
        calls_of(instrs.take(p), helpers, input).len() == j,
        call_of(instrs[p], helpers, input).len() > 0,
    decreases i,
{
    lemma_inputs_of_step(instrs, helpers, i - 1);
    lemma_call_of_len(instrs[i - 1], helpers, input);
    if j < calls_of(instrs.take(i - 1), helpers, input).len() {
        lemma_find_call(instrs, helpers, input, j, i - 1)
    } else {
        i - 1
    }
}

impl ScannedFunction {
    /// The block whose calls of one direction include the `k`-th one.
    proof fn lemma_find_block(self, helpers: Seq<Option<HelperFunctionDirection>>, input: bool, k: int, c: int) -> (b: int)
        requires
            0 <= k < self.calls_below(helpers, input, c),
        ensures
            0 <= b < c,
            self.has_block(b),
            self.calls_below(helpers, input, b) <= k < self.calls_below(helpers, input, b) + call_count(
                self.block_instrs(b),
                helpers,
                input,
            ),
        decreases c,
    {
        if k < self.calls_below(helpers, input, c - 1) {
            self.lemma_find_block(helpers, input, k, c - 1)
        } else {
            if !self.has_block(c - 1) {
                assert(inputs_of(Seq::<InstrView>::empty(), helpers).len() == 0);
                assert(outputs_of(Seq::<InstrView>::empty(), helpers).len() == 0);
            }
            c - 1
        }
    }

    /// The slot that instruction `i` of block `b` reads or stores into.
    proof fn lemma_slot_of(self, helpers: Seq<Option<HelperFunctionDirection>>, input: bool, b: int, i: int)
        requires
            0 <= i < self.block_instrs(b).len(),
        ensures
            self.emitted(helpers, b).len() == self.block_instrs(b).len(),
            slot(self.emitted(helpers, b)[i], input) == if call_of(self.block_instrs(b)[i], helpers, input).len() > 0 {
                Some(
                    (self.calls_below(helpers, input, b) + calls_of(
                        self.block_instrs(b).take(i),
                        helpers,
                        input,
                    ).len()) as usize,
                )
            } else {
                None::<usize>
            },
    {
        reveal(ScannedFunction::emitted);
    }
}

/// A rewritten function calls no helper: every helper call has become a
/// read of a parameter or a store into a result local.
pub proof fn lemma_no_helper_call_remains(
    s: ScannedFunction,
    helpers: Seq<Option<HelperFunctionDirection>>,
    b: int,
    i: int,
)
    requires
        0 <= i < s.emitted(helpers, b).len(),
    ensures
        s.emitted(helpers, b)[i] matches EmitView::Call { func } ==> helper_of(helpers, func) is None,
{
    reveal(ScannedFunction::emitted);
}

/// Every parameter (`input`) or every result local (otherwise) of the
/// rewritten function is read or stored into by exactly one instruction of
/// the rewritten blocks, and no other slot is.
pub proof fn lemma_each_slot_used_once(
    s: ScannedFunction,
    helpers: Seq<Option<HelperFunctionDirection>>,
    input: bool,
    k: usize,
)
    requires
        s.wf(helpers),
    ensures
        (k < (if input { s.params@.len() } else { s.results@.len() })) <==> exists|b: int, i: int|
            s.has_block(b) && 0 <= i < s.block_instrs(b).len() && #[trigger] slot(s.emitted(helpers, b)[i], input)
                == Some(k),
        forall|b1: int, i1: int, b2: int, i2: int|
            s.has_block(b1) && 0 <= i1 < s.block_instrs(b1).len() && s.has_block(b2) && 0 <= i2
                < s.block_instrs(b2).len() && #[trigger] slot(s.emitted(helpers, b1)[i1], input) == Some(k)
                && #[trigger] slot(s.emitted(helpers, b2)[i2], input) == Some(k) ==> b1 == b2 && i1 == i2,
{
    reveal(ScannedFunction::wf);
    assert(s.params@.len() == s.params.len());
    assert(s.results@.len() == s.results.len());
    let n = s.blocks@.len() as int;
    let total = if input { s.params@.len() } else { s.results@.len() };
    assert(total == s.calls_below(helpers, input, n));
    if k < total {
        let b = s.lemma_find_block(helpers, input, k as int, n);
        let instrs = s.block_instrs(b);
        assert(instrs.take(instrs.len() as int) =~= instrs);
        let p = lemma_find_call(instrs, helpers, input, k - s.calls_below(helpers, input, b), instrs.len() as int);
        s.lemma_slot_of(helpers, input, b, p);
        assert(slot(s.emitted(helpers, b)[p], input) == Some(k));
    }
    assert forall|b: int, i: int|
        s.has_block(b) && 0 <= i < s.block_instrs(b).len() && #[trigger] slot(s.emitted(helpers, b)[i], input)
            == Some(k) implies k < total by {
        s.lemma_slot_of(helpers, input, b, i);
        let instrs = s.block_instrs(b);
        lemma_calls_of_mono(instrs, helpers, input, i, instrs.len() as int);
        assert(instrs.take(instrs.len() as int) =~= instrs);
        lemma_inputs_of_step(instrs, helpers, i);
        lemma_calls_of_mono(instrs, helpers, input, i + 1, instrs.len() as int);
        if b + 1 < n {
            lemma_calls_below_mono(s, helpers, input, b, n);
        } else {
            lemma_calls_below_mono(s, helpers, input, b, b + 1);
        }
    }
    assert forall|b1: int, i1: int, b2: int, i2: int|
        s.has_block(b1) && 0 <= i1 < s.block_instrs(b1).len() && s.has_block(b2) && 0 <= i2
            < s.block_instrs(b2).len() && #[trigger] slot(s.emitted(helpers, b1)[i1], input) == Some(k)
            && #[trigger] slot(s.emitted(helpers, b2)[i2], input) == Some(k) implies b1 == b2 && i1 == i2 by {
        s.lemma_slot_of(helpers, input, b1, i1);
        s.lemma_slot_of(helpers, input, b2, i2);
        lemma_slot_bound(s, helpers, input, b1, i1);
        lemma_slot_bound(s, helpers, input, b2, i2);
        if b1 < b2 || (b1 == b2 && i1 < i2) {
            lemma_slots_ordered(s, helpers, input, b1, i1, b2, i2);
        } else if b2 < b1 || (b1 == b2 && i2 < i1) {
            lemma_slots_ordered(s, helpers, input, b2, i2, b1, i1);
        }
    }
}

/// The slot of a call lies below the number of parameters or results.
proof fn lemma_slot_bound(
    s: ScannedFunction,
    helpers: Seq<Option<HelperFunctionDirection>>,
    input: bool,
    b: int,
    i: int,
)
    requires
        s.wf(helpers),
        s.has_block(b),
        0 <= i < s.block_instrs(b).len(),
        call_of(s.block_instrs(b)[i], helpers, input).len() > 0,
    ensures
        s.calls_below(helpers, input, b) + calls_of(s.block_instrs(b).take(i), helpers, input).len() < (if input {
            s.params@.len()
        } else {
            s.results@.len()
        }),
{
    reveal(ScannedFunction::wf);
    let n = s.blocks@.len() as int;
    let instrs = s.block_instrs(b);
    lemma_calls_of_mono(instrs, helpers, input, i, instrs.len() as int);
    assert(instrs.take(instrs.len() as int) =~= instrs);
    if b + 1 < n {
        lemma_calls_below_mono(s, helpers, input, b, n);
    } else {
        lemma_calls_below_mono(s, helpers, input, b, b + 1);
    }
}

/// Slots are numbered in increasing order of block, then of position.
proof fn lemma_slots_ordered(
    s: ScannedFunction,
    helpers: Seq<Option<HelperFunctionDirection>>,
    input: bool,
    b1: int,
    i1: int,
    b2: int,
    i2: int,
)
    requires
        s.has_block(b1),
        s.has_block(b2),
        0 <= i1 < s.block_instrs(b1).len(),
        0 <= i2 < s.block_instrs(b2).len(),
        call_of(s.block_instrs(b1)[i1], helpers, input).len() > 0,
        b1 < b2 || (b1 == b2 && i1 < i2),
    ensures
        s.calls_below(helpers, input, b1) + calls_of(s.block_instrs(b1).take(i1), helpers, input).len()
            < s.calls_below(helpers, input, b2) + calls_of(s.block_instrs(b2).take(i2), helpers, input).len(),
{
    let instrs = s.block_instrs(b1);
    if b1 < b2 {
        lemma_calls_of_mono(instrs, helpers, input, i1, instrs.len() as int);
        assert(instrs.take(instrs.len() as int) =~= instrs);
        lemma_calls_below_mono(s, helpers, input, b1, b2);
    } else {
        lemma_calls_of_mono(instrs, helpers, input, i1, i2);
    }
}

/// The helper calls of one direction along a visit.
pub open spec fn calls_along(
    f: FunctionView,
    order: Seq<usize>,
    helpers: Seq<Option<HelperFunctionDirection>>,
    input: bool,
) -> Seq<ValType> {
    if input {
        inputs_along(f, order, helpers)
    } else {
        outputs_along(f, order, helpers)
    }
}

/// The blocks of `order` come in increasing order.
pub open spec fn increasing(order: Seq<usize>) -> bool {
    forall|a: int, b: int| 0 <= a < b < order.len() ==> order[a] < order[b]
}

/// Counting visited calls grows with the bound.
proof fn lemma_visited_calls_mono(
    f: FunctionView,
    order: Seq<usize>,
    helpers: Seq<Option<HelperFunctionDirection>>,
    input: bool,
    c: int,
    d: int,
)
    requires
        0 <= c <= d,
    ensures
        visited_calls_below(f, order, helpers, input, c) <= visited_calls_below(f, order, helpers, input, d),
    decreases d - c,
{
    if c < d {
        lemma_visited_calls_mono(f, order, helpers, input, c, d - 1);
    }
}

/// Above every visited block, counting visited calls gives the same.
proof fn lemma_visited_calls_flat(
    f: FunctionView,
    order: Seq<usize>,
    helpers: Seq<Option<HelperFunctionDirection>>,
    input: bool,
    c: int,
    d: int,
)
    requires
        0 <= c <= d <= usize::MAX + 1,
        forall|k: int| 0 <= k < order.len() ==> #[trigger] order[k] < c,
    ensures
        visited_calls_below(f, order, helpers, input, c) == visited_calls_below(f, order, helpers, input, d),
    decreases d - c,
{
    if c < d {
        lemma_visited_calls_flat(f, order, helpers, input, c, d - 1);
        if order.contains((d - 1) as usize) {
            let k = choose|k: int| 0 <= k < order.len() && order[k] == (d - 1) as usize;
            assert(order[k] < c);
        }
    }
}

/// Along an increasing visit, the calls of each visited block stand at the
/// position that the visited calls below the block give.
proof fn lemma_calls_along_position(
    f: FunctionView,
    order: Seq<usize>,
    helpers: Seq<Option<HelperFunctionDirection>>,
    input: bool,
    k: int,
    j: int,
)
    requires
        increasing(order),
        forall|q: int| 0 <= q < order.len() ==> #[trigger] order[q] < f.blocks.len(),
        f.blocks.len() <= usize::MAX,
        0 <= k < order.len(),
        0 <= j < calls_of(f.blocks[order[k] as int].instrs, helpers, input).len(),
    ensures
        visited_calls_below(f, order, helpers, input, order[k] as int) + j < calls_along(f, order, helpers, input).len(),
        calls_along(f, order, helpers, input)[visited_calls_below(f, order, helpers, input, order[k] as int) + j]
            == calls_of(f.blocks[order[k] as int].instrs, helpers, input)[j],
    decreases order.len(),
{
    let init = order.drop_last();
    let x = order.last();
    let b = order[k];
    assert(init.push(x) =~= order);
    assert(order.no_duplicates());
    assert(init.no_duplicates());
    assert(!init.contains(x)) by {
        if init.contains(x) {
            let q = choose|q: int| 0 <= q < init.len() && init[q] == x;
            assert(order[q] < order[order.len() - 1]);
        }
    }
    assert forall|q: int| 0 <= q < init.len() implies #[trigger] init[q] < f.blocks.len() by {
        assert(init[q] == order[q]);
    }
    assert forall|q: int| 0 <= q < init.len() implies #[trigger] init[q] < x by {
        assert(init[q] == order[q]);
    }
    lemma_along_count(f, init, helpers, input);
    lemma_visited_calls_flat(f, init, helpers, input, x as int, f.blocks.len() as int);
    let along_init = calls_along(f, init, helpers, input);
    assert(calls_along(f, order, helpers, input) == along_init + calls_of(f.blocks[x as int].instrs, helpers, input));
    if k == order.len() - 1 {
        lemma_visited_calls_push(f, init, helpers, input, x, x as int);
    } else {
        assert(init[k] == b);
        assert(b < x);
        lemma_calls_along_position(f, init, helpers, input, k, j);
        lemma_visited_calls_push(f, init, helpers, input, x, b as int);
    }
}

/// When the scan visits the blocks in increasing order, which it does for
/// functions whose blocks are numbered in the order they are entered, the
/// parameter (`input`) or result local (otherwise) that a rewritten helper
/// call reads or stores into has the type that the call hands in or takes.
pub proof fn lemma_slot_types_agree(
    s: ScannedFunction,
    f: FunctionView,
    helpers: Seq<Option<HelperFunctionDirection>>,
    input: bool,
    b: int,
    i: int,
)
    requires
        function_wf(f),
        s.scan_of(f, helpers),
        increasing(s.order@),
        s.has_block(b),
        0 <= i < s.block_instrs(b).len(),
        call_of(s.block_instrs(b)[i], helpers, input).len() > 0,
    ensures
        ({
            let k = s.calls_below(helpers, input, b) + calls_of(s.block_instrs(b).take(i), helpers, input).len();
            &&& k < (if input { s.params@.len() } else { s.results@.len() })
            &&& (if input { s.params@[k as int] } else { s.results@[k as int] }) == call_of(
                s.block_instrs(b)[i],
                helpers,
                input,
            )[0]
        }),
{
    lemma_scan_is_well_formed(s, f, helpers);
    lemma_slot_bound(s, helpers, input, b, i);
    assert(s.blocks@.len() == s.blocks.len());
    assert forall|q: int| 0 <= q < s.order@.len() implies #[trigger] s.order@[q] < f.blocks.len() by {
        lemma_order_in_range(f, s.order@, q);
    }
    assert(s.blocks@[b] is Some);
    assert(s.order@.contains(b as usize));
    let k = choose|k: int| 0 <= k < s.order@.len() && s.order@[k] == b as usize;
    let instrs = s.block_instrs(b);
    assert(instrs == f.blocks[b].instrs);
    let j = calls_of(instrs.take(i), helpers, input).len() as int;
    lemma_inputs_of_step(instrs, helpers, i);
    lemma_calls_of_mono(instrs, helpers, input, i + 1, instrs.len() as int);
    assert(instrs.take(instrs.len() as int) =~= instrs);
    lemma_calls_of_prefix_index(instrs, helpers, input, i + 1, instrs.len() as int);
    let whole = calls_of(instrs, helpers, input);
    let step = calls_of(instrs.take(i + 1), helpers, input);
    assert(step == calls_of(instrs.take(i), helpers, input) + call_of(instrs[i], helpers, input));
    assert(step[j] == call_of(instrs[i], helpers, input)[0]);
    assert(step == whole.take(step.len() as int));
    assert(whole[j] == step[j]);
    assert(s.order@[k] as int == b);
    lemma_calls_along_position(f, s.order@, helpers, input, k, j);
    lemma_scan_calls_below(s, f, helpers, input, b);
    assert(calls_along(f, s.order@, helpers, input) == (if input { s.params@ } else { s.results@ }));
}

/// The calls of a prefix are a prefix of the calls.
proof fn lemma_calls_of_prefix_index(
    instrs: Seq<InstrView>,
    helpers: Seq<Option<HelperFunctionDirection>>,
    input: bool,
    i: int,
    j: int,
)
    requires
        0 <= i <= j <= instrs.len(),
    ensures
        calls_of(instrs.take(i), helpers, input) == calls_of(instrs.take(j), helpers, input).take(
            calls_of(instrs.take(i), helpers, input).len() as int,
        ),
    decreases j - i,
{
    if i < j {
        lemma_calls_of_prefix_index(instrs, helpers, input, i, j - 1);
        lemma_inputs_of_step(instrs, helpers, j - 1);
        lemma_calls_of_mono(instrs, helpers, input, i, j - 1);
        let a = calls_of(instrs.take(i), helpers, input);
        let z = calls_of(instrs.take(j), helpers, input);
        assert(a =~= z.take(a.len() as int));
    } else {
        let a = calls_of(instrs.take(i), helpers, input);
        assert(a =~= a.take(a.len() as int));
    }
}

/// The reached blocks get distinct numbers in the rewritten function: the
/// entry 0, the others numbers from 1 to the count of the other blocks.
pub proof fn lemma_block_numbers_distinct(s: ScannedFunction, b1: int, b2: int)
    requires
        s.has_block(b1),
        s.has_block(b2),
        b1 != b2,
    ensures
        s.new_index(b1) != s.new_index(b2),
        0 <= s.new_index(b1) <= s.others_below(s.blocks@.len() as int),
{
    let n = s.blocks@.len() as int;
    if b1 != s.entry {
        lemma_others_below_mono(s, b1 + 1, n);
    }
    if b1 != s.entry && b2 != s.entry {
        if b1 < b2 {
            lemma_others_below_mono(s, b1 + 1, b2);
        } else {
            lemma_others_below_mono(s, b2 + 1, b1);
        }
    }
}


/// The blocks that an emitted instruction enters or branches to, in the
/// order the instruction names them.
pub open spec fn emit_targets(e: EmitView) -> Seq<usize> {
    match e {
        EmitView::Block { seq } => seq![seq],
        EmitView::Loop { seq } => seq![seq],
        EmitView::Br { block } => seq![block],
        EmitView::BrIf { block } => seq![block],
        EmitView::BrTable { blocks, default } => blocks.push(default),
        EmitView::BrOnCast { block, .. } => seq![block],
        EmitView::BrOnCastFail { block, .. } => seq![block],
        EmitView::BrOnNull { block } => seq![block],
        EmitView::BrOnNonNull { block } => seq![block],
        _ => seq![],
    }
}

/// The opcode of a source instruction, as a number.
pub open spec fn instr_opcode(i: InstrView) -> nat {
    match i {
        InstrView::Block { .. } => 0,
        InstrView::Loop { .. } => 1,
        InstrView::Br { .. } => 2,
        InstrView::BrIf { .. } => 3,
        InstrView::BrTable { .. } => 4,
        InstrView::BrOnCast { .. } => 5,
        InstrView::BrOnCastFail { .. } => 6,
        InstrView::BrOnNull { .. } => 7,
        InstrView::BrOnNonNull { .. } => 8,
        InstrView::Call { .. } => 9,
        InstrView::Const { .. } => 10,
        InstrView::Other { .. } => 11,
    }
}

/// The opcode of an emitted instruction, as a number; the same number as
/// for the source instruction of the same kind.
pub open spec fn emit_opcode(e: EmitView) -> nat {
    match e {
        EmitView::Block { .. } => 0,
        EmitView::Loop { .. } => 1,
        EmitView::Br { .. } => 2,
        EmitView::BrIf { .. } => 3,
        EmitView::BrTable { .. } => 4,
        EmitView::BrOnCast { .. } => 5,
        EmitView::BrOnCastFail { .. } => 6,
        EmitView::BrOnNull { .. } => 7,
        EmitView::BrOnNonNull { .. } => 8,
        EmitView::Call { .. } => 9,
        EmitView::Const { .. } => 10,
        EmitView::Other { .. } => 11,
        EmitView::ArgGet { .. } => 12,
        EmitView::ResultSet { .. } => 13,
        EmitView::ResultGet { .. } => 14,
    }
}

/// The direction of the helper that `i` calls, if it calls one.
pub open spec fn helper_call(i: InstrView, helpers: Seq<Option<HelperFunctionDirection>>) -> Option<
    HelperFunctionDirection,
> {
    match i {
        InstrView::Call { func } => helper_of(helpers, func),
        _ => None,
    }
}

/// The instructions that reached block `b` has in the rewritten function
/// `res`: the start of the body for the entry, else the block that bears
/// `b`'s new number.
pub open spec fn rewritten_block(s: ScannedFunction, res: RewrittenFunction, b: int) -> Seq<EmitView> {
    if b == s.entry {
        emits_view(res.body@).take(s.block_instrs(b).len() as int)
    } else {
        emits_view(res.seqs@[s.new_index(b) - 1].instrs@)
    }
}

/// What one rewritten instruction keeps of its source instruction.
proof fn lemma_rewrite_instr_keeps(
    s: ScannedFunction,
    x: InstrView,
    helpers: Seq<Option<HelperFunctionDirection>>,
    arg: int,
    res: int,
)
    ensures
        ({
            let e = s.rewrite_instr(x, helpers, arg, res);
            &&& emit_targets(e) == targets(x).map_values(|t: usize| s.new_index(t as int) as usize)
            &&& helper_call(x, helpers) is None ==> emit_opcode(e) == instr_opcode(x)
            &&& helper_call(x, helpers) matches Some(HelperFunctionDirection::Input(_)) ==> e is ArgGet
            &&& helper_call(x, helpers) matches Some(HelperFunctionDirection::Output(_)) ==> e is ResultSet
            &&& (x is Call && helper_call(x, helpers) is None) ==> e == EmitView::Call { func: x->Call_func }
            &&& x is Const ==> e == EmitView::Const { value: x->Const_value }
            &&& x is Other ==> e == EmitView::Other { op: x->Other_op }
            &&& x is BrOnCast ==> e is BrOnCast && e->BrOnCast_cast == x->BrOnCast_cast
            &&& x is BrOnCastFail ==> e is BrOnCastFail && e->BrOnCastFail_cast == x->BrOnCastFail_cast
        }),
{
    let e = s.rewrite_instr(x, helpers, arg, res);
    let f = |t: usize| s.new_index(t as int) as usize;
    match x {
        InstrView::BrTable { blocks, default } => {
            assert(blocks.push(default).map_values(f) =~= blocks.map_values(f).push(f(default)));
        },
        _ => {
            assert(emit_targets(e) =~= targets(x).map_values(f));
        },
    }
}

/// Every instruction of a reached block keeps its place in the rewritten
/// function: the block bears the new number of its source block (the
/// entry is the body), has as many instructions as its source block, and
/// each instruction names the new numbers of the blocks its source
/// instruction names, in the same order.  An instruction that calls no
/// helper keeps its opcode and its other operands; a call of an input
/// helper becomes a read of a parameter, one of an output helper a store
/// into a result local.
pub proof fn lemma_rewritten_instructions(
    s: ScannedFunction,
    identifier: Seq<u8>,
    helpers: Seq<Option<HelperFunctionDirection>>,
    res: RewrittenFunction,
    b: int,
    i: int,
)
    requires
        s.built(identifier, helpers, res),
        s.has_block(b),
        0 <= i < s.block_instrs(b).len(),
    ensures
        rewritten_block(s, res, b).len() == s.block_instrs(b).len(),
        b != s.entry ==> 0 <= s.new_index(b) - 1 < res.seqs@.len() && res.seqs@[s.new_index(b) - 1].ty
            == s.blocks@[b]->0.ty,
        ({
            let x = s.block_instrs(b)[i];
            let e = rewritten_block(s, res, b)[i];
            &&& emit_targets(e) == targets(x).map_values(|t: usize| s.new_index(t as int) as usize)
            &&& helper_call(x, helpers) is None ==> emit_opcode(e) == instr_opcode(x)
            &&& helper_call(x, helpers) matches Some(HelperFunctionDirection::Input(_)) ==> e is ArgGet
            &&& helper_call(x, helpers) matches Some(HelperFunctionDirection::Output(_)) ==> e is ResultSet
            &&& (x is Call && helper_call(x, helpers) is None) ==> e == EmitView::Call { func: x->Call_func }
            &&& x is Const ==> e == EmitView::Const { value: x->Const_value }
            &&& x is Other ==> e == EmitView::Other { op: x->Other_op }
            &&& x is BrOnCast ==> e is BrOnCast && e->BrOnCast_cast == x->BrOnCast_cast
            &&& x is BrOnCastFail ==> e is BrOnCastFail && e->BrOnCastFail_cast == x->BrOnCastFail_cast
        }),
{
    reveal(ScannedFunction::emitted);
    let instrs = s.block_instrs(b);
    let em = s.emitted(helpers, b);
    assert(em.len() == instrs.len());
    if b == s.entry {
        assert(emits_view(res.body@) == em + result_gets(s.results@.len()));
        assert(rewritten_block(s, res, b) =~= em);
    } else {
        assert(s.has_block(b));
        assert(rewritten_block(s, res, b) == em);
    }
    lemma_rewrite_instr_keeps(
        s,
        instrs[i],
        helpers,
        (s.calls_below(helpers, true, b) + inputs_of(instrs.take(i), helpers).len()) as int,
        (s.calls_below(helpers, false, b) + outputs_of(instrs.take(i), helpers).len()) as int,
    );
}

/// The body of a rewritten function ends by reading every result local,
/// in order: after the rewritten instructions of the entry, the `k`-th
/// instruction reads result local `k`, and nothing follows the last.
pub proof fn lemma_body_returns_results_in_order(
    s: ScannedFunction,
    identifier: Seq<u8>,
    helpers: Seq<Option<HelperFunctionDirection>>,
    res: RewrittenFunction,
)
    requires
        s.built(identifier, helpers, res),
    ensures
        res.results@ == s.results@,
        emits_view(res.body@).len() == s.block_instrs(s.entry as int).len() + res.results@.len(),
        forall|k: int|
            0 <= k < res.results@.len() ==> #[trigger] emits_view(res.body@)[s.block_instrs(
                s.entry as int,
            ).len() + k] == (EmitView::ResultGet { result: k as usize }),
{
    reveal(ScannedFunction::emitted);
    let em = s.emitted(helpers, s.entry as int);
    let n = s.results@.len();
    assert(emits_view(res.body@) == em + result_gets(n));
    assert(em.len() == s.block_instrs(s.entry as int).len());
    assert forall|k: int| 0 <= k < res.results@.len() implies #[trigger] emits_view(res.body@)[s.block_instrs(
        s.entry as int,
    ).len() + k] == (EmitView::ResultGet { result: k as usize }) by {
        assert((em + result_gets(n))[em.len() + k] == result_gets(n)[k]);
    }
}

/// The rewritten function numbers its blocks in the order of their source
/// blocks: the entry is the body (0), and the other reached blocks take the
/// numbers from 1 to the number of rewritten blocks, a higher source block a
/// higher number.
pub proof fn lemma_block_numbering(
    s: ScannedFunction,
    identifier: Seq<u8>,
    helpers: Seq<Option<HelperFunctionDirection>>,
    res: RewrittenFunction,
    b1: int,
    b2: int,
)
    requires
        s.built(identifier, helpers, res),
        s.has_block(b1),
        s.has_block(b2),
    ensures
        s.new_index(s.entry as int) == 0,
        b1 != s.entry ==> 1 <= s.new_index(b1) <= res.seqs@.len(),
        b1 != s.entry && b2 != s.entry && b1 < b2 ==> s.new_index(b1) < s.new_index(b2),
{
    let n = s.blocks@.len() as int;
    if b1 != s.entry {
        lemma_others_below_mono(s, b1 + 1, n);
        if b2 != s.entry && b1 < b2 {
            lemma_others_below_mono(s, b1 + 1, b2);
        }
    }
}


/// Helper calls of one direction are numbered in the order of their
/// blocks, then of their positions: of two such calls in the rewritten
/// blocks, the earlier reads (or stores into) a lower parameter (or result
/// local) than the later.
pub proof fn lemma_slots_increase(
    s: ScannedFunction,
    helpers: Seq<Option<HelperFunctionDirection>>,
    input: bool,
    b1: int,
    i1: int,
    b2: int,
    i2: int,
)
    requires
        s.wf(helpers),
        s.has_block(b1),
        s.has_block(b2),
        0 <= i1 < s.block_instrs(b1).len(),
        0 <= i2 < s.block_instrs(b2).len(),
        call_of(s.block_instrs(b1)[i1], helpers, input).len() > 0,
        call_of(s.block_instrs(b2)[i2], helpers, input).len() > 0,
        b1 < b2 || (b1 == b2 && i1 < i2),
    ensures
        slot(s.emitted(helpers, b1)[i1], input) is Some,
        slot(s.emitted(helpers, b2)[i2], input) is Some,
        slot(s.emitted(helpers, b1)[i1], input)->0 < slot(s.emitted(helpers, b2)[i2], input)->0,
{
    s.lemma_slot_of(helpers, input, b1, i1);
    s.lemma_slot_of(helpers, input, b2, i2);
    lemma_slot_bound(s, helpers, input, b1, i1);
    lemma_slot_bound(s, helpers, input, b2, i2);
    assert(s.params@.len() == s.params.len());
    assert(s.results@.len() == s.results.len());
    lemma_slots_ordered(s, helpers, input, b1, i1, b2, i2);
}

} // verus!

//! What the post-processing of a module does: find the helper imports of the
//! calling support and the functions that stand for them, find the wrapper
//! exports, and rewrite the function of each wrapper.

use vstd::prelude::*;
use crate::naming::{
    bytes_from, bytes_start_with, starts_with, support_prefix, support_prefix_bytes,
    wrapped_prefix, wrapped_prefix_bytes,
};
use crate::rewrite::{rewrite_function, HelperFunctionDirection, RewrittenFunction, ScannedFunction};
use crate::wasm::{
    function_is_well_formed, function_wf, ExportItemModel, FunctionKindModel, ModuleModel,
};

verus! {

/// Import `i` of `m` is a helper import: its name starts with
/// `wasm_calling_support`.
pub open spec fn is_support_import(m: ModuleModel, i: int) -> bool {
    0 <= i < m.import_names@.len() && starts_with(m.import_names@[i]@, support_prefix())
}

/// What the function at index `f` of a module is to the post-processing.
pub enum HelperClass {
    /// Not an import of a helper.
    NotHelper,
    /// A helper import, with its direction.
    Helper(HelperFunctionDirection),
    /// A helper import whose type is not a function type.
    NoSignature,
    /// A helper import that takes no parameter and returns no result.
    NoValue,
}

/// The class of function `f` of `m`: a helper that takes a parameter hands a
/// result out (`Output`, with the first parameter's type); one that takes
/// none hands an argument in (`Input`, with the first result's type).
pub open spec fn classify(m: ModuleModel, f: int) -> HelperClass {
    match m.functions@[f] {
        FunctionKindModel::Import { import, signature } => if is_support_import(m, import as int) {
            match signature {
                Some(sig) => if sig.params@.len() > 0 {
                    HelperClass::Helper(HelperFunctionDirection::Output(sig.params@[0]))
                } else if sig.results@.len() > 0 {
                    HelperClass::Helper(HelperFunctionDirection::Input(sig.results@[0]))
                } else {
                    HelperClass::NoValue
                },
                None => HelperClass::NoSignature,
            }
        } else {
            HelperClass::NotHelper
        },
        _ => HelperClass::NotHelper,
    }
}

/// The direction of function `f` of `m` if it is a helper.
pub open spec fn helper_direction(m: ModuleModel, f: int) -> Option<HelperFunctionDirection> {
    match classify(m, f) {
        HelperClass::Helper(d) => Some(d),
        _ => None,
    }
}

/// Why a module cannot be post-processed.
#[derive(Debug, Clone, Copy, PartialEq, Eq, Structural)]
pub enum PlanError {
    /// The helper import at this function index does not have a function type.
    HelperNotAFunctionType { function: usize },
    /// The helper import at this function index takes no parameter and
    /// returns no result.
    HelperWithoutValue { function: usize },
    /// The wrapper export at this position of the export list does not
    /// export a function.
    WrapperNotAFunction { export: usize },
    /// The wrapper export at this position exports a function that the
    /// module does not define.
    WrapperNotLocal { export: usize },
    /// The wrapper export at this position exports a function that names a
    /// block it does not have.
    WrapperMalformed { export: usize },
}

/// The error that function `f` of `m` causes, if any.
pub open spec fn helper_error(m: ModuleModel, f: int) -> Option<PlanError> {
    match classify(m, f) {
        HelperClass::NoSignature => Some(PlanError::HelperNotAFunctionType { function: f as usize }),
        HelperClass::NoValue => Some(PlanError::HelperWithoutValue { function: f as usize }),
        _ => None,
    }
}

/// The error of the first function below `n` that causes one.
pub open spec fn first_helper_error(m: ModuleModel, n: int) -> Option<PlanError>
    decreases n,
{
    if n <= 0 {
        None
    } else {
        match first_helper_error(m, n - 1) {
            Some(e) => Some(e),
            None => helper_error(m, n - 1),
        }
    }
}

/// Export `k` of `m` is a wrapper: its name starts with `WRAPPED_`.
pub open spec fn is_wrapper(m: ModuleModel, k: int) -> bool {
    starts_with(m.exports@[k].name@, wrapped_prefix())
}

/// The error that export `k` of `m` causes, if it is a wrapper.
pub open spec fn wrapper_error(m: ModuleModel, k: int) -> Option<PlanError> {
    if !is_wrapper(m, k) {
        None
    } else {
        match m.exports@[k].item {
            ExportItemModel::Function { func } => if func < m.functions@.len() {
                match m.functions@[func as int] {
                    FunctionKindModel::Local(lf) => if function_wf(lf@) {
                        None
                    } else {
                        Some(PlanError::WrapperMalformed { export: k as usize })
                    },
                    _ => Some(PlanError::WrapperNotLocal { export: k as usize }),
                }
            } else {
                Some(PlanError::WrapperNotLocal { export: k as usize })
            },
            ExportItemModel::Other => Some(PlanError::WrapperNotAFunction { export: k as usize }),
        }
    }
}

/// The error of the first export below `n` that causes one.
pub open spec fn first_wrapper_error(m: ModuleModel, n: int) -> Option<PlanError>
    decreases n,
{
    if n <= 0 {
        None
    } else {
        match first_wrapper_error(m, n - 1) {
            Some(e) => Some(e),
            None => wrapper_error(m, n - 1),
        }
    }
}

/// Why `m` cannot be post-processed, if it cannot: the helpers are examined
/// first, function by function, then the wrappers, export by export.
pub open spec fn plan_error(m: ModuleModel) -> Option<PlanError> {
    match first_helper_error(m, m.functions@.len() as int) {
        Some(e) => Some(e),
        None => first_wrapper_error(m, m.exports@.len() as int),
    }
}

/// The helper imports below `n`, in increasing order.
pub open spec fn support_imports_below(m: ModuleModel, n: int) -> Seq<usize>
    decreases n,
{
    if n <= 0 {
        seq![]
    } else {
        support_imports_below(m, n - 1) + if is_support_import(m, n - 1) {
            seq![(n - 1) as usize]
        } else {
            seq![]
        }
    }
}

/// The helper functions below `n`, in increasing order.
pub open spec fn helper_functions_below(m: ModuleModel, n: int) -> Seq<usize>
    decreases n,
{
    if n <= 0 {
        seq![]
    } else {
        helper_functions_below(m, n - 1) + if helper_direction(m, n - 1) is Some {
            seq![(n - 1) as usize]
        } else {
            seq![]
        }
    }
}

/// The wrapper exports below `n`, by position, in the module's order.
pub open spec fn wrappers_below(m: ModuleModel, n: int) -> Seq<usize>
    decreases n,
{
    if n <= 0 {
        seq![]
    } else {
        wrappers_below(m, n - 1) + if is_wrapper(m, n - 1) {
            seq![(n - 1) as usize]
        } else {
            seq![]
        }
    }
}

/// A wrapper export and its rewriting.
#[derive(Debug)]
pub struct RewrittenExport {
    /// The position of the wrapper in the export list.
    pub export: usize,
    /// The index of the wrapper export.
    pub export_id: usize,
    /// The function that the wrapper exported.
    pub old_function: usize,
    /// The name under which the rewritten function is exported.
    pub identifier: Vec<u8>,
    pub scanned: ScannedFunction,
    pub function: RewrittenFunction,
}

/// What the post-processing does to a module.
#[derive(Debug)]
pub struct Plan {
    /// The helper imports, to be deleted.
    pub support_imports: Vec<usize>,
    /// The functions that stand for helper imports, to be deleted.
    pub support_functions: Vec<usize>,
    /// The direction of each function, at its index.
    pub helpers: Vec<Option<HelperFunctionDirection>>,
    /// The wrapper exports, each to be replaced by its rewriting.
    pub wrappers: Vec<RewrittenExport>,
}

/// `w` is the rewriting of export `k` of `m` with helper table `helpers`.
pub open spec fn rewrites_export(
    m: ModuleModel,
    helpers: Seq<Option<HelperFunctionDirection>>,
    k: int,
    w: RewrittenExport,
) -> bool {
    &&& w.export == k
    &&& w.export_id == m.exports@[k].id
    &&& m.exports@[k].item == (ExportItemModel::Function { func: w.old_function })
    &&& w.old_function < m.functions@.len()
    &&& w.identifier@ == m.exports@[k].name@.skip(wrapped_prefix().len() as int)
    &&& m.functions@[w.old_function as int] matches FunctionKindModel::Local(lf) && w.scanned.scan_of(
        lf@,
        helpers,
    ) && w.scanned.built(w.identifier@, helpers, w.function)
}

/// The plan of `m` is `p`.
pub open spec fn plans(m: ModuleModel, p: Plan) -> bool {
    &&& p.support_imports@ == support_imports_below(m, m.import_names@.len() as int)
    &&& p.support_functions@ == helper_functions_below(m, m.functions@.len() as int)
    &&& p.helpers@.len() == m.functions@.len()
    &&& forall|f: int| 0 <= f < m.functions@.len() ==> #[trigger] p.helpers@[f] == helper_direction(m, f)
    &&& p.wrappers@.len() == wrappers_below(m, m.exports@.len() as int).len()
    &&& forall|j: int|
        0 <= j < p.wrappers@.len() ==> rewrites_export(
            m,
            p.helpers@,
            wrappers_below(m, m.exports@.len() as int)[j] as int,
            #[trigger] p.wrappers@[j],
        )
}

/// Once a function causes an error, it is the first error below every
/// larger bound.
proof fn lemma_first_helper_error_stays(m: ModuleModel, a: int, b: int)
    requires
        0 <= a <= b,
        first_helper_error(m, a) is Some,
    ensures
        first_helper_error(m, b) == first_helper_error(m, a),
    decreases b - a,
{
    if b > a {
        lemma_first_helper_error_stays(m, a, b - 1);
    }
}

/// Once an export causes an error, it is the first error below every
/// larger bound.
proof fn lemma_first_wrapper_error_stays(m: ModuleModel, a: int, b: int)
    requires
        0 <= a <= b,
        first_wrapper_error(m, a) is Some,
    ensures
        first_wrapper_error(m, b) == first_wrapper_error(m, a),
    decreases b - a,
{
    if b > a {
        lemma_first_wrapper_error_stays(m, a, b - 1);
    }
}

/// The helper imports of `m`.
pub(crate) fn find_support_imports(m: &ModuleModel) -> (res: Vec<usize>)
    ensures
        res@ == support_imports_below(*m, m.import_names@.len() as int),
{
    let prefix = support_prefix_bytes();
    let mut res: Vec<usize> = Vec::new();
    let mut i: usize = 0;
    while i < m.import_names.len()
        invariant
            i <= m.import_names@.len(),
            prefix@ == support_prefix(),
            res@ == support_imports_below(*m, i as int),
        decreases m.import_names@.len() - i,
    {
        if bytes_start_with(&m.import_names[i], &prefix) {
            res.push(i);
        }
        i = i + 1;
        assert(res@ =~= support_imports_below(*m, i as int));
    }
    res
}

/// Whether import `i` of `m` is a helper import.
pub(crate) fn support_import(m: &ModuleModel, i: usize) -> (res: bool)
    ensures
        res == is_support_import(*m, i as int),
{
    if i < m.import_names.len() {
        bytes_start_with(&m.import_names[i], &support_prefix_bytes())
    } else {
        false
    }
}

/// The class of function `f` of `m`, as far as an executable value holds it.
fn classify_function(m: &ModuleModel, f: usize) -> (res: Result<Option<HelperFunctionDirection>, PlanError>)
    requires
        f < m.functions@.len(),
    ensures
        match res {
            Ok(d) => helper_error(*m, f as int) is None && d == helper_direction(*m, f as int),
            Err(e) => helper_error(*m, f as int) == Some(e),
        },
{
    match &m.functions[f] {
        FunctionKindModel::Import { import, signature } => {
            if support_import(m, *import) {
                match signature {
                    Some(sig) => {
                        if sig.params.len() > 0 {
                            Ok(Some(HelperFunctionDirection::Output(sig.params[0])))
                        } else if sig.results.len() > 0 {
                            Ok(Some(HelperFunctionDirection::Input(sig.results[0])))
                        } else {
                            Err(PlanError::HelperWithoutValue { function: f })
                        }
                    },
                    None => Err(PlanError::HelperNotAFunctionType { function: f }),
                }
            } else {
                Ok(None)
            }
        },
        _ => Ok(None),
    }
}

/// The post-processing of `m`: its helper imports and helper functions, and
/// the rewriting of each wrapper export; or why there is none.
pub fn plan(m: &ModuleModel) -> (res: Result<Plan, PlanError>)
    ensures
        match res {
            Ok(p) => plan_error(*m) is None && plans(*m, p),
            Err(e) => plan_error(*m) == Some(e),
        },
{
    let support_imports = find_support_imports(m);
    let nf = m.functions.len();
    let mut helpers: Vec<Option<HelperFunctionDirection>> = Vec::new();
    let mut support_functions: Vec<usize> = Vec::new();
    let mut f: usize = 0;
    while f < nf
        invariant
            nf == m.functions@.len(),
            f <= nf,
            first_helper_error(*m, f as int) is None,
            helpers@.len() == f,
            forall|g: int| 0 <= g < f ==> #[trigger] helpers@[g] == helper_direction(*m, g),
            support_functions@ == helper_functions_below(*m, f as int),
        decreases nf - f,
    {
        match classify_function(m, f) {
            Ok(d) => {
                helpers.push(d);
                if d.is_some() {
                    support_functions.push(f);
                }
            },
            Err(e) => {
                proof {
                    lemma_first_helper_error_stays(*m, f + 1, nf as int);
                }
                return Err(e);
            },
        }
        f = f + 1;
        assert(support_functions@ =~= helper_functions_below(*m, f as int));
    }
    let ne = m.exports.len();
    let prefix = wrapped_prefix_bytes();
    let mut wrappers: Vec<RewrittenExport> = Vec::new();
    let mut k: usize = 0;
    while k < ne
        invariant
            ne == m.exports@.len(),
            k <= ne,
            prefix@ == wrapped_prefix(),
            first_helper_error(*m, nf as int) is None,
            nf == m.functions@.len(),
            first_wrapper_error(*m, k as int) is None,
            helpers@.len() == nf,
            forall|g: int| 0 <= g < nf ==> #[trigger] helpers@[g] == helper_direction(*m, g),
            wrappers@.len() == wrappers_below(*m, k as int).len(),
            forall|j: int|
                0 <= j < wrappers@.len() ==> rewrites_export(
                    *m,
                    helpers@,
                    wrappers_below(*m, k as int)[j] as int,
                    #[trigger] wrappers@[j],
                ),
        decreases ne - k,
    {
        let export = &m.exports[k];
        let ghost before = wrappers_below(*m, k as int);
        if bytes_start_with(&export.name, &prefix) {
            let func = match &export.item {
                ExportItemModel::Function { func } => *func,
                ExportItemModel::Other => {
                    proof {
                        lemma_first_wrapper_error_stays(*m, k + 1, ne as int);
                    }
                    return Err(PlanError::WrapperNotAFunction { export: k });
                },
            };
            if func >= m.functions.len() {
                proof {
                    lemma_first_wrapper_error_stays(*m, k + 1, ne as int);
                }
                return Err(PlanError::WrapperNotLocal { export: k });
            }
            match &m.functions[func] {
                FunctionKindModel::Local(lf) => {
                    if !function_is_well_formed(lf) {
                        proof {
                            lemma_first_wrapper_error_stays(*m, k + 1, ne as int);
                        }
                        return Err(PlanError::WrapperMalformed { export: k });
                    }
                    let identifier = bytes_from(&export.name, prefix.len());
                    let (scanned, function) = rewrite_function(lf, &identifier, &helpers);
                    let ghost w0 = wrappers@;
                    wrappers.push(
                        RewrittenExport {
                            export: k,
                            export_id: export.id,
                            old_function: func,
                            identifier,
                            scanned,
                            function,
                        },
                    );
                    proof {
                        assert(wrappers_below(*m, k + 1) =~= before.push(k));
                        assert forall|j: int| 0 <= j < wrappers@.len() implies rewrites_export(
                            *m,
                            helpers@,
                            wrappers_below(*m, k + 1)[j] as int,
                            #[trigger] wrappers@[j],
                        ) by {
                            if j < w0.len() {
                                assert(wrappers@[j] == w0[j]);
                            }
                        }
                    }
                },
                _ => {
                    proof {
                        lemma_first_wrapper_error_stays(*m, k + 1, ne as int);
                    }
                    return Err(PlanError::WrapperNotLocal { export: k });
                },
            }
        } else {
            proof {
                assert(wrappers_below(*m, k + 1) =~= before);
            }
        }
        k = k + 1;
    }
    Ok(Plan { support_imports, support_functions, helpers, wrappers })
}


/// The wrapper exports below `n` are, in increasing order, exactly the
/// exports below `n` whose names start with `WRAPPED_`.
proof fn lemma_wrappers_below(m: ModuleModel, n: int)
    requires
        n <= usize::MAX + 1,
    ensures
        forall|j: int|
            0 <= j < wrappers_below(m, n).len() ==> 0 <= #[trigger] wrappers_below(m, n)[j] < n
                && starts_with(m.exports@[wrappers_below(m, n)[j] as int].name@, wrapped_prefix()),
        forall|k: int|
            0 <= k < n && starts_with(#[trigger] m.exports@[k].name@, wrapped_prefix()) ==> wrappers_below(
                m,
                n,
            ).contains(k as usize),
        forall|a: int, b: int|
            0 <= a < b < wrappers_below(m, n).len() ==> wrappers_below(m, n)[a] < wrappers_below(m, n)[b],
    decreases n,
{
    if n > 0 {
        lemma_wrappers_below(m, n - 1);
        let before = wrappers_below(m, n - 1);
        let after = wrappers_below(m, n);
        if is_wrapper(m, n - 1) {
            assert(after =~= before.push((n - 1) as usize));
            assert(after[before.len() as int] == (n - 1) as usize);
        } else {
            assert(after =~= before);
        }
        assert forall|k: int|
            0 <= k < n && starts_with(#[trigger] m.exports@[k].name@, wrapped_prefix()) implies after.contains(
            k as usize,
        ) by {
            if k < n - 1 {
                let j = choose|j: int| 0 <= j < before.len() && before[j] == k as usize;
                assert(after[j] == before[j]);
            }
        }
    }
}

/// The helper functions below `n` are, in increasing order, exactly the
/// functions below `n` that have a helper direction.
proof fn lemma_helper_functions_below(m: ModuleModel, n: int)
    requires
        n <= usize::MAX + 1,
    ensures
        forall|j: int|
            0 <= j < helper_functions_below(m, n).len() ==> 0 <= #[trigger] helper_functions_below(m, n)[j] < n
                && helper_direction(m, helper_functions_below(m, n)[j] as int) is Some,
        forall|f: int|
            0 <= f < n && #[trigger] helper_direction(m, f) is Some ==> helper_functions_below(m, n).contains(
                f as usize,
            ),
        forall|a: int, b: int|
            0 <= a < b < helper_functions_below(m, n).len() ==> helper_functions_below(m, n)[a]
                < helper_functions_below(m, n)[b],
    decreases n,
{
    if n > 0 {
        lemma_helper_functions_below(m, n - 1);
        let before = helper_functions_below(m, n - 1);
        let after = helper_functions_below(m, n);
        if helper_direction(m, n - 1) is Some {
            assert(after =~= before.push((n - 1) as usize));
            assert(after[before.len() as int] == (n - 1) as usize);
        } else {
            assert(after =~= before);
        }
        assert forall|f: int| 0 <= f < n && #[trigger] helper_direction(m, f) is Some implies after.contains(
            f as usize,
        ) by {
            if f < n - 1 {
                let j = choose|j: int| 0 <= j < before.len() && before[j] == f as usize;
                assert(after[j] == before[j]);
            }
        }
    }
}

/// The helper imports below `n` are, in increasing order, exactly the
/// imports below `n` whose names start with `wasm_calling_support`.
proof fn lemma_support_imports_below(m: ModuleModel, n: int)
    requires
        n <= usize::MAX + 1,
    ensures
        forall|j: int|
            0 <= j < support_imports_below(m, n).len() ==> 0 <= #[trigger] support_imports_below(m, n)[j] < n
                && is_support_import(m, support_imports_below(m, n)[j] as int),
        forall|i: int|
            0 <= i < n && #[trigger] is_support_import(m, i) ==> support_imports_below(m, n).contains(i as usize),
        forall|a: int, b: int|
            0 <= a < b < support_imports_below(m, n).len() ==> support_imports_below(m, n)[a]
                < support_imports_below(m, n)[b],
    decreases n,
{
    if n > 0 {
        lemma_support_imports_below(m, n - 1);
        let before = support_imports_below(m, n - 1);
        let after = support_imports_below(m, n);
        if is_support_import(m, n - 1) {
            assert(after =~= before.push((n - 1) as usize));
            assert(after[before.len() as int] == (n - 1) as usize);
        } else {
            assert(after =~= before);
        }
        assert forall|i: int| 0 <= i < n && #[trigger] is_support_import(m, i) implies after.contains(
            i as usize,
        ) by {
            if i < n - 1 {
                let j = choose|j: int| 0 <= j < before.len() && before[j] == i as usize;
                assert(after[j] == before[j]);
            }
        }
    }
}

/// A plan rewrites exactly the exports whose names start with `WRAPPED_`,
/// each once, in the module's order; it deletes exactly the imports whose
/// names start with `wasm_calling_support`, and exactly the functions that
/// stand for helpers, each once, in increasing order.
pub proof fn lemma_plan_covers_module(m: ModuleModel, p: Plan)
    requires
        plans(m, p),
    ensures
        forall|k: int|
            0 <= k < m.exports@.len() ==> (starts_with(#[trigger] m.exports@[k].name@, wrapped_prefix())
                <==> exists|j: int| 0 <= j < p.wrappers@.len() && #[trigger] p.wrappers@[j].export == k),
        forall|a: int, b: int|
            0 <= a < b < p.wrappers@.len() ==> p.wrappers@[a].export < p.wrappers@[b].export,
        forall|f: int|
            0 <= f < m.functions@.len() ==> (p.support_functions@.contains(f as usize) <==> #[trigger] p.helpers@[f]
                is Some),
        forall|f: int| 0 <= f < m.functions@.len() ==> #[trigger] p.helpers@[f] == helper_direction(m, f),
        forall|j: int| 0 <= j < p.support_functions@.len() ==> #[trigger] p.support_functions@[j] < m.functions@.len(),
        forall|a: int, b: int|
            0 <= a < b < p.support_functions@.len() ==> p.support_functions@[a] < p.support_functions@[b],
        forall|i: int|
            0 <= i < m.import_names@.len() ==> (p.support_imports@.contains(i as usize) <==> starts_with(
                #[trigger] m.import_names@[i]@,
                support_prefix(),
            )),
        forall|j: int| 0 <= j < p.support_imports@.len() ==> #[trigger] p.support_imports@[j] < m.import_names@.len(),
        forall|a: int, b: int|
            0 <= a < b < p.support_imports@.len() ==> p.support_imports@[a] < p.support_imports@[b],
        forall|j: int|
            0 <= j < p.wrappers@.len() ==> {
                let w = #[trigger] p.wrappers@[j];
                &&& w.export < m.exports@.len()
                &&& wrapped_prefix() + w.identifier@ == m.exports@[w.export as int].name@
                &&& w.export_id == m.exports@[w.export as int].id
                &&& m.exports@[w.export as int].item == (ExportItemModel::Function { func: w.old_function })
                &&& w.old_function < m.functions@.len()
                &&& m.functions@[w.old_function as int] is Local
            },
{
    assert(m.exports@.len() == m.exports.len());
    assert(m.functions@.len() == m.functions.len());
    assert(m.import_names@.len() == m.import_names.len());
    let ne = m.exports@.len() as int;
    let nf = m.functions@.len() as int;
    let ni = m.import_names@.len() as int;
    lemma_wrappers_below(m, ne);
    lemma_helper_functions_below(m, nf);
    lemma_support_imports_below(m, ni);
    let wb = wrappers_below(m, ne);
    assert forall|j: int| 0 <= j < p.wrappers@.len() implies #[trigger] p.wrappers@[j].export == wb[j] by {
        assert(rewrites_export(m, p.helpers@, wb[j] as int, p.wrappers@[j]));
    }
    assert forall|k: int|
        0 <= k < ne implies (starts_with(#[trigger] m.exports@[k].name@, wrapped_prefix()) <==> exists|j: int|
        0 <= j < p.wrappers@.len() && #[trigger] p.wrappers@[j].export == k) by {
        if starts_with(m.exports@[k].name@, wrapped_prefix()) {
            let j = choose|j: int| 0 <= j < wb.len() && wb[j] == k as usize;
            assert(p.wrappers@[j].export == wb[j]);
        }
        if exists|j: int| 0 <= j < p.wrappers@.len() && #[trigger] p.wrappers@[j].export == k {
            let j = choose|j: int| 0 <= j < p.wrappers@.len() && #[trigger] p.wrappers@[j].export == k;
            assert(p.wrappers@[j].export == wb[j]);
        }
    }
    assert forall|a: int, b: int| 0 <= a < b < p.wrappers@.len() implies p.wrappers@[a].export
        < p.wrappers@[b].export by {
        assert(p.wrappers@[a].export == wb[a]);
        assert(p.wrappers@[b].export == wb[b]);
    }
    assert forall|j: int| 0 <= j < p.wrappers@.len() implies {
        let w = #[trigger] p.wrappers@[j];
        &&& w.export < m.exports@.len()
        &&& wrapped_prefix() + w.identifier@ == m.exports@[w.export as int].name@
        &&& w.export_id == m.exports@[w.export as int].id
        &&& m.exports@[w.export as int].item == (ExportItemModel::Function { func: w.old_function })
        &&& w.old_function < m.functions@.len()
        &&& m.functions@[w.old_function as int] is Local
    } by {
        let w = p.wrappers@[j];
        assert(rewrites_export(m, p.helpers@, wb[j] as int, w));
        assert(w.export == wb[j]);
        assert(0 <= wb[j] < ne);
        let name = m.exports@[w.export as int].name@;
        assert(w.identifier@ == name.skip(wrapped_prefix().len() as int));
        assert(starts_with(name, wrapped_prefix()));
        assert(name.take(wrapped_prefix().len() as int) + name.skip(wrapped_prefix().len() as int) =~= name);
    }
    let sf = p.support_functions@;
    assert forall|f: int|
        0 <= f < nf implies (sf.contains(f as usize) <==> #[trigger] p.helpers@[f] is Some) by {
        if sf.contains(f as usize) {
            let j = choose|j: int| 0 <= j < sf.len() && sf[j] == f as usize;
            assert(helper_direction(m, sf[j] as int) is Some);
        }
        if p.helpers@[f] is Some {
            assert(helper_direction(m, f) is Some);
        }
    }
    let si = p.support_imports@;
    assert forall|i: int|
        0 <= i < ni implies (si.contains(i as usize) <==> starts_with(
        #[trigger] m.import_names@[i]@,
        support_prefix(),
    )) by {
        if si.contains(i as usize) {
            let j = choose|j: int| 0 <= j < si.len() && si[j] == i as usize;
            assert(is_support_import(m, si[j] as int));
        }
        if starts_with(m.import_names@[i]@, support_prefix()) {
            assert(is_support_import(m, i));
        }
    }
}

} // verus!

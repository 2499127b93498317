//! What a module holds of the calling support: the helper imports and the
//! functions that stand for them, and the signature metadata that the
//! wrapping exports for each wrapped function.

use vstd::prelude::*;
use crate::naming::{
    bytes_from, bytes_start_with, first_double_underscore, metadata_prefix, metadata_prefix_bytes,
    split_at_separator, starts_with, separator, separator_at, arg_count_key, return_count_key, signature_key,
    arg_count_key_bytes, return_count_key_bytes, signature_key_bytes,
};
use crate::postprocess::{classify, is_support_import, support_imports_below, HelperClass};
use crate::rewrite::HelperFunctionDirection;
use crate::value::{const_as_usize, value_to_usize};
use crate::wasm::{
    ConstValue, ExportItemModel, FunctionKindModel, InstrView, ModuleModel, ValType, Instr,
};

verus! {

/// One signature metadata export: the wrapped function it belongs to, its
/// key, and the function that it exports.
#[derive(Debug)]
pub struct MetadataEntry {
    pub function_name: Vec<u8>,
    pub key: Vec<u8>,
    pub function: usize,
}

/// What a module holds of the calling support.
#[derive(Debug)]
pub struct SupportData {
    /// The helper imports, in increasing order.
    pub support_imports: Vec<usize>,
    /// The indices of the signature metadata exports.
    pub support_exports: Vec<usize>,
    /// The helper functions and the metadata functions.
    pub support_functions: Vec<usize>,
    /// At each function index: the type of the argument that the function
    /// hands in, if it is an input helper.
    pub input_functions: Vec<Option<ValType>>,
    /// At each function index: the type of the result that the function
    /// takes, if it is an output helper.
    pub output_functions: Vec<Option<ValType>>,
    /// The signature metadata exports, in the module's order.
    pub signature_metadata: Vec<MetadataEntry>,
}

/// Export `k` of `m` is a signature metadata export.
pub open spec fn is_metadata_export(m: ModuleModel, k: int) -> bool {
    starts_with(m.exports@[k].name@, metadata_prefix())
}

/// The metadata exports below `n`, by position, in the module's order.
pub open spec fn metadata_exports_below(m: ModuleModel, n: int) -> Seq<usize>
    decreases n,
{
    if n <= 0 {
        seq![]
    } else {
        metadata_exports_below(m, n - 1) + if is_metadata_export(m, n - 1) {
            seq![(n - 1) as usize]
        } else {
            seq![]
        }
    }
}

/// The type that function `f` of `m` hands in, if it is an input helper.
pub open spec fn input_type(m: ModuleModel, f: int) -> Option<ValType> {
    if 0 <= f < m.functions@.len() {
        match classify(m, f) {
            HelperClass::Helper(HelperFunctionDirection::Input(t)) => Some(t),
            _ => None,
        }
    } else {
        None
    }
}

/// The type that function `f` of `m` takes, if it is an output helper.
pub open spec fn output_type(m: ModuleModel, f: int) -> Option<ValType> {
    if 0 <= f < m.functions@.len() {
        match classify(m, f) {
            HelperClass::Helper(HelperFunctionDirection::Output(t)) => Some(t),
            _ => None,
        }
    } else {
        None
    }
}

/// Function `f` of `m` is a helper import of any kind.
pub open spec fn is_helper_import(m: ModuleModel, f: int) -> bool {
    match classify(m, f) {
        HelperClass::NotHelper => false,
        _ => true,
    }
}

/// The function that export `k` exports.
pub open spec fn exported_function(m: ModuleModel, k: int) -> usize {
    match m.exports@[k].item {
        ExportItemModel::Function { func } => func,
        ExportItemModel::Other => 0,
    }
}

/// Every helper import of `m` has a function type.
pub open spec fn helpers_defined(m: ModuleModel) -> bool {
    forall|f: int|
        0 <= f < m.functions@.len() ==> !(#[trigger] classify(m, f) matches HelperClass::NoSignature)
}

/// Every metadata export of `m` exports a function and has a `__` in its
/// name.
pub open spec fn metadata_defined(m: ModuleModel) -> bool {
    forall|k: int|
        0 <= k < m.exports@.len() && #[trigger] is_metadata_export(m, k) ==> {
            &&& m.exports@[k].item is Function
            &&& first_double_underscore(m.exports@[k].name@) is Some
        }
}

/// `m` can be scanned: every helper import has a function type, and every
/// metadata export exports a function and has a `__` in its name.
pub open spec fn support_data_defined(m: ModuleModel) -> bool {
    helpers_defined(m) && metadata_defined(m)
}

/// The entry that metadata export `k` of `m` gives: the name after the
/// first `__`, the key before it, and the exported function.
pub open spec fn entry_of(m: ModuleModel, k: int) -> (Seq<u8>, Seq<u8>, usize) {
    let name = m.exports@[k].name@;
    let i = first_double_underscore(name)->0;
    (name.skip(i + 2), name.take(i), exported_function(m, k))
}

/// The view of a metadata entry.
pub open spec fn entry_view(e: MetadataEntry) -> (Seq<u8>, Seq<u8>, usize) {
    (e.function_name@, e.key@, e.function)
}

impl SupportData {
    /// This is what scanning `m` finds.
    pub open spec fn scanned_from(self, m: ModuleModel) -> bool {
        &&& self.support_imports@ == support_imports_below(m, m.import_names@.len() as int)
        &&& self.input_functions@.len() == m.functions@.len()
        &&& self.output_functions@.len() == m.functions@.len()
        &&& forall|f: int|
            0 <= f < m.functions@.len() ==> #[trigger] self.input_functions@[f] == input_type(m, f)
                && self.output_functions@[f] == output_type(m, f)
        &&& self.support_functions@.no_duplicates()
        &&& forall|f: usize|
            #[trigger] self.support_functions@.contains(f) <==> (f < m.functions@.len()
                && is_helper_import(m, f as int)) || exists|k: int|
                0 <= k < m.exports@.len() && #[trigger] is_metadata_export(m, k) && exported_function(
                    m,
                    k,
                ) == f
        &&& self.support_exports@.no_duplicates()
        &&& forall|id: usize|
            #[trigger] self.support_exports@.contains(id) <==> exists|k: int|
                0 <= k < m.exports@.len() && #[trigger] is_metadata_export(m, k) && m.exports@[k].id
                    == id
        &&& self.entries() == metadata_entries(m)
    }
}

/// `s` with `x` added at its end, unless `s` holds `x` already.
pub open spec fn add_unique(s: Seq<usize>, x: usize) -> Seq<usize> {
    if s.contains(x) {
        s
    } else {
        s.push(x)
    }
}

/// `a` with each element of `b` added in turn, unless already there.
pub open spec fn append_unique(a: Seq<usize>, b: Seq<usize>) -> Seq<usize>
    decreases b.len(),
{
    if b.len() == 0 {
        a
    } else {
        add_unique(append_unique(a, b.drop_last()), b.last())
    }
}

/// The larger of two lengths.
pub open spec fn longer(a: nat, b: nat) -> nat {
    if a >= b {
        a
    } else {
        b
    }
}

/// The entry at index `f` of a table indexed by function once `found` has
/// been recorded there: `found` if it is something, else what `table`
/// held.
pub open spec fn recorded(table: Seq<Option<ValType>>, f: int, found: Option<ValType>) -> Option<ValType> {
    match found {
        Some(t) => Some(t),
        None => if 0 <= f < table.len() {
            table[f]
        } else {
            None
        },
    }
}

/// The entries that the metadata exports of `m` give, in the module's
/// order.
pub open spec fn metadata_entries(m: ModuleModel) -> Seq<(Seq<u8>, Seq<u8>, usize)> {
    metadata_exports_below(m, m.exports@.len() as int).map_values(|k: usize| entry_of(m, k as int))
}

/// The helper imports of a module, added to no earlier ones, are the
/// helper imports themselves; each lies below the bound.
proof fn lemma_support_imports_fresh(m: ModuleModel, n: int)
    requires
        n <= usize::MAX + 1,
    ensures
        append_unique(seq![], support_imports_below(m, n)) == support_imports_below(m, n),
        forall|k: int| 0 <= k < support_imports_below(m, n).len() ==> #[trigger] support_imports_below(m, n)[k] < n,
    decreases n,
{
    if n > 0 {
        lemma_support_imports_fresh(m, n - 1);
        let before = support_imports_below(m, n - 1);
        if is_support_import(m, n - 1) {
            let after = support_imports_below(m, n);
            assert(after =~= before.push((n - 1) as usize));
            assert(after.drop_last() =~= before);
            assert(after.last() == (n - 1) as usize);
            if before.contains((n - 1) as usize) {
                let k = choose|k: int| 0 <= k < before.len() && before[k] == (n - 1) as usize;
                assert(before[k] < n - 1);
            }
            assert(append_unique(seq![], after) == add_unique(append_unique(seq![], before), (n - 1) as usize));
            assert forall|k: int| 0 <= k < after.len() implies #[trigger] after[k] < n by {
                if k < before.len() {
                    assert(after[k] == before[k]);
                }
            }
        } else {
            assert(support_imports_below(m, n) =~= before);
        }
    }
}

/// Adds `x` to `v` unless `v` holds it.
fn insert_unique(v: &mut Vec<usize>, x: usize)
    ensures
        final(v)@ == add_unique(old(v)@, x),
        forall|y: usize| #[trigger] final(v)@.contains(y) <==> old(v)@.contains(y) || y == x,
        old(v)@.no_duplicates() ==> final(v)@.no_duplicates(),
{
    let mut i: usize = 0;
    while i < v.len()
        invariant
            i <= v.len(),
            v@ == old(v)@,
            forall|j: int| 0 <= j < i ==> v@[j] != x,
        decreases v.len() - i,
    {
        if v[i] == x {
            proof {
                assert(v@[i as int] == x);
                assert(v@.contains(x));
                assert forall|y: usize| #[trigger] v@.contains(y) <==> v@.contains(y) || y == x by {
                    if y == x {
                        assert(v@[i as int] == x);
                    }
                }
            }
            return;
        }
        i = i + 1;
    }
    let ghost v0 = v@;
    proof {
        if v0.contains(x) {
            let j = choose|j: int| 0 <= j < v0.len() && v0[j] == x;
            assert(v@[j] != x);
        }
    }
    v.push(x);
    proof {
        assert forall|y: usize| #[trigger] v@.contains(y) <==> v0.contains(y) || y == x by {
            if v0.contains(y) {
                let j = choose|j: int| 0 <= j < v0.len() && v0[j] == y;
                assert(v@[j] == y);
            }
            if y == x {
                assert(v@[v0.len() as int] == x);
            }
            if v@.contains(y) && y != x {
                let j = choose|j: int| 0 <= j < v@.len() && v@[j] == y;
                assert(j < v0.len());
                assert(v0[j] == y);
            }
        }
        if v0.no_duplicates() {
            assert forall|a: int, b: int| 0 <= a < b < v@.len() implies v@[a] != v@[b] by {
                if b == v0.len() {
                    assert(v@[a] == v0[a]);
                    assert(v0.contains(v0[a]));
                }
            }
        }
    }
}

impl SupportData {
    /// Scans `m` for the helper imports and the functions that stand for
    /// them, and for the signature metadata exports.
    pub fn scan(m: &ModuleModel) -> (res: SupportData)
        requires
            support_data_defined(*m),
        ensures
            res.scanned_from(*m),
    {
        let mut this = SupportData {
            support_imports: Vec::new(),
            support_exports: Vec::new(),
            support_functions: Vec::new(),
            input_functions: Vec::new(),
            output_functions: Vec::new(),
            signature_metadata: Vec::new(),
        };
        proof {
            assert(this.entries() =~= Seq::<(Seq<u8>, Seq<u8>, usize)>::empty());
        }
        this.scan_io(m);
        this.scan_signatures(m);
        proof {
            assert(m.import_names@.len() == m.import_names.len());
            lemma_support_imports_fresh(*m, m.import_names@.len() as int);
            assert(this.entries() =~= metadata_entries(*m));
        }
        this
    }

    /// Adds the helper imports of `m` and the functions that stand for them
    /// to what is held already; the type a helper hands in or takes is
    /// recorded at the helper's index.
    fn scan_io(&mut self, m: &ModuleModel)
        requires
            helpers_defined(*m),
        ensures
            final(self).support_imports@ == append_unique(
                old(self).support_imports@,
                support_imports_below(*m, m.import_names@.len() as int),
            ),
            final(self).input_functions@.len() == longer(old(self).input_functions@.len(), m.functions@.len()),
            final(self).output_functions@.len() == longer(old(self).output_functions@.len(), m.functions@.len()),
            forall|f: int|
                0 <= f < final(self).input_functions@.len() ==> #[trigger] final(self).input_functions@[f]
                    == recorded(old(self).input_functions@, f, input_type(*m, f)),
            forall|f: int|
                0 <= f < final(self).output_functions@.len() ==> #[trigger] final(self).output_functions@[f]
                    == recorded(old(self).output_functions@, f, output_type(*m, f)),
            forall|f: usize|
                #[trigger] final(self).support_functions@.contains(f) <==> old(self).support_functions@.contains(f)
                    || (f < m.functions@.len() && is_helper_import(*m, f as int)),
            old(self).support_functions@.no_duplicates() ==> final(self).support_functions@.no_duplicates(),
            final(self).support_exports == old(self).support_exports,
            final(self).signature_metadata == old(self).signature_metadata,
    {
        let ghost imports0 = self.support_imports@;
        let ghost in0 = self.input_functions@;
        let ghost out0 = self.output_functions@;
        let ghost functions0 = self.support_functions@;
        let ghost exports0 = self.support_exports;
        let ghost metadata0 = self.signature_metadata;
        let mut i: usize = 0;
        while i < m.import_names.len()
            invariant
                i <= m.import_names@.len(),
                self.support_imports@ == append_unique(imports0, support_imports_below(*m, i as int)),
                self.input_functions@ == in0,
                self.output_functions@ == out0,
                self.support_functions@ == functions0,
                self.support_exports == exports0,
                self.signature_metadata == metadata0,
            decreases m.import_names@.len() - i,
        {
            let ghost before = support_imports_below(*m, i as int);
            if crate::postprocess::support_import(m, i) {
                insert_unique(&mut self.support_imports, i);
                proof {
                    let after = support_imports_below(*m, i + 1);
                    assert(after =~= before.push(i));
                    assert(after.drop_last() =~= before);
                }
            } else {
                proof {
                    assert(support_imports_below(*m, i + 1) =~= before);
                }
            }
            i = i + 1;
        }
        let n = m.functions.len();
        let ghost total_in = longer(in0.len(), n as nat);
        let ghost total_out = longer(out0.len(), n as nat);
        while self.input_functions.len() < n
            invariant
                self.support_imports@ == append_unique(
                    imports0,
                    support_imports_below(*m, m.import_names@.len() as int),
                ),
                self.support_functions@ == functions0,
                self.support_exports == exports0,
                self.signature_metadata == metadata0,
                self.output_functions@ == out0,
                n == m.functions@.len(),
                in0.len() <= self.input_functions@.len() <= total_in,
                total_in == longer(in0.len(), n as nat),
                forall|j: int|
                    0 <= j < self.input_functions@.len() ==> #[trigger] self.input_functions@[j] == recorded(
                        in0,
                        j,
                        None,
                    ),
            decreases n - self.input_functions@.len(),
        {
            self.input_functions.push(None);
        }
        while self.output_functions.len() < n
            invariant
                self.support_imports@ == append_unique(
                    imports0,
                    support_imports_below(*m, m.import_names@.len() as int),
                ),
                self.support_functions@ == functions0,
                self.support_exports == exports0,
                self.signature_metadata == metadata0,
                self.input_functions@.len() == total_in,
                forall|j: int|
                    0 <= j < total_in ==> #[trigger] self.input_functions@[j] == recorded(in0, j, None),
                n == m.functions@.len(),
                out0.len() <= self.output_functions@.len() <= total_out,
                total_out == longer(out0.len(), n as nat),
                forall|j: int|
                    0 <= j < self.output_functions@.len() ==> #[trigger] self.output_functions@[j] == recorded(
                        out0,
                        j,
                        None,
                    ),
            decreases n - self.output_functions@.len(),
        {
            self.output_functions.push(None);
        }
        let mut f: usize = 0;
        while f < n
            invariant
                helpers_defined(*m),
                n == m.functions@.len(),
                f <= n,
                self.support_imports@ == append_unique(
                    imports0,
                    support_imports_below(*m, m.import_names@.len() as int),
                ),
                self.support_exports == exports0,
                self.signature_metadata == metadata0,
                self.input_functions@.len() == total_in,
                self.output_functions@.len() == total_out,
                total_in == longer(in0.len(), n as nat),
                total_out == longer(out0.len(), n as nat),
                forall|j: int|
                    0 <= j < total_in ==> #[trigger] self.input_functions@[j] == recorded(
                        in0,
                        j,
                        if j < f {
                            input_type(*m, j)
                        } else {
                            None
                        },
                    ),
                forall|j: int|
                    0 <= j < total_out ==> #[trigger] self.output_functions@[j] == recorded(
                        out0,
                        j,
                        if j < f {
                            output_type(*m, j)
                        } else {
                            None
                        },
                    ),
                forall|g: usize|
                    #[trigger] self.support_functions@.contains(g) <==> functions0.contains(g) || (g < f
                        && is_helper_import(*m, g as int)),
                functions0.no_duplicates() ==> self.support_functions@.no_duplicates(),
            decreases n - f,
        {
            let mut input: Option<ValType> = None;
            let mut output: Option<ValType> = None;
            let mut helper = false;
            proof {
                assert(!(classify(*m, f as int) matches HelperClass::NoSignature));
            }
            match &m.functions[f] {
                FunctionKindModel::Import { import, signature } => {
                    if crate::postprocess::support_import(m, *import) {
                        helper = true;
                        match signature {
                            Some(sig) => {
                                if sig.params.len() > 0 {
                                    output = Some(sig.params[0]);
                                } else if sig.results.len() > 0 {
                                    input = Some(sig.results[0]);
                                }
                            },
                            None => {},
                        }
                    }
                },
                _ => {},
            }
            proof {
                assert(input == input_type(*m, f as int));
                assert(output == output_type(*m, f as int));
                assert(helper == is_helper_import(*m, f as int));
            }
            match input {
                Some(t) => {
                    self.input_functions.set(f, Some(t));
                },
                None => {},
            }
            match output {
                Some(t) => {
                    self.output_functions.set(f, Some(t));
                },
                None => {},
            }
            if helper {
                insert_unique(&mut self.support_functions, f);
            }
            f = f + 1;
        }
    }

    /// Adds the signature metadata exports of `m`, their functions and
    /// their entries, in the module's order, to what is held already.
    fn scan_signatures(&mut self, m: &ModuleModel)
        requires
            metadata_defined(*m),
        ensures
            final(self).support_imports == old(self).support_imports,
            final(self).input_functions == old(self).input_functions,
            final(self).output_functions == old(self).output_functions,
            forall|f: usize|
                #[trigger] final(self).support_functions@.contains(f) <==> old(self).support_functions@.contains(f)
                    || exists|k: int|
                    0 <= k < m.exports@.len() && #[trigger] is_metadata_export(*m, k) && exported_function(
                        *m,
                        k,
                    ) == f,
            old(self).support_functions@.no_duplicates() ==> final(self).support_functions@.no_duplicates(),
            forall|id: usize|
                #[trigger] final(self).support_exports@.contains(id) <==> old(self).support_exports@.contains(id)
                    || exists|k: int|
                    0 <= k < m.exports@.len() && #[trigger] is_metadata_export(*m, k) && m.exports@[k].id
                        == id,
            old(self).support_exports@.no_duplicates() ==> final(self).support_exports@.no_duplicates(),
            final(self).entries() == old(self).entries() + metadata_entries(*m),
    {
        let prefix = metadata_prefix_bytes();
        let ghost functions0 = self.support_functions@;
        let ghost exports0 = self.support_exports@;
        let ghost entries0 = self.entries();
        let ne = m.exports.len();
        let mut k: usize = 0;
        proof {
            assert(entries0 =~= entries0 + metadata_exports_below(*m, 0).map_values(
                |q: usize| entry_of(*m, q as int),
            ));
        }
        while k < ne
            invariant
                metadata_defined(*m),
                ne == m.exports@.len(),
                k <= ne,
                prefix@ == metadata_prefix(),
                self.support_imports == old(self).support_imports,
                self.input_functions == old(self).input_functions,
                self.output_functions == old(self).output_functions,
                functions0 == old(self).support_functions@,
                exports0 == old(self).support_exports@,
                entries0 == old(self).entries(),
                functions0.no_duplicates() ==> self.support_functions@.no_duplicates(),
                forall|f: usize|
                    #[trigger] self.support_functions@.contains(f) <==> functions0.contains(f) || exists|
                        q: int,
                    |
                        0 <= q < k && #[trigger] is_metadata_export(*m, q) && exported_function(*m, q)
                            == f,
                exports0.no_duplicates() ==> self.support_exports@.no_duplicates(),
                forall|id: usize|
                    #[trigger] self.support_exports@.contains(id) <==> exports0.contains(id) || exists|q: int|
                        0 <= q < k && #[trigger] is_metadata_export(*m, q) && m.exports@[q].id == id,
                self.entries() == entries0 + metadata_exports_below(*m, k as int).map_values(
                    |q: usize| entry_of(*m, q as int),
                ),
            decreases ne - k,
        {
            let export = &m.exports[k];
            let ghost before = metadata_exports_below(*m, k as int);
            let ghost es0 = self.entries();
            if bytes_start_with(&export.name, &prefix) {
                proof {
                    assert(is_metadata_export(*m, k as int));
                }
                let (key, function_name) = match split_at_separator(&export.name) {
                    Some(parts) => parts,
                    None => (Vec::new(), Vec::new()),
                };
                let function = match &export.item {
                    ExportItemModel::Function { func } => *func,
                    ExportItemModel::Other => 0,
                };
                insert_unique(&mut self.support_exports, export.id);
                insert_unique(&mut self.support_functions, function);
                let entry = MetadataEntry { function_name, key, function };
                proof {
                    assert(entry_view(entry) == entry_of(*m, k as int));
                }
                self.signature_metadata.push(entry);
                proof {
                    assert(metadata_exports_below(*m, k + 1) =~= before.push(k));
                    assert(self.entries() =~= es0.push(entry_view(entry)));
                    assert(self.entries() =~= entries0 + metadata_exports_below(*m, k + 1).map_values(
                        |q: usize| entry_of(*m, q as int),
                    ));
                    assert forall|f: usize| #[trigger] self.support_functions@.contains(f) <==> functions0.contains(f) || exists|q: int|
                        0 <= q < k + 1 && #[trigger] is_metadata_export(*m, q) && exported_function(*m, q) == f by {
                        if f == function {
                            assert(is_metadata_export(*m, k as int) && exported_function(*m, k as int) == f);
                        }
                    }
                    assert forall|id: usize| #[trigger] self.support_exports@.contains(id) <==> exports0.contains(id) || exists|q: int|
                        0 <= q < k + 1 && #[trigger] is_metadata_export(*m, q) && m.exports@[q].id == id by {
                        if id == export.id {
                            assert(is_metadata_export(*m, k as int) && m.exports@[k as int].id == id);
                        }
                    }
                }
            } else {
                proof {
                    assert(metadata_exports_below(*m, k + 1) =~= before);
                    assert forall|f: usize| #[trigger] self.support_functions@.contains(f) <==> functions0.contains(f) || exists|q: int|
                        0 <= q < k + 1 && #[trigger] is_metadata_export(*m, q) && exported_function(*m, q) == f by {
                    }
                    assert forall|id: usize| #[trigger] self.support_exports@.contains(id) <==> exports0.contains(id) || exists|q: int|
                        0 <= q < k + 1 && #[trigger] is_metadata_export(*m, q) && m.exports@[q].id == id by {
                    }
                }
            }
            k = k + 1;
        }
    }
}

/// What looking up the signature of a wrapped function finds.
pub enum SignatureOutcome {
    /// Some metadata export of the function is missing.
    Absent,
    /// The metadata is not what the wrapping exports.
    Fails,
    /// The argument types and the result types.
    Found(Seq<ValType>, Seq<ValType>),
}

/// The function of the last entry for `name` and `key`.
pub open spec fn metadata_lookup(
    entries: Seq<(Seq<u8>, Seq<u8>, usize)>,
    name: Seq<u8>,
    key: Seq<u8>,
) -> Option<usize>
    decreases entries.len(),
{
    if entries.len() == 0 {
        None
    } else if entries.last().0 == name && entries.last().1 == key {
        Some(entries.last().2)
    } else {
        metadata_lookup(entries.drop_last(), name, key)
    }
}

/// The instructions of the entry block of function `id`, if it is defined
/// in the module and has its entry block.
pub open spec fn entry_instrs(funcs: Seq<FunctionKindModel>, id: usize) -> Option<Seq<InstrView>> {
    if id < funcs.len() {
        match funcs[id as int] {
            FunctionKindModel::Local(lf) => if lf.entry < lf.blocks@.len() {
                Some(lf@.blocks[lf.entry as int].instrs)
            } else {
                None
            },
            _ => None,
        }
    } else {
        None
    }
}

/// The constant that function `id` starts with, if it starts with one.
pub open spec fn constant_of(funcs: Seq<FunctionKindModel>, id: usize) -> Option<ConstValue> {
    match entry_instrs(funcs, id) {
        Some(instrs) => if instrs.len() > 0 {
            match instrs[0] {
                InstrView::Const { value } => Some(value),
                _ => None,
            }
        } else {
            None
        },
        None => None,
    }
}

/// The functions that `instrs` call, in order.
pub open spec fn called_functions(instrs: Seq<InstrView>) -> Seq<usize>
    decreases instrs.len(),
{
    if instrs.len() == 0 {
        seq![]
    } else {
        called_functions(instrs.drop_last()) + match instrs.last() {
            InstrView::Call { func } => seq![func],
            _ => seq![],
        }
    }
}

impl SupportData {
    /// The views of the metadata entries.
    pub open spec fn entries(self) -> Seq<(Seq<u8>, Seq<u8>, usize)> {
        self.signature_metadata@.map_values(|e: MetadataEntry| entry_view(e))
    }

    /// The types that the input helpers `calls` hand in, if all are input
    /// helpers.
    pub open spec fn input_types_of(self, calls: Seq<usize>) -> Option<Seq<ValType>>
        decreases calls.len(),
    {
        if calls.len() == 0 {
            Some(seq![])
        } else {
            match self.input_types_of(calls.drop_last()) {
                Some(types) => {
                    let f = calls.last();
                    if f < self.input_functions@.len() && self.input_functions@[f as int] is Some {
                        Some(types.push(self.input_functions@[f as int]->0))
                    } else {
                        None
                    }
                },
                None => None,
            }
        }
    }

    /// What looking up the signature of the wrapped function `name` finds:
    /// the calls of the signature function's entry block read the argument
    /// types and then the result types, whose numbers the argument and the
    /// result count functions hold as constants.
    pub open spec fn signature_outcome(self, funcs: Seq<FunctionKindModel>, name: Seq<u8>) -> SignatureOutcome {
        let es = self.entries();
        match metadata_lookup(es, name, signature_key()) {
            None => SignatureOutcome::Absent,
            Some(sig_function) => match metadata_lookup(es, name, arg_count_key()) {
                None => SignatureOutcome::Absent,
                Some(arg_function) => match constant_of(funcs, arg_function) {
                    None => SignatureOutcome::Fails,
                    Some(arg_value) => match metadata_lookup(es, name, return_count_key()) {
                        None => SignatureOutcome::Absent,
                        Some(ret_function) => match constant_of(funcs, ret_function) {
                            None => SignatureOutcome::Fails,
                            Some(ret_value) => match entry_instrs(funcs, sig_function) {
                                None => SignatureOutcome::Fails,
                                Some(instrs) => match self.input_types_of(called_functions(instrs)) {
                                    None => SignatureOutcome::Fails,
                                    Some(types) => {
                                        let args = const_as_usize(arg_value);
                                        let rets = const_as_usize(ret_value);
                                        if types.len() == args + rets {
                                            SignatureOutcome::Found(types.take(args), types.skip(args))
                                        } else {
                                            SignatureOutcome::Fails
                                        }
                                    },
                                },
                            },
                        },
                    },
                },
            },
        }
    }
}

/// Whether two byte strings are equal.
pub fn bytes_equal(a: &Vec<u8>, b: &Vec<u8>) -> (res: bool)
    ensures
        res == (a@ == b@),
{
    if a.len() != b.len() {
        return false;
    }
    let mut i: usize = 0;
    while i < a.len()
        invariant
            a.len() == b.len(),
            i <= a.len(),
            forall|j: int| 0 <= j < i ==> a@[j] == b@[j],
        decreases a.len() - i,
    {
        if a[i] != b[i] {
            return false;
        }
        i = i + 1;
    }
    assert(a@ =~= b@);
    true
}

/// The constant that function `id` starts with.
fn read_function_as_value_by_id(funcs: &Vec<FunctionKindModel>, id: usize) -> (res: ConstValue)
    requires
        constant_of(funcs@, id) is Some,
    ensures
        constant_of(funcs@, id) == Some(res),
{
    match &funcs[id] {
        FunctionKindModel::Local(f) => read_function_as_value(f),
        _ => ConstValue::I32(0),
    }
}

/// The constant that a function starts with.
fn read_function_as_value(function: &crate::wasm::LocalFunctionModel) -> (res: ConstValue)
    requires
        function.entry < function.blocks@.len(),
        function@.blocks[function.entry as int].instrs.len() > 0,
        function@.blocks[function.entry as int].instrs[0] is Const,
    ensures
        function@.blocks[function.entry as int].instrs[0] == (InstrView::Const { value: res }),
{
    let instrs = &function.blocks[function.entry].instrs;
    assert(instrs@[0]@ == function@.blocks[function.entry as int].instrs[0]);
    match &instrs[0] {
        Instr::Const { value } => *value,
        _ => ConstValue::I32(0),
    }
}

/// One step of [`called_functions`].
proof fn lemma_called_functions_step(instrs: Seq<InstrView>, i: int)
    requires
        0 <= i < instrs.len(),
    ensures
        called_functions(instrs.take(i + 1)) == called_functions(instrs.take(i)) + match instrs[i] {
            InstrView::Call { func } => seq![func],
            _ => seq![],
        },
{
    assert(instrs.take(i + 1).drop_last() =~= instrs.take(i));
}

/// The calls of a prefix are a prefix of the calls.
proof fn lemma_called_functions_prefix(instrs: Seq<InstrView>, i: int)
    requires
        0 <= i <= instrs.len(),
    ensures
        called_functions(instrs.take(i)) == called_functions(instrs).take(
            called_functions(instrs.take(i)).len() as int,
        ),
        called_functions(instrs.take(i)).len() <= called_functions(instrs).len(),
    decreases instrs.len() - i,
{
    if i == instrs.len() {
        assert(instrs.take(i) =~= instrs);
        assert(called_functions(instrs).take(called_functions(instrs).len() as int) =~= called_functions(instrs));
    } else {
        lemma_called_functions_prefix(instrs, i + 1);
        lemma_called_functions_step(instrs, i);
        let a = called_functions(instrs.take(i));
        let b = called_functions(instrs.take(i + 1));
        let all = called_functions(instrs);
        assert(a =~= b.take(a.len() as int));
        assert(a =~= all.take(a.len() as int));
    }
}

/// The input types of two lists of calls one after the other.
proof fn lemma_input_types_concat(s: SupportData, a: Seq<usize>, b: Seq<usize>)
    ensures
        s.input_types_of(a + b) == match s.input_types_of(a) {
            Some(t) => match s.input_types_of(b) {
                Some(u) => Some(t + u),
                None => None::<Seq<ValType>>,
            },
            None => None,
        },
    decreases b.len(),
{
    if b.len() == 0 {
        assert(a + b =~= a);
        if let Some(t) = s.input_types_of(a) {
            assert(t + seq![] =~= t);
        }
    } else {
        lemma_input_types_concat(s, a, b.drop_last());
        assert((a + b).drop_last() =~= a + b.drop_last());
        assert((a + b).last() == b.last());
        if let Some(t) = s.input_types_of(a) {
            if let Some(u) = s.input_types_of(b.drop_last()) {
                let f = b.last();
                if f < s.input_functions@.len() && s.input_functions@[f as int] is Some {
                    assert((t + u).push(s.input_functions@[f as int]->0) =~= t + u.push(
                        s.input_functions@[f as int]->0,
                    ));
                }
            }
        }
    }
}

impl SupportData {
    /// The function of the last metadata entry for `name` and `key`.
    fn lookup(&self, name: &Vec<u8>, key: &Vec<u8>) -> (res: Option<usize>)
        ensures
            res == metadata_lookup(self.entries(), name@, key@),
    {
        let mut i: usize = self.signature_metadata.len();
        proof {
            assert(self.entries().take(i as int) =~= self.entries());
        }
        while i > 0
            invariant
                i <= self.signature_metadata@.len(),
                metadata_lookup(self.entries(), name@, key@) == metadata_lookup(
                    self.entries().take(i as int),
                    name@,
                    key@,
                ),
            decreases i,
        {
            let e = &self.signature_metadata[i - 1];
            let ghost es = self.entries().take(i as int);
            proof {
                assert(es.last() == entry_view(*e));
                assert(es.drop_last() =~= self.entries().take(i - 1));
            }
            if bytes_equal(&e.function_name, name) && bytes_equal(&e.key, key) {
                return Some(e.function);
            }
            i = i - 1;
        }
        proof {
            assert(self.entries().take(0) =~= Seq::<(Seq<u8>, Seq<u8>, usize)>::empty());
        }
        None
    }

    /// The argument and result types of the wrapped function `name`, as its
    /// signature metadata records them; nothing if some of its metadata is
    /// missing.
    pub fn get_function_signature(&self, funcs: &Vec<FunctionKindModel>, name: &Vec<u8>) -> (res: Option<
        (Vec<ValType>, Vec<ValType>),
    >)
        requires
            !(self.signature_outcome(funcs@, name@) is Fails),
        ensures
            match self.signature_outcome(funcs@, name@) {
                SignatureOutcome::Found(ins, outs) => res matches Some((a, b)) && a@ == ins && b@ == outs,
                _ => res is None,
            },
    {
        let sig_function = match self.lookup(name, &signature_key_bytes()) {
            Some(f) => f,
            None => {
                return None;
            },
        };
        let arg_function = match self.lookup(name, &arg_count_key_bytes()) {
            Some(f) => f,
            None => {
                return None;
            },
        };
        let arg_value = read_function_as_value_by_id(funcs, arg_function);
        let sig_arg_count = value_to_usize(arg_value);
        let ret_function = match self.lookup(name, &return_count_key_bytes()) {
            Some(f) => f,
            None => {
                return None;
            },
        };
        let ret_value = read_function_as_value_by_id(funcs, ret_function);
        let sig_ret_count = value_to_usize(ret_value);
        let function = match &funcs[sig_function] {
            FunctionKindModel::Local(f) => f,
            _ => {
                return None;
            },
        };
        let instrs = &function.blocks[function.entry].instrs;
        let ghost iv = function@.blocks[function.entry as int].instrs;
        let mut input_types: Vec<ValType> = Vec::new();
        let mut output_types: Vec<ValType> = Vec::new();
        let mut i: usize = 0;
        proof {
            assert(iv.take(0) =~= Seq::<InstrView>::empty());
            assert(input_types@ + output_types@ =~= Seq::<ValType>::empty());
        }
        while i < instrs.len()
            invariant
                !(self.signature_outcome(funcs@, name@) is Fails),
                metadata_lookup(self.entries(), name@, signature_key()) == Some(sig_function),
                metadata_lookup(self.entries(), name@, arg_count_key()) == Some(arg_function),
                metadata_lookup(self.entries(), name@, return_count_key()) == Some(ret_function),
                constant_of(funcs@, arg_function) == Some(arg_value),
                constant_of(funcs@, ret_function) == Some(ret_value),
                sig_arg_count == const_as_usize(arg_value),
                sig_ret_count == const_as_usize(ret_value),
                iv == function@.blocks[function.entry as int].instrs,
                entry_instrs(funcs@, sig_function) == Some(iv),
                instrs@.len() == iv.len(),
                forall|j: int| 0 <= j < iv.len() ==> #[trigger] instrs@[j]@ == iv[j],
                i <= instrs.len(),
                self.input_types_of(called_functions(iv.take(i as int))) == Some(
                    input_types@ + output_types@,
                ),
                input_types@.len() <= sig_arg_count,
                output_types@.len() > 0 ==> input_types@.len() == sig_arg_count,
            decreases instrs.len() - i,
        {
            let ghost types0 = input_types@ + output_types@;
            proof {
                lemma_called_functions_step(iv, i as int);
            }
            match &instrs[i] {
                Instr::Call { func } => {
                    let found = if *func < self.input_functions.len() {
                        self.input_functions[*func]
                    } else {
                        None
                    };
                    let ghost prefix = called_functions(iv.take(i as int));
                    let ghost rest = called_functions(iv).skip(prefix.len() as int + 1);
                    proof {
                        assert(iv[i as int] == instrs@[i as int]@);
                        lemma_called_functions_prefix(iv, i + 1);
                        lemma_input_types_concat(*self, prefix.push(*func), rest);
                        lemma_input_types_concat(*self, prefix, seq![*func]);
                        assert(prefix + seq![*func] =~= prefix.push(*func));
                        assert(called_functions(iv.take(i + 1)) == prefix.push(*func));
                        assert(called_functions(iv) =~= prefix.push(*func) + rest);
                        assert(seq![*func].drop_last() =~= Seq::<usize>::empty());
                    }
                    proof {
                        assert(prefix.push(*func).drop_last() =~= prefix);
                    }
                    let ty = match found {
                        Some(t) => t,
                        None => {
                            proof {
                                assert(self.input_types_of(prefix.push(*func)) is None);
                                assert(self.input_types_of(called_functions(iv)) is None);
                            }
                            return None;
                        },
                    };
                    proof {
                        assert(self.input_types_of(prefix.push(*func)) == Some(types0.push(ty)));
                    }
                    if input_types.len() < sig_arg_count {
                        input_types.push(ty);
                    } else {
                        output_types.push(ty);
                    }
                    proof {
                        assert(input_types@ + output_types@ =~= types0.push(ty));
                    }
                },
                _ => {
                    proof {
                        assert(iv[i as int] == instrs@[i as int]@);
                        assert(called_functions(iv.take(i + 1)) =~= called_functions(iv.take(i as int)));
                    }
                },
            }
            i = i + 1;
        }
        proof {
            assert(iv.take(iv.len() as int) =~= iv);
        }
        if input_types.len() != sig_arg_count || output_types.len() != sig_ret_count {
            return None;
        }
        proof {
            let types = input_types@ + output_types@;
            assert(input_types@ =~= types.take(sig_arg_count as int));
            assert(output_types@ =~= types.skip(sig_arg_count as int));
        }
        Some((input_types, output_types))
    }
}


/// The function that a lookup finds for `name` and `key` is that of an
/// entry whose function name is exactly `name` and whose key is exactly
/// `key`, the last such entry; a lookup finds nothing only when no entry has
/// that name and that key.
pub proof fn lemma_lookup_exact(entries: Seq<(Seq<u8>, Seq<u8>, usize)>, name: Seq<u8>, key: Seq<u8>)
    ensures
        match metadata_lookup(entries, name, key) {
            Some(f) => exists|j: int|
                0 <= j < entries.len() && #[trigger] entries[j] == (name, key, f) && forall|q: int|
                    j < q < entries.len() ==> !(#[trigger] entries[q].0 == name && entries[q].1 == key),
            None => forall|j: int| 0 <= j < entries.len() ==> !(#[trigger] entries[j].0 == name && entries[j].1 == key),
        },
    decreases entries.len(),
{
    if entries.len() > 0 {
        let last = entries.last();
        let init = entries.drop_last();
        if last.0 == name && last.1 == key {
            let j = entries.len() - 1;
            assert(entries[j] == (name, key, last.2));
        } else {
            lemma_lookup_exact(init, name, key);
            match metadata_lookup(init, name, key) {
                Some(f) => {
                    let j = choose|j: int|
                        0 <= j < init.len() && #[trigger] init[j] == (name, key, f) && forall|q: int|
                            j < q < init.len() ==> !(#[trigger] init[q].0 == name && init[q].1 == key);
                    assert(entries[j] == init[j]);
                    assert forall|q: int| j < q < entries.len() implies !(#[trigger] entries[q].0 == name
                        && entries[q].1 == key) by {
                        if q < init.len() {
                            assert(entries[q] == init[q]);
                        }
                    }
                },
                None => {
                    assert forall|j: int| 0 <= j < entries.len() implies !(#[trigger] entries[j].0 == name
                        && entries[j].1 == key) by {
                        if j < init.len() {
                            assert(entries[j] == init[j]);
                        }
                    }
                },
            }
        }
    }
}

/// Entries of other functions appended after `a` change no lookup for
/// `name`.
proof fn lemma_lookup_other_names(
    a: Seq<(Seq<u8>, Seq<u8>, usize)>,
    extra: Seq<(Seq<u8>, Seq<u8>, usize)>,
    name: Seq<u8>,
    key: Seq<u8>,
)
    requires
        forall|j: int| 0 <= j < extra.len() ==> (#[trigger] extra[j]).0 != name,
    ensures
        metadata_lookup(a + extra, name, key) == metadata_lookup(a, name, key),
    decreases extra.len(),
{
    if extra.len() == 0 {
        assert(a + extra =~= a);
    } else {
        let init = extra.drop_last();
        assert((a + extra).drop_last() =~= a + init);
        assert((a + extra).last() == extra[extra.len() - 1]);
        assert forall|j: int| 0 <= j < init.len() implies (#[trigger] init[j]).0 != name by {
            assert(init[j] == extra[j]);
        }
        lemma_lookup_other_names(a, init, name, key);
    }
}

/// The types that input helpers hand in depend on the table of input
/// helpers alone.
proof fn lemma_input_types_same(s1: SupportData, s2: SupportData, calls: Seq<usize>)
    requires
        s1.input_functions@ == s2.input_functions@,
    ensures
        s1.input_types_of(calls) == s2.input_types_of(calls),
    decreases calls.len(),
{
    if calls.len() > 0 {
        lemma_input_types_same(s1, s2, calls.drop_last());
    }
}

/// Metadata of other functions, found after that of `name`, changes
/// nothing of the signature found for `name`.
pub proof fn lemma_signature_ignores_other_names(
    s1: SupportData,
    s2: SupportData,
    extra: Seq<(Seq<u8>, Seq<u8>, usize)>,
    funcs: Seq<FunctionKindModel>,
    name: Seq<u8>,
)
    requires
        s2.input_functions@ == s1.input_functions@,
        s2.entries() == s1.entries() + extra,
        forall|j: int| 0 <= j < extra.len() ==> (#[trigger] extra[j]).0 != name,
    ensures
        s2.signature_outcome(funcs, name) == s1.signature_outcome(funcs, name),
{
    lemma_lookup_other_names(s1.entries(), extra, name, signature_key());
    lemma_lookup_other_names(s1.entries(), extra, name, arg_count_key());
    lemma_lookup_other_names(s1.entries(), extra, name, return_count_key());
    let es = s1.entries();
    match metadata_lookup(es, name, signature_key()) {
        Some(sig) => match entry_instrs(funcs, sig) {
            Some(instrs) => lemma_input_types_same(s1, s2, called_functions(instrs)),
            None => {},
        },
        None => {},
    }
}


/// A name with a `__` has a first one.
proof fn lemma_least_separator(s: Seq<u8>, k: int)
    requires
        separator_at(s, k),
    ensures
        exists|i: int| #[trigger] separator_at(s, i) && forall|j: int| 0 <= j < i ==> !#[trigger] separator_at(s, j),
    decreases k,
{
    if exists|j: int| 0 <= j < k && #[trigger] separator_at(s, j) {
        let j = choose|j: int| 0 <= j < k && #[trigger] separator_at(s, j);
        lemma_least_separator(s, j);
    } else {
        assert(separator_at(s, k) && forall|j: int| 0 <= j < k ==> !#[trigger] separator_at(s, j));
    }
}

/// What [`first_double_underscore`] finds is a `__`.
proof fn lemma_first_double_underscore_is_separator(s: Seq<u8>)
    requires
        first_double_underscore(s) is Some,
    ensures
        separator_at(s, first_double_underscore(s)->0),
{
    reveal(first_double_underscore);
    let k = choose|i: int| #[trigger] separator_at(s, i);
    lemma_least_separator(s, k);
}

/// The metadata exports below `n` are, in increasing order, exactly the
/// exports below `n` whose names start with the metadata prefix.
proof fn lemma_metadata_exports_below(m: ModuleModel, n: int)
    requires
        n <= usize::MAX + 1,
    ensures
        forall|j: int|
            0 <= j < metadata_exports_below(m, n).len() ==> 0 <= #[trigger] metadata_exports_below(m, n)[j] < n
                && is_metadata_export(m, metadata_exports_below(m, n)[j] as int),
        forall|k: int|
            0 <= k < n && #[trigger] is_metadata_export(m, k) ==> metadata_exports_below(m, n).contains(k as usize),
    decreases n,
{
    if n > 0 {
        lemma_metadata_exports_below(m, n - 1);
        let before = metadata_exports_below(m, n - 1);
        let after = metadata_exports_below(m, n);
        if is_metadata_export(m, n - 1) {
            assert(after =~= before.push((n - 1) as usize));
            assert(after[before.len() as int] == (n - 1) as usize);
        } else {
            assert(after =~= before);
        }
        assert forall|k: int| 0 <= k < n && #[trigger] is_metadata_export(m, k) implies after.contains(
            k as usize,
        ) by {
            if k < n - 1 {
                let j = choose|j: int| 0 <= j < before.len() && before[j] == k as usize;
                assert(after[j] == before[j]);
            }
        }
    }
}

/// The entry of a metadata export gives its name back: the key, `__` and
/// the function name; and the function it exports.
proof fn lemma_entry_of(m: ModuleModel, k: int)
    requires
        metadata_defined(m),
        0 <= k < m.exports@.len(),
        is_metadata_export(m, k),
    ensures
        entry_of(m, k).1 + separator() + entry_of(m, k).0 == m.exports@[k].name@,
        m.exports@[k].item == (ExportItemModel::Function { func: entry_of(m, k).2 }),
{
    let name = m.exports@[k].name@;
    lemma_first_double_underscore_is_separator(name);
    let i = first_double_underscore(name)->0;
    assert(name.take(i) + separator() + name.skip(i + 2) =~= name);
}

/// Entry `e` is that of export `k` of `m`: a metadata export whose name is
/// the entry's key, `__` and the entry's function name, and which exports
/// the entry's function.
pub open spec fn names_export(e: (Seq<u8>, Seq<u8>, usize), m: ModuleModel, k: int) -> bool {
    &&& 0 <= k < m.exports@.len()
    &&& starts_with(m.exports@[k].name@, metadata_prefix())
    &&& e.1 + separator() + e.0 == m.exports@[k].name@
    &&& m.exports@[k].item == (ExportItemModel::Function { func: e.2 })
}

/// Entry `e` is that of some export of `m`.
pub open spec fn from_some_export(e: (Seq<u8>, Seq<u8>, usize), m: ModuleModel) -> bool {
    exists|k: int| #[trigger] names_export(e, m, k)
}

/// Scanning a module records one metadata entry for each metadata export
/// and nothing else: every entry is the key, the function name and the
/// function of a metadata export whose name is the key, `__` and the
/// function name, and every metadata export has such an entry.
pub proof fn lemma_scan_metadata(m: ModuleModel, s: SupportData)
    requires
        s.scanned_from(m),
        metadata_defined(m),
    ensures
        forall|j: int| 0 <= j < s.entries().len() ==> from_some_export(#[trigger] s.entries()[j], m),
        forall|k: int|
            0 <= k < m.exports@.len() && starts_with(#[trigger] m.exports@[k].name@, metadata_prefix())
                ==> exists|j: int| 0 <= j < s.entries().len() && #[trigger] names_export(s.entries()[j], m, k),
{
    assert(m.exports@.len() == m.exports.len());
    let ne = m.exports@.len() as int;
    lemma_metadata_exports_below(m, ne);
    let mb = metadata_exports_below(m, ne);
    assert(s.entries() == metadata_entries(m));
    assert forall|j: int| 0 <= j < s.entries().len() implies from_some_export(#[trigger] s.entries()[j], m) by {
        let k = mb[j] as int;
        assert(is_metadata_export(m, k));
        assert(s.entries()[j] == entry_of(m, k));
        lemma_entry_of(m, k);
        assert(names_export(s.entries()[j], m, k));
    }
    assert forall|k: int|
        0 <= k < m.exports@.len() && starts_with(#[trigger] m.exports@[k].name@, metadata_prefix()) implies exists|
        j: int,
    | 0 <= j < s.entries().len() && #[trigger] names_export(s.entries()[j], m, k) by {
        assert(is_metadata_export(m, k));
        let j = choose|j: int| 0 <= j < mb.len() && mb[j] == k as usize;
        assert(s.entries()[j] == entry_of(m, k));
        lemma_entry_of(m, k);
        assert(names_export(s.entries()[j], m, k));
    }
}

} // verus!

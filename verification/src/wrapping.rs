//! What the wrapping of a function and the derivation of the calling
//! convention for a struct decide before any code is written: the names
//! they introduce, the arguments and fields they read and write, and the
//! shapes they refuse.

use vstd::prelude::*;
use crate::naming::{
    arg_count_key, arg_count_key_bytes, concat, inner_name, metadata_name, return_count_key,
    return_count_key_bytes, separator, signature_key, signature_key_bytes, wrapped_prefix, wrapper_name,
};
use crate::rewrite::copy_bytes;

verus! {

/// A parameter of a function to wrap.
#[derive(Debug)]
pub enum ArgModel {
    /// `self` in any form.
    Receiver,
    /// A typed parameter; `ident` is its name if its pattern is a plain
    /// identifier.
    Typed { ident: Option<Vec<u8>> },
}

/// Why a function cannot be wrapped.
#[derive(Debug, Clone, Copy, PartialEq, Eq, Structural)]
pub enum WrapError {
    /// The parameter at this position is `self`.
    SelfArgument { index: usize },
    /// The parameter at this position is not a plain identifier.
    BadIdentifier { index: usize },
}

/// The names and arguments of the wrapper of a function.
#[derive(Debug)]
pub struct WrapperPlan {
    /// The name the wrapped body takes.
    pub inner: Vec<u8>,
    /// The name of the exported wrapper.
    pub wrapper: Vec<u8>,
    /// The name of the export that holds the number of argument scalars.
    pub arg_count: Vec<u8>,
    /// The name of the export that holds the number of result scalars.
    pub return_count: Vec<u8>,
    /// The name of the export whose calls give the signature.
    pub signature: Vec<u8>,
    /// The parameters, read in this order and passed on in this order.
    pub arguments: Vec<Vec<u8>>,
}

/// The name of a parameter that is a plain identifier.
pub open spec fn arg_ident(a: ArgModel) -> Option<Seq<u8>> {
    match a {
        ArgModel::Typed { ident: Some(id) } => Some(id@),
        _ => None,
    }
}

/// The error that parameter `i` causes, if any.
pub open spec fn arg_error(args: Seq<ArgModel>, i: int) -> Option<WrapError> {
    match args[i] {
        ArgModel::Receiver => Some(WrapError::SelfArgument { index: i as usize }),
        ArgModel::Typed { ident } => match ident {
            Some(_) => None,
            None => Some(WrapError::BadIdentifier { index: i as usize }),
        },
    }
}

/// The error of the first parameter below `n` that causes one.
pub open spec fn first_arg_error(args: Seq<ArgModel>, n: int) -> Option<WrapError>
    decreases n,
{
    if n <= 0 {
        None
    } else {
        match first_arg_error(args, n - 1) {
            Some(e) => Some(e),
            None => arg_error(args, n - 1),
        }
    }
}

/// Once a parameter causes an error, it is the first error below every
/// larger bound.
proof fn lemma_first_arg_error_stays(args: Seq<ArgModel>, a: int, b: int)
    requires
        0 <= a <= b,
        first_arg_error(args, a) is Some,
    ensures
        first_arg_error(args, b) == first_arg_error(args, a),
    decreases b - a,
{
    if b > a {
        lemma_first_arg_error_stays(args, a, b - 1);
    }
}

/// The wrapping of function `function` with parameters `args`: the names it
/// introduces and the parameters it reads, or the first parameter that it
/// refuses.
pub fn plan_wrapper(function: &Vec<u8>, args: &Vec<ArgModel>) -> (res: Result<WrapperPlan, WrapError>)
    ensures
        match res {
            Ok(p) => {
                &&& first_arg_error(args@, args@.len() as int) is None
                &&& p.inner@ == function@ + seq![95u8, 105u8, 110u8, 110u8, 101u8, 114u8]
                &&& p.wrapper@ == wrapped_prefix() + seq![95u8] + function@
                &&& p.arg_count@ == arg_count_key() + separator() + function@
                &&& p.return_count@ == return_count_key() + separator() + function@
                &&& p.signature@ == signature_key() + separator() + function@
                &&& p.arguments@.len() == args@.len()
                &&& forall|i: int|
                    0 <= i < args@.len() ==> arg_ident(args@[i]) == Some((#[trigger] p.arguments@[i])@)
            },
            Err(e) => first_arg_error(args@, args@.len() as int) == Some(e),
        },
{
    let mut arguments: Vec<Vec<u8>> = Vec::new();
    let mut i: usize = 0;
    while i < args.len()
        invariant
            i <= args@.len(),
            first_arg_error(args@, i as int) is None,
            arguments@.len() == i,
            forall|j: int| 0 <= j < i ==> arg_ident(args@[j]) == Some((#[trigger] arguments@[j])@),
        decreases args.len() - i,
    {
        match &args[i] {
            ArgModel::Receiver => {
                proof {
                    lemma_first_arg_error_stays(args@, i + 1, args@.len() as int);
                }
                return Err(WrapError::SelfArgument { index: i });
            },
            ArgModel::Typed { ident } => match ident {
                Some(id) => {
                    let ghost before = arguments@;
                    let copied = copy_bytes(id);
                    arguments.push(copied);
                    proof {
                        assert(arguments@[i as int]@ == id@);
                        assert forall|j: int|
                            0 <= j < i + 1 implies arg_ident(args@[j]) == Some((#[trigger] arguments@[j])@) by {
                            if j < i {
                                assert(arguments@[j] == before[j]);
                            }
                        }
                    }
                },
                None => {
                    proof {
                        lemma_first_arg_error_stays(args@, i + 1, args@.len() as int);
                    }
                    return Err(WrapError::BadIdentifier { index: i });
                },
            },
        }
        i = i + 1;
    }
    Ok(
        WrapperPlan {
            inner: inner_name(function),
            wrapper: wrapper_name(function),
            arg_count: metadata_name(&arg_count_key_bytes(), function),
            return_count: metadata_name(&return_count_key_bytes(), function),
            signature: metadata_name(&signature_key_bytes(), function),
            arguments,
        },
    )
}

/// The fields of a struct.
#[derive(Debug)]
pub enum FieldsModel {
    /// Fields with names, in order.
    Named(Vec<Vec<u8>>),
    /// This many fields without names.
    Unnamed(usize),
    /// No fields.
    Unit,
}

/// A type to derive the calling convention for.
#[derive(Debug)]
pub enum DataModel {
    Struct(FieldsModel),
    /// An enum or a union.
    Other,
}

/// How a field is reached from a value.
#[derive(Debug)]
pub enum FieldAccess {
    Named(Vec<u8>),
    Index(usize),
}

/// How the value read is put together.
#[derive(Debug, Clone, Copy, PartialEq, Eq, Structural)]
pub enum ConstructKind {
    Named,
    Unnamed,
    Unit,
}

/// The calling convention of a struct: each field, in order, is read into a
/// temporary and written from the value.
#[derive(Debug)]
pub struct MagicArgPlan {
    /// The name of the temporary of each field.
    pub temporaries: Vec<Vec<u8>>,
    /// How each field is reached.
    pub fields: Vec<FieldAccess>,
    pub construct: ConstructKind,
}

/// The decimal digits of `n`.
pub open spec fn decimal(n: nat) -> Seq<u8>
    decreases n,
{
    if n < 10 {
        seq![(48 + n) as u8]
    } else {
        decimal(n / 10).push((48 + n % 10) as u8)
    }
}

/// The decimal digits of `n`.
pub fn decimal_digits(n: usize) -> (res: Vec<u8>)
    ensures
        res@ == decimal(n as nat),
    decreases n,
{
    if n < 10 {
        let res = vec![48u8 + n as u8];
        assert(res@ =~= decimal(n as nat));
        res
    } else {
        let mut res = decimal_digits(n / 10);
        res.push(48u8 + (n % 10) as u8);
        res
    }
}

/// The name of the temporary of field `index`: `arg` and the index.
pub open spec fn temporary(index: nat) -> Seq<u8> {
    seq![97u8, 114u8, 103u8] + decimal(index)
}

/// Why the calling convention cannot be derived.
#[derive(Debug, Clone, Copy, PartialEq, Eq, Structural)]
pub enum DeriveError {
    /// Only structs can cross the boundary.
    NotAStruct,
}

/// The calling convention of `data`: a temporary per field, in field order,
/// named `arg` and the field's position; or why there is none.
pub fn plan_magic_arg(data: &DataModel) -> (res: Result<MagicArgPlan, DeriveError>)
    ensures
        match data {
            DataModel::Struct(fields) => res matches Ok(p) && {
                let n = match fields {
                    FieldsModel::Named(names) => names@.len() as int,
                    FieldsModel::Unnamed(count) => *count as int,
                    FieldsModel::Unit => 0,
                };
                &&& p.temporaries@.len() == n
                &&& p.fields@.len() == n
                &&& forall|i: int| 0 <= i < n ==> (#[trigger] p.temporaries@[i])@ == temporary(i as nat)
                &&& forall|i: int|
                    0 <= i < n ==> match fields {
                        FieldsModel::Named(names) => (#[trigger] p.fields@[i] matches FieldAccess::Named(
                            name,
                        ) && name@ == names@[i]@),
                        _ => (#[trigger] p.fields@[i] matches FieldAccess::Index(k) && k == i),
                    }
                &&& p.construct == match fields {
                    FieldsModel::Named(_) => ConstructKind::Named,
                    FieldsModel::Unnamed(_) => ConstructKind::Unnamed,
                    FieldsModel::Unit => ConstructKind::Unit,
                }
            },
            DataModel::Other => res == Err::<MagicArgPlan, DeriveError>(DeriveError::NotAStruct),
        },
{
    match data {
        DataModel::Struct(fields) => {
            let n = match fields {
                FieldsModel::Named(names) => names.len(),
                FieldsModel::Unnamed(count) => *count,
                FieldsModel::Unit => 0,
            };
            let mut temporaries: Vec<Vec<u8>> = Vec::new();
            let mut accesses: Vec<FieldAccess> = Vec::new();
            let mut i: usize = 0;
            while i < n
                invariant
                    i <= n,
                    n == match fields {
                        FieldsModel::Named(names) => names@.len() as int,
                        FieldsModel::Unnamed(count) => *count as int,
                        FieldsModel::Unit => 0,
                    },
                    temporaries@.len() == i,
                    accesses@.len() == i,
                    forall|j: int| 0 <= j < i ==> (#[trigger] temporaries@[j])@ == temporary(j as nat),
                    forall|j: int|
                        0 <= j < i ==> match fields {
                            FieldsModel::Named(names) => (#[trigger] accesses@[j] matches FieldAccess::Named(
                                name,
                            ) && name@ == names@[j]@),
                            _ => (#[trigger] accesses@[j] matches FieldAccess::Index(k) && k == j),
                        },
                decreases n - i,
            {
                let prefix = vec![97u8, 114u8, 103u8];
                let temp = concat(&prefix, &decimal_digits(i));
                proof {
                    assert(prefix@ =~= seq![97u8, 114u8, 103u8]);
                }
                temporaries.push(temp);
                match fields {
                    FieldsModel::Named(names) => accesses.push(FieldAccess::Named(copy_bytes(&names[i]))),
                    _ => accesses.push(FieldAccess::Index(i)),
                }
                i = i + 1;
            }
            let construct = match fields {
                FieldsModel::Named(_) => ConstructKind::Named,
                FieldsModel::Unnamed(_) => ConstructKind::Unnamed,
                FieldsModel::Unit => ConstructKind::Unit,
            };
            Ok(MagicArgPlan { temporaries, fields: accesses, construct })
        },
        DataModel::Other => Err(DeriveError::NotAStruct),
    }
}

} // verus!

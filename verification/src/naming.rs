//! The names that tie a wrapped export to its rewriting: the names the
//! wrapping gives to the wrapper and to its signature metadata, and how the
//! rewriting reads them back.  Names are byte strings.

use vstd::prelude::*;

verus! {

/// `p` is a prefix of `s`.
pub open spec fn starts_with(s: Seq<u8>, p: Seq<u8>) -> bool {
    p.len() <= s.len() && s.take(p.len() as int) == p
}

/// `s` holds `__` at index `i`.
pub open spec fn separator_at(s: Seq<u8>, i: int) -> bool {
    0 <= i && i + 1 < s.len() && s[i] == 95u8 && s[i + 1] == 95u8
}

/// The index of the first `__` in `s`, if there is one.
#[verifier::opaque]
pub open spec fn first_double_underscore(s: Seq<u8>) -> Option<int> {
    if exists|i: int| #[trigger] separator_at(s, i) {
        Some(
            choose|i: int|
                #[trigger] separator_at(s, i) && forall|j: int| 0 <= j < i ==> !#[trigger] separator_at(s, j),
        )
    } else {
        None
    }
}

/// The first `__` of `s` is at index `k`.
pub proof fn lemma_first_double_underscore_at(s: Seq<u8>, k: int)
    requires
        separator_at(s, k),
        forall|j: int| 0 <= j < k ==> !#[trigger] separator_at(s, j),
    ensures
        first_double_underscore(s) == Some(k),
{
    reveal(first_double_underscore);
    let c = choose|i: int|
        #[trigger] separator_at(s, i) && forall|j: int| 0 <= j < i ==> !#[trigger] separator_at(s, j);
    if c < k {
        assert(!separator_at(s, c));
    } else if c > k {
        assert(!separator_at(s, k));
    }
}

/// A name without `__` has no first `__`.
pub proof fn lemma_first_double_underscore_none(s: Seq<u8>)
    requires
        forall|j: int| !#[trigger] separator_at(s, j),
    ensures
        first_double_underscore(s) is None,
{
    reveal(first_double_underscore);
}

/// The prefix that marks the imports of the calling support.
pub open spec fn support_prefix() -> Seq<u8> {
    seq![
        119u8, 97u8, 115u8, 109u8, 95u8, 99u8, 97u8, 108u8, 108u8, 105u8, 110u8, 103u8, 95u8, 115u8, 117u8, 112u8,
        112u8, 111u8, 114u8, 116u8,
    ]
}

/// The prefix that the rewriting looks for in the names of wrapper exports.
pub open spec fn wrapped_prefix() -> Seq<u8> {
    seq![87u8, 82u8, 65u8, 80u8, 80u8, 69u8, 68u8, 95u8]
}

/// The prefix of the names of signature metadata exports.
pub open spec fn metadata_prefix() -> Seq<u8> {
    seq![87u8, 82u8, 65u8, 80u8, 77u8, 69u8, 84u8, 65u8, 95u8, 83u8, 73u8, 71u8]
}

/// `__`
pub open spec fn separator() -> Seq<u8> {
    seq![95u8, 95u8]
}

/// The key of the export that holds the whole signature.
pub open spec fn signature_key() -> Seq<u8> {
    metadata_prefix()
}

/// The key of the export that holds the number of arguments.
pub open spec fn arg_count_key() -> Seq<u8> {
    metadata_prefix() + seq![95u8, 65u8, 82u8, 71u8, 95u8, 67u8, 79u8, 85u8, 78u8, 84u8]
}

/// The key of the export that holds the number of results.
pub open spec fn return_count_key() -> Seq<u8> {
    metadata_prefix() + seq![
        95u8, 82u8, 69u8, 84u8, 85u8, 82u8, 78u8, 95u8, 67u8, 79u8, 85u8, 78u8, 84u8,
    ]
}

/// The bytes of [`support_prefix`].
pub fn support_prefix_bytes() -> (res: Vec<u8>)
    ensures
        res@ == support_prefix(),
{
    let res = vec![
        119u8, 97u8, 115u8, 109u8, 95u8, 99u8, 97u8, 108u8, 108u8, 105u8, 110u8, 103u8, 95u8, 115u8, 117u8, 112u8,
        112u8, 111u8, 114u8, 116u8,
    ];
    assert(res@ =~= support_prefix());
    res
}

/// The bytes of [`wrapped_prefix`].
pub fn wrapped_prefix_bytes() -> (res: Vec<u8>)
    ensures
        res@ == wrapped_prefix(),
{
    let res = vec![87u8, 82u8, 65u8, 80u8, 80u8, 69u8, 68u8, 95u8];
    assert(res@ =~= wrapped_prefix());
    res
}

/// The bytes of [`metadata_prefix`].
pub fn metadata_prefix_bytes() -> (res: Vec<u8>)
    ensures
        res@ == metadata_prefix(),
{
    let res = vec![87u8, 82u8, 65u8, 80u8, 77u8, 69u8, 84u8, 65u8, 95u8, 83u8, 73u8, 71u8];
    assert(res@ =~= metadata_prefix());
    res
}

/// Whether `s` starts with `p`.
pub fn bytes_start_with(s: &Vec<u8>, p: &Vec<u8>) -> (res: bool)
    ensures
        res == starts_with(s@, p@),
{
    if p.len() > s.len() {
        return false;
    }
    let mut i: usize = 0;
    while i < p.len()
        invariant
            p.len() <= s.len(),
            i <= p.len(),
            forall|j: int| 0 <= j < i ==> s@[j] == p@[j],
        decreases p.len() - i,
    {
        if s[i] != p[i] {
            assert(s@.take(p@.len() as int)[i as int] != p@[i as int]);
            return false;
        }
        i = i + 1;
    }
    assert(s@.take(p@.len() as int) =~= p@);
    true
}

/// The bytes of `s` from index `start` on.
pub fn bytes_from(s: &Vec<u8>, start: usize) -> (res: Vec<u8>)
    requires
        start <= s.len(),
    ensures
        res@ == s@.skip(start as int),
{
    let mut res: Vec<u8> = Vec::new();
    let mut i: usize = start;
    while i < s.len()
        invariant
            start <= i <= s.len(),
            res@ == s@.subrange(start as int, i as int),
        decreases s.len() - i,
    {
        res.push(s[i]);
        i = i + 1;
        assert(res@ =~= s@.subrange(start as int, i as int));
    }
    assert(res@ =~= s@.skip(start as int));
    res
}

/// The bytes of `s` before index `end`.
pub fn bytes_before(s: &Vec<u8>, end: usize) -> (res: Vec<u8>)
    requires
        end <= s.len(),
    ensures
        res@ == s@.take(end as int),
{
    let mut res: Vec<u8> = Vec::new();
    let mut i: usize = 0;
    while i < end
        invariant
            end <= s.len(),
            i <= end,
            res@ == s@.take(i as int),
        decreases end - i,
    {
        res.push(s[i]);
        i = i + 1;
        assert(res@ =~= s@.take(i as int));
    }
    res
}

/// `a` followed by `b`.
pub fn concat(a: &Vec<u8>, b: &Vec<u8>) -> (res: Vec<u8>)
    ensures
        res@ == a@ + b@,
{
    let mut res = bytes_from(a, 0);
    assert(a@.skip(0) =~= a@);
    let mut i: usize = 0;
    while i < b.len()
        invariant
            i <= b.len(),
            res@ == a@ + b@.take(i as int),
        decreases b.len() - i,
    {
        res.push(b[i]);
        i = i + 1;
        assert(res@ =~= a@ + b@.take(i as int));
    }
    assert(b@.take(b.len() as int) =~= b@);
    res
}

/// The name under which the wrapping exports the wrapper of `function`:
/// `WRAPPED__` and the function's name.
pub fn wrapper_name(function: &Vec<u8>) -> (res: Vec<u8>)
    ensures
        res@ == wrapped_prefix() + seq![95u8] + function@,
{
    let mut prefix = wrapped_prefix_bytes();
    prefix.push(95u8);
    assert(prefix@ =~= wrapped_prefix() + seq![95u8]);
    concat(&prefix, function)
}

/// The name that the wrapping gives to the body of `function` itself:
/// the function's name and `_inner`.
pub fn inner_name(function: &Vec<u8>) -> (res: Vec<u8>)
    ensures
        res@ == function@ + seq![95u8, 105u8, 110u8, 110u8, 101u8, 114u8],
{
    let suffix = vec![95u8, 105u8, 110u8, 110u8, 101u8, 114u8];
    assert(suffix@ =~= seq![95u8, 105u8, 110u8, 110u8, 101u8, 114u8]);
    concat(function, &suffix)
}

/// The name of the metadata export with key `key` for `function`: the key,
/// `__` and the function's name.
pub fn metadata_name(key: &Vec<u8>, function: &Vec<u8>) -> (res: Vec<u8>)
    ensures
        res@ == key@ + separator() + function@,
{
    let head = concat(key, &vec![95u8, 95u8]);
    assert(head@ =~= key@ + separator());
    concat(&head, function)
}

/// The key of the signature export.
pub fn signature_key_bytes() -> (res: Vec<u8>)
    ensures
        res@ == signature_key(),
{
    metadata_prefix_bytes()
}

/// The key of the argument count export.
pub fn arg_count_key_bytes() -> (res: Vec<u8>)
    ensures
        res@ == arg_count_key(),
{
    let suffix = vec![95u8, 65u8, 82u8, 71u8, 95u8, 67u8, 79u8, 85u8, 78u8, 84u8];
    assert(suffix@ =~= seq![95u8, 65u8, 82u8, 71u8, 95u8, 67u8, 79u8, 85u8, 78u8, 84u8]);
    concat(&metadata_prefix_bytes(), &suffix)
}

/// The key of the result count export.
pub fn return_count_key_bytes() -> (res: Vec<u8>)
    ensures
        res@ == return_count_key(),
{
    let suffix = vec![95u8, 82u8, 69u8, 84u8, 85u8, 82u8, 78u8, 95u8, 67u8, 79u8, 85u8, 78u8, 84u8];
    assert(suffix@ =~= seq![
        95u8, 82u8, 69u8, 84u8, 85u8, 82u8, 78u8, 95u8, 67u8, 79u8, 85u8, 78u8, 84u8,
    ]);
    concat(&metadata_prefix_bytes(), &suffix)
}

/// The name of the export that a rewritten wrapper takes: what follows
/// `WRAPPED_` in the wrapper's export name, or nothing if the name does not
/// start so.
pub fn exported_identifier(export_name: &Vec<u8>) -> (res: Option<Vec<u8>>)
    ensures
        match res {
            Some(id) => starts_with(export_name@, wrapped_prefix()) && id@ == export_name@.skip(
                wrapped_prefix().len() as int,
            ),
            None => !starts_with(export_name@, wrapped_prefix()),
        },
{
    let prefix = wrapped_prefix_bytes();
    if bytes_start_with(export_name, &prefix) {
        Some(bytes_from(export_name, prefix.len()))
    } else {
        None
    }
}

/// Splits `name` at its first `__` into what comes before and what comes
/// after; nothing if it holds no `__`.
pub fn split_at_separator(name: &Vec<u8>) -> (res: Option<(Vec<u8>, Vec<u8>)>)
    ensures
        match first_double_underscore(name@) {
            Some(i) => res matches Some((a, b)) && a@ == name@.take(i) && b@ == name@.skip(i + 2),
            None => res is None,
        },
{
    let mut i: usize = 0;
    while i < name.len() && i + 1 < name.len()
        invariant
            i <= name.len(),
            forall|j: int| 0 <= j < i ==> !#[trigger] separator_at(name@, j),
        decreases name.len() - i,
    {
        if name[i] == 95u8 && name[i + 1] == 95u8 {
            proof {
                assert(separator_at(name@, i as int));
                lemma_first_double_underscore_at(name@, i as int);
            }
            let before = bytes_before(name, i);
            let after = bytes_from(name, i + 2);
            return Some((before, after));
        }
        i = i + 1;
    }
    proof {
        assert forall|k: int| !#[trigger] separator_at(name@, k) by {
            if separator_at(name@, k) {
                assert(k < i);
            }
        }
        lemma_first_double_underscore_none(name@);
    }
    None
}

/// `s` holds no `__` and does not end in `_`.
pub open spec fn separable(s: Seq<u8>) -> bool {
    &&& forall|i: int| !#[trigger] separator_at(s, i)
    &&& s.len() > 0 ==> s.last() != 95u8
}

/// The first `__` of a key that is [`separable`], followed by `__` and any
/// name, is the one right after the key.
pub proof fn lemma_split_after_key(key: Seq<u8>, name: Seq<u8>)
    requires
        separable(key),
    ensures
        first_double_underscore(key + separator() + name) == Some(key.len() as int),
{
    let s = key + separator() + name;
    let k = key.len() as int;
    assert forall|j: int| 0 <= j < k implies !#[trigger] separator_at(s, j) by {
        if separator_at(s, j) {
            assert(s[j] == key[j]);
            if j + 1 < k {
                assert(s[j + 1] == key[j + 1]);
                assert(separator_at(key, j));
            } else {
                assert(key[j] == key.last());
            }
        }
    }
    assert(s[k] == 95u8 && s[k + 1] == 95u8);
    assert(separator_at(s, k));
    lemma_first_double_underscore_at(s, k);
}

/// The three metadata keys start with the metadata prefix and are
/// [`separable`].
pub proof fn lemma_metadata_keys()
    ensures
        starts_with(signature_key(), metadata_prefix()),
        starts_with(arg_count_key(), metadata_prefix()),
        starts_with(return_count_key(), metadata_prefix()),
        separable(signature_key()),
        separable(arg_count_key()),
        separable(return_count_key()),
{
    assert(signature_key().take(metadata_prefix().len() as int) =~= metadata_prefix());
    assert(arg_count_key().take(metadata_prefix().len() as int) =~= metadata_prefix());
    assert(return_count_key().take(metadata_prefix().len() as int) =~= metadata_prefix());
}

/// Splitting a name built from a separable key that starts with `p` gives
/// back the key and the function name.
proof fn lemma_split_round_trip(key: Seq<u8>, function: Seq<u8>, p: Seq<u8>)
    requires
        starts_with(key, p),
        separable(key),
    ensures
        starts_with(key + separator() + function, p),
        first_double_underscore(key + separator() + function) == Some(key.len() as int),
        (key + separator() + function).take(key.len() as int) == key,
        (key + separator() + function).skip(key.len() as int + 2) == function,
{
    lemma_split_after_key(key, function);
    let s = key + separator() + function;
    assert(s.take(p.len() as int) =~= key.take(p.len() as int));
    assert(s.take(key.len() as int) =~= key);
    assert(s.skip(key.len() as int + 2) =~= function);
}

/// A name that [`metadata_name`] builds from a metadata key and any function
/// name starts with the metadata prefix, and splitting it at its first `__`
/// gives back the key and the function name.
pub proof fn lemma_metadata_name_round_trip(key: Seq<u8>, function: Seq<u8>)
    requires
        key == signature_key() || key == arg_count_key() || key == return_count_key(),
    ensures
        starts_with(key + separator() + function, metadata_prefix()),
        first_double_underscore(key + separator() + function) == Some(key.len() as int),
        (key + separator() + function).take(key.len() as int) == key,
        (key + separator() + function).skip(key.len() as int + 2) == function,
{
    lemma_metadata_keys();
    assert(starts_with(key, metadata_prefix()) && separable(key));
    lemma_split_round_trip(key, function, metadata_prefix());
}

/// The rewriting names the export of a rewritten wrapper by what follows
/// `WRAPPED_` in the wrapper's name, which for the name [`wrapper_name`]
/// builds is `_` followed by the function's name.
pub proof fn lemma_wrapper_name_identifier(function: Seq<u8>)
    ensures
        starts_with(wrapped_prefix() + seq![95u8] + function, wrapped_prefix()),
        (wrapped_prefix() + seq![95u8] + function).skip(wrapped_prefix().len() as int) == seq![95u8]
            + function,
{
    let s = wrapped_prefix() + seq![95u8] + function;
    assert(s.take(wrapped_prefix().len() as int) =~= wrapped_prefix());
    assert(s.skip(wrapped_prefix().len() as int) =~= seq![95u8] + function);
}

} // verus!

//! The persistent hash collections of the `im` crate, as far as the
//! inference engine uses them.
//!
//! Nothing in this file is proved: each function calls `im` and states what
//! that crate's source shows of the call. The rest of the library is
//! verified against these statements.
//!
//! The maps are keyed by `String`. The sets hold [`VarName`]s, which are
//! equal exactly when their models are, and are hashed by their structure,
//! so that a set holds one element for each model.

use crate::types::{Ty, TyVar, Type, VarName};
use vstd::prelude::*;

verus! {

/// `im::HashMap`, opaque to the verifier.
#[verifier::external_type_specification]
#[verifier::external_body]
#[verifier::reject_recursive_types(K)]
#[verifier::reject_recursive_types(V)]
#[verifier::reject_recursive_types(S)]
pub struct ExImHashMap<K, V, S>(im::HashMap<K, V, S>);

/// `im::HashSet`, opaque to the verifier.
#[verifier::external_type_specification]
#[verifier::external_body]
#[verifier::reject_recursive_types(A)]
#[verifier::reject_recursive_types(S)]
pub struct ExImHashSet<A, S>(im::HashSet<A, S>);

/// A finite mapping from type-variable names to types.
pub type Substitution = im::HashMap<String, Type>;

/// The entries of a substitution: each key that is present, with the model
/// of the type stored under it.
pub uninterp spec fn subst_map(s: im::HashMap<String, Type>) -> Map<Seq<char>, Ty>;

/// The elements of a set of names, as models.
pub uninterp spec fn var_set(s: im::HashSet<VarName>) -> Set<TyVar>;

/// `im::HashMap::new`: a map without entries.
#[verifier::external_body]
pub(crate) fn subst_new() -> (r: Substitution)
    ensures
        subst_map(r) =~= Map::empty(),
{
    im::HashMap::new()
}

/// `im::HashMap::get`: the value stored under `key`, or `None` where the
/// map has no such key.
#[verifier::external_body]
pub(crate) fn subst_get<'a>(s: &'a Substitution, key: &String) -> (r: Option<&'a Type>)
    ensures
        match r {
            Some(t) => subst_map(*s).contains_key(key@) && t@ == subst_map(*s)[key@],
            None => !subst_map(*s).contains_key(key@),
        },
{
    s.get(key)
}

/// `im::HashMap::insert`: stores `value` under `key`, replacing what was
/// stored there before; all other entries stay.
#[verifier::external_body]
pub(crate) fn subst_insert(s: &mut Substitution, key: String, value: Type)
    ensures
        subst_map(*final(s)) == subst_map(*old(s)).insert(key@, value@),
{
    s.insert(key, value);
}

/// `im::HashMap::update`: a new map that holds `value` under `key` and is
/// otherwise as `s`.
#[verifier::external_body]
pub(crate) fn subst_update(s: &Substitution, key: String, value: Type) -> (r: Substitution)
    ensures
        subst_map(r) == subst_map(*s).insert(key@, value@),
{
    s.update(key, value)
}

/// `im::HashMap::union`: the entries of both maps. For a key that both
/// hold, the source keeps the value of the map with more entries, and that
/// of `a` where both have as many.
#[verifier::external_body]
pub(crate) fn subst_union(a: Substitution, b: Substitution) -> (r: Substitution)
    ensures
        subst_map(r) == if subst_map(a).len() >= subst_map(b).len() {
            subst_map(b).union_prefer_right(subst_map(a))
        } else {
            subst_map(a).union_prefer_right(subst_map(b))
        },
{
    a.union(b)
}

/// `im::HashMap::union_with`, with a function that keeps its second
/// argument: the entries of both maps, and for a key that both hold the
/// value of `top`.
#[verifier::external_body]
pub(crate) fn subst_overlay(base: Substitution, top: Substitution) -> (r: Substitution)
    ensures
        subst_map(r) == subst_map(base).union_prefer_right(subst_map(top)),
{
    base.union_with(top, |_, value| value)
}

/// `im::HashMap::intersection`: the entries of `a` whose key `b` holds too,
/// with the values of `a`.
#[verifier::external_body]
pub(crate) fn subst_intersection(a: Substitution, b: Substitution) -> (r: Substitution)
    ensures
        subst_map(r) == subst_map(a).restrict(subst_map(b).dom()),
{
    a.intersection(b)
}

/// `Clone::clone` of `im::HashMap`: a map with the same entries.
#[verifier::external_body]
pub(crate) fn subst_clone(s: &Substitution) -> (r: Substitution)
    ensures
        subst_map(r) == subst_map(*s),
{
    s.clone()
}

/// `im::HashMap::keys`: every key of the map once, in the order in which
/// the map is walked; nothing is known of that order.
#[verifier::external_body]
pub(crate) fn subst_keys(s: &Substitution) -> (r: Vec<String>)
    ensures
        forall|i: int, j: int| 0 <= i < j < r@.len() ==> r@[i]@ != r@[j]@,
        forall|i: int| 0 <= i < r@.len() ==> subst_map(*s).contains_key(#[trigger] r@[i]@),
        forall|k: Seq<char>|
            subst_map(*s).contains_key(k) ==> exists|i: int| 0 <= i < r@.len() && r@[i]@ == k,
{
    s.keys().cloned().collect()
}

/// `im::HashSet::new`: a set without elements.
#[verifier::external_body]
pub(crate) fn var_set_new() -> (r: im::HashSet<VarName>)
    ensures
        var_set(r) =~= Set::empty(),
{
    im::HashSet::new()
}

/// `im::HashSet::insert`: adds `v` to the set; a set that holds an equal
/// name already keeps its elements.
#[verifier::external_body]
pub(crate) fn var_set_insert(s: &mut im::HashSet<VarName>, v: VarName)
    ensures
        var_set(*final(s)) == var_set(*old(s)).insert(v@),
{
    s.insert(v);
}

/// `im::HashSet::union`: the elements of both sets.
#[verifier::external_body]
pub(crate) fn var_set_union(a: im::HashSet<VarName>, b: im::HashSet<VarName>) -> (r:
    im::HashSet<VarName>)
    ensures
        var_set(r) == var_set(a).union(var_set(b)),
{
    a.union(b)
}

/// `im::HashSet::iter`: every element of the set once, in the order in
/// which the set is walked; nothing is known of that order.
#[verifier::external_body]
pub(crate) fn var_set_items(s: &im::HashSet<VarName>) -> (r: Vec<VarName>)
    ensures
        forall|i: int, j: int| 0 <= i < j < r@.len() ==> r@[i]@ != r@[j]@,
        forall|i: int| 0 <= i < r@.len() ==> var_set(*s).contains(#[trigger] r@[i]@),
        forall|v: TyVar| var_set(*s).contains(v) ==> exists|i: int| 0 <= i < r@.len() && r@[i]@ == v,
{
    s.iter().cloned().collect()
}

} // verus!

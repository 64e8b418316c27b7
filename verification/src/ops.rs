//! What each store operation means on the abstract tree.
//!
//! The executable path resolver and merge engine are specified against
//! these functions, and the library's laws are theorems about them.

use vstd::prelude::*;

use crate::errors::I18nError;
use crate::node::TreeV;

verus! {

/// Walking `path` down `t`: each segment but the last must name a branch
/// child; the last may name anything.  Fails with `KeyNotFound` when a
/// segment is absent and with `TypeMismatch` when a segment other than
/// the last addresses a leaf.
pub open spec fn resolve_spec(t: TreeV, path: Seq<Seq<char>>) -> Result<TreeV, I18nError>
    recommends
        path.len() >= 1,
    decreases path.len(),
{
    match t {
        TreeV::Leaf(_) => Err(I18nError::TypeMismatch),
        TreeV::Branch(m) => {
            let k = path[0];
            if !m.dom().contains(k) {
                Err(I18nError::KeyNotFound)
            } else if path.len() <= 1 {
                Ok(m[k])
            } else {
                resolve_spec(m[k], path.skip(1))
            }
        },
    }
}

/// Writing `v` at `path` in `t`, creating missing intermediate branches
/// as empty ones.  Fails with `TypeMismatch` exactly when a segment other
/// than the last addresses an existing leaf; the tree is then unchanged,
/// since a leaf can only be met before anything was created.
pub open spec fn update_spec(t: TreeV, path: Seq<Seq<char>>, v: TreeV) -> Result<
    TreeV,
    I18nError,
>
    recommends
        path.len() >= 1,
    decreases path.len(),
{
    match t {
        TreeV::Leaf(_) => Err(I18nError::TypeMismatch),
        TreeV::Branch(m) => {
            let k = path[0];
            if path.len() <= 1 {
                Ok(TreeV::Branch(m.insert(k, v)))
            } else {
                let child = if m.dom().contains(k) {
                    m[k]
                } else {
                    TreeV::Branch(Map::empty())
                };
                match update_spec(child, path.skip(1), v) {
                    Ok(c) => Ok(TreeV::Branch(m.insert(k, c))),
                    Err(e) => Err(e),
                }
            }
        },
    }
}

/// Removing the entry that `path` addresses, if it exists.  A path that
/// does not fully resolve leaves the tree as it was: removal never
/// fails.  Ancestor branches emptied by the removal are kept.
pub open spec fn remove_spec(t: TreeV, path: Seq<Seq<char>>) -> TreeV
    recommends
        path.len() >= 1,
    decreases path.len(),
{
    match t {
        TreeV::Leaf(_) => t,
        TreeV::Branch(m) => {
            let k = path[0];
            if path.len() <= 1 {
                TreeV::Branch(m.remove(k))
            } else if m.dom().contains(k) {
                TreeV::Branch(m.insert(k, remove_spec(m[k], path.skip(1))))
            } else {
                t
            }
        },
    }
}

/// What setting translations for a locale does to the whole store: a
/// new locale takes the incoming tree as it is; an existing locale's
/// tree deep-merges with it.
pub open spec fn set_store_spec(
    store: Map<Seq<char>, TreeV>,
    locale: Seq<char>,
    tree: TreeV,
) -> Map<Seq<char>, TreeV> {
    if store.dom().contains(locale) {
        store.insert(locale, merge_spec(store[locale], tree))
    } else {
        store.insert(locale, tree)
    }
}

/// What reading a path of a locale yields: the locale must exist, then
/// the path resolves within its tree.
pub open spec fn get_store_spec(
    store: Map<Seq<char>, TreeV>,
    locale: Seq<char>,
    path: Seq<Seq<char>>,
) -> Result<TreeV, I18nError> {
    if !store.dom().contains(locale) {
        Err(I18nError::LocaleNotFound)
    } else {
        resolve_spec(store[locale], path)
    }
}

/// What writing a value at a path of a locale does to the whole store.
pub open spec fn update_store_spec(
    store: Map<Seq<char>, TreeV>,
    locale: Seq<char>,
    path: Seq<Seq<char>>,
    v: TreeV,
) -> Result<Map<Seq<char>, TreeV>, I18nError> {
    if !store.dom().contains(locale) {
        Err(I18nError::LocaleNotFound)
    } else {
        match update_spec(store[locale], path, v) {
            Ok(t) => Ok(store.insert(locale, t)),
            Err(e) => Err(e),
        }
    }
}

/// What deleting a path of a locale does to the whole store: the locale
/// must exist; within it, removal of an unresolvable path changes
/// nothing.
pub open spec fn remove_store_spec(
    store: Map<Seq<char>, TreeV>,
    locale: Seq<char>,
    path: Seq<Seq<char>>,
) -> Result<Map<Seq<char>, TreeV>, I18nError> {
    if !store.dom().contains(locale) {
        Err(I18nError::LocaleNotFound)
    } else {
        Ok(store.insert(locale, remove_spec(store[locale], path)))
    }
}

/// What formatting a translation yields: the path must resolve to a
/// leaf, whose text is formatted under the argument mapping.
pub open spec fn format_store_spec(
    store: Map<Seq<char>, TreeV>,
    locale: Seq<char>,
    path: Seq<Seq<char>>,
    args: Map<Seq<char>, Seq<char>>,
) -> Result<Seq<char>, I18nError> {
    match get_store_spec(store, locale, path) {
        Ok(TreeV::Leaf(s)) => Ok(crate::format::format_spec(s, args)),
        Ok(TreeV::Branch(_)) => Err(I18nError::FormatTargetNotString),
        Err(e) => Err(e),
    }
}

/// Deep merge: where both trees carry a branch the children merge per
/// name, keys only in `existing` stay, keys only in `incoming` come in;
/// any other pairing lets `incoming` replace `existing` wholesale.
pub open spec fn merge_spec(existing: TreeV, incoming: TreeV) -> TreeV
    decreases incoming,
{
    if existing is Branch && incoming is Branch {
        let mo = existing->Branch_0;
        let mn = incoming->Branch_0;
        TreeV::Branch(
            Map::new(
                |k: Seq<char>| mo.dom().contains(k) || mn.dom().contains(k),
                |k: Seq<char>|
                    if mn.dom().contains(k) {
                        if mo.dom().contains(k) {
                            merge_spec(mo[k], mn[k])
                        } else {
                            mn[k]
                        }
                    } else {
                        mo[k]
                    },
            ),
        )
    } else {
        incoming
    }
}

} // verus!

//! The laws the store obeys, proved once and for all over the abstract
//! model that the public contracts speak of.

use vstd::prelude::*;

use crate::errors::I18nError;
use crate::format::format_spec;
use crate::format::ident_run;
use crate::format::is_ident_char;
use crate::format::lemma_ident_run;
use crate::format::lemma_ident_run_is;
use crate::node::TreeV;
use crate::ops::get_store_spec;
use crate::ops::merge_spec;
use crate::ops::remove_spec;
use crate::ops::remove_store_spec;
use crate::ops::resolve_spec;
use crate::ops::set_store_spec;
use crate::ops::update_spec;
use crate::ops::update_store_spec;

verus! {

/// After a successful write of `v` at `path`, resolving `path` yields
/// `v`.
pub proof fn lemma_update_then_resolve(t: TreeV, path: Seq<Seq<char>>, v: TreeV)
    requires
        path.len() >= 1,
        update_spec(t, path, v) is Ok,
    ensures
        resolve_spec(update_spec(t, path, v)->Ok_0, path) == Ok::<TreeV, I18nError>(v),
    decreases path.len(),
{
    let k = path[0];
    let m = t->Branch_0;
    let t2 = update_spec(t, path, v)->Ok_0;
    assert(t is Branch);
    if path.len() == 1 {
        assert(t2 == TreeV::Branch(m.insert(k, v)));
    } else {
        let child = if m.dom().contains(k) {
            m[k]
        } else {
            TreeV::Branch(Map::empty())
        };
        assert(child is Branch);
        assert(update_spec(child, path.skip(1), v) is Ok);
        let c2 = update_spec(child, path.skip(1), v)->Ok_0;
        assert(t2 == TreeV::Branch(m.insert(k, c2)));
        lemma_update_then_resolve(child, path.skip(1), v);
    }
}

/// Updating a translation and then getting it returns the written
/// value, provided the locale exists and the write went through.
pub proof fn lemma_update_then_get(
    store: Map<Seq<char>, TreeV>,
    locale: Seq<char>,
    path: Seq<Seq<char>>,
    v: TreeV,
)
    requires
        path.len() >= 1,
        update_store_spec(store, locale, path, v) is Ok,
    ensures
        get_store_spec(update_store_spec(store, locale, path, v)->Ok_0, locale, path) == Ok::<
            TreeV,
            I18nError,
        >(v),
{
    assert(store.dom().contains(locale));
    lemma_update_then_resolve(store[locale], path, v);
}

/// Deep merge of two branches, name by name: a name only one side
/// carries keeps that side's subtree, a name both carry merges
/// recursively, and where the two subtrees cannot merge shape to shape
/// the incoming one wins.
pub proof fn lemma_merge_branches(mo: Map<Seq<char>, TreeV>, mn: Map<Seq<char>, TreeV>)
    ensures
        ({
            let m = merge_spec(TreeV::Branch(mo), TreeV::Branch(mn))->Branch_0;
            &&& merge_spec(TreeV::Branch(mo), TreeV::Branch(mn)) is Branch
            &&& forall|k: Seq<char>| #![trigger m.dom().contains(k)]
                m.dom().contains(k) <==> mo.dom().contains(k) || mn.dom().contains(k)
            &&& forall|k: Seq<char>| #![trigger m[k]]
                mo.dom().contains(k) && !mn.dom().contains(k) ==> m[k] == mo[k]
            &&& forall|k: Seq<char>| #![trigger m[k]]
                !mo.dom().contains(k) && mn.dom().contains(k) ==> m[k] == mn[k]
            &&& forall|k: Seq<char>| #![trigger m[k]]
                mo.dom().contains(k) && mn.dom().contains(k) ==> m[k] == merge_spec(mo[k], mn[k])
            &&& forall|k: Seq<char>| #![trigger m[k]]
                mo.dom().contains(k) && mn.dom().contains(k) && !(mo[k] is Branch
                    && mn[k] is Branch) ==> m[k] == mn[k]
        }),
{
    let m = merge_spec(TreeV::Branch(mo), TreeV::Branch(mn))->Branch_0;
    assert forall|k: Seq<char>|
        mo.dom().contains(k) && mn.dom().contains(k) && !(mo[k] is Branch && mn[k] is Branch)
        implies #[trigger] m[k] == mn[k] by {
        assert(m[k] == merge_spec(mo[k], mn[k]));
        assert(merge_spec(mo[k], mn[k]) == mn[k]);
    }
}

/// Setting translations twice for a locale the store did not hold
/// leaves the deep merge of the two trees there.
pub proof fn lemma_set_twice_deep_merges(
    store: Map<Seq<char>, TreeV>,
    locale: Seq<char>,
    t1: TreeV,
    t2: TreeV,
)
    requires
        !store.dom().contains(locale),
    ensures
        set_store_spec(store, locale, t1)[locale] == t1,
        set_store_spec(set_store_spec(store, locale, t1), locale, t2)[locale] == merge_spec(
            t1,
            t2,
        ),
{
}

/// After removing `path`, resolving `path` fails: the entry is gone, or
/// never was there.
pub proof fn lemma_remove_then_resolve(t: TreeV, path: Seq<Seq<char>>)
    requires
        path.len() >= 1,
    ensures
        resolve_spec(remove_spec(t, path), path) is Err,
    decreases path.len(),
{
    match t {
        TreeV::Leaf(_) => {},
        TreeV::Branch(m) => {
            let k = path[0];
            if path.len() > 1 && m.dom().contains(k) {
                lemma_remove_then_resolve(m[k], path.skip(1));
            }
        },
    }
}

/// Removing `path` changes nothing a sibling path addresses: same
/// parent, different final segment, same view.
pub proof fn lemma_remove_preserves_siblings(
    t: TreeV,
    path: Seq<Seq<char>>,
    other: Seq<Seq<char>>,
)
    requires
        path.len() >= 1,
        other.len() == path.len(),
        other.take(other.len() - 1) == path.take(path.len() - 1),
        other[other.len() - 1] != path[path.len() - 1],
    ensures
        resolve_spec(remove_spec(t, path), other) == resolve_spec(t, other),
    decreases path.len(),
{
    match t {
        TreeV::Leaf(_) => {},
        TreeV::Branch(m) => {
            let k = path[0];
            let ko = other[0];
            if path.len() == 1 {
                assert(ko != k);
            } else {
                assert(path.take(path.len() - 1)[0] == k);
                assert(other.take(other.len() - 1)[0] == ko);
                assert(ko == k);
                if m.dom().contains(k) {
                    assert(path.skip(1).take(path.len() - 2) =~= path.take(path.len() - 1).skip(
                        1,
                    ));
                    assert(other.skip(1).take(other.len() - 2) =~= other.take(other.len() - 1).skip(
                        1,
                    ));
                    assert(path.skip(1)[path.len() - 2] == path[path.len() - 1]);
                    assert(other.skip(1)[other.len() - 2] == other[other.len() - 1]);
                    lemma_remove_preserves_siblings(m[k], path.skip(1), other.skip(1));
                }
            }
        },
    }
}

/// Deleting a translation makes the same path unresolvable.
pub proof fn lemma_delete_then_has(
    store: Map<Seq<char>, TreeV>,
    locale: Seq<char>,
    path: Seq<Seq<char>>,
)
    requires
        path.len() >= 1,
        store.dom().contains(locale),
    ensures
        remove_store_spec(store, locale, path) is Ok,
        get_store_spec(remove_store_spec(store, locale, path)->Ok_0, locale, path) is Err,
{
    lemma_remove_then_resolve(store[locale], path);
}

/// Deleting a translation leaves its siblings readable, unchanged.
pub proof fn lemma_delete_preserves_siblings(
    store: Map<Seq<char>, TreeV>,
    locale: Seq<char>,
    path: Seq<Seq<char>>,
    other: Seq<Seq<char>>,
)
    requires
        path.len() >= 1,
        store.dom().contains(locale),
        other.len() == path.len(),
        other.take(other.len() - 1) == path.take(path.len() - 1),
        other[other.len() - 1] != path[path.len() - 1],
    ensures
        get_store_spec(remove_store_spec(store, locale, path)->Ok_0, locale, other)
            == get_store_spec(store, locale, other),
{
    lemma_remove_preserves_siblings(store[locale], path, other);
}

/// An empty store holds no locale.
pub proof fn lemma_locale_never_set(locale: Seq<char>)
    ensures
        !Map::<Seq<char>, TreeV>::empty().dom().contains(locale),
{
}

/// Setting translations for one locale neither adds nor removes any
/// other.
pub proof fn lemma_set_preserves_other_locales(
    store: Map<Seq<char>, TreeV>,
    locale: Seq<char>,
    tree: TreeV,
    other: Seq<char>,
)
    requires
        other != locale,
    ensures
        set_store_spec(store, locale, tree).dom().contains(other) == store.dom().contains(other),
{
}

/// After deleting a locale the store no longer holds it.
pub proof fn lemma_locale_gone_after_delete(store: Map<Seq<char>, TreeV>, locale: Seq<char>)
    ensures
        !store.remove(locale).dom().contains(locale),
{
}

/// With no arguments bound, formatting changes nothing: every
/// placeholder, matched by no name, passes through verbatim.
pub proof fn lemma_format_no_args(t: Seq<char>)
    ensures
        format_spec(t, Map::empty()) == t,
    decreases t.len(),
{
    let am = Map::<Seq<char>, Seq<char>>::empty();
    if t.len() == 0 {
    } else if t[0] == '{' {
        lemma_ident_run(t.skip(1));
        let n = ident_run(t.skip(1));
        if n > 0 && n + 1 < t.len() && t[n + 1] == '}' {
            lemma_format_no_args(t.skip(n + 2));
            assert(t.take(n + 2) + t.skip(n + 2) =~= t);
        } else {
            lemma_format_no_args(t.skip(1));
            assert(seq!['{'] + t.skip(1) =~= t);
        }
    } else {
        lemma_format_no_args(t.skip(1));
        assert(seq![t[0]] + t.skip(1) =~= t);
    }
}

/// The names of the placeholders that the scan of `t` meets and leaves
/// unreplaced because `args` does not bind them, in scan order.
pub open spec fn unmatched_tokens(t: Seq<char>, args: Map<Seq<char>, Seq<char>>) -> Seq<Seq<char>>
    decreases t.len(),
    via unmatched_tokens_decreases
{
    if t.len() == 0 {
        Seq::empty()
    } else if t[0] == '{' {
        let n = ident_run(t.skip(1));
        if n > 0 && n + 1 < t.len() && t[n + 1] == '}' {
            let name = t.subrange(1, n + 1);
            if args.dom().contains(name) {
                unmatched_tokens(t.skip(n + 2), args)
            } else {
                seq![name] + unmatched_tokens(t.skip(n + 2), args)
            }
        } else {
            unmatched_tokens(t.skip(1), args)
        }
    } else {
        unmatched_tokens(t.skip(1), args)
    }
}

#[via_fn]
proof fn unmatched_tokens_decreases(t: Seq<char>, args: Map<Seq<char>, Seq<char>>) {
    if t.len() > 0 && t[0] == '{' {
        lemma_ident_run(t.skip(1));
    }
}

/// Whether `needle` occurs in `hay` as a contiguous run.
pub open spec fn contains_seq(hay: Seq<char>, needle: Seq<char>) -> bool {
    exists|i: int, j: int|
        0 <= i && j == i + needle.len() && j <= hay.len() && #[trigger] hay.subrange(i, j)
            == needle
}

/// A run found in `b` is still found after text is put in front of it.
proof fn lemma_contains_shift(a: Seq<char>, b: Seq<char>, needle: Seq<char>)
    requires
        contains_seq(b, needle),
    ensures
        contains_seq(a + b, needle),
{
    let (i, j): (int, int) = choose|i: int, j: int|
        0 <= i && j == i + needle.len() && j <= b.len() && #[trigger] b.subrange(i, j) == needle;
    assert((a + b).subrange(a.len() + i, a.len() + j) =~= b.subrange(i, j));
}

/// Formatting leaves every unmatched placeholder's literal text,
/// braces included, standing in the output.
pub proof fn lemma_unmatched_placeholder_survives(
    t: Seq<char>,
    args: Map<Seq<char>, Seq<char>>,
    name: Seq<char>,
)
    requires
        unmatched_tokens(t, args).contains(name),
    ensures
        contains_seq(format_spec(t, args), seq!['{'] + name + seq!['}']),
    decreases t.len(),
{
    let needle = seq!['{'] + name + seq!['}'];
    let out = format_spec(t, args);
    lemma_ident_run(t.skip(1));
    let n = ident_run(t.skip(1));
    if t[0] == '{' && n > 0 && n + 1 < t.len() && t[n + 1] == '}' {
        let head = t.subrange(1, n + 1);
        if args.dom().contains(head) {
            assert(unmatched_tokens(t.skip(n + 2), args).contains(name));
            lemma_unmatched_placeholder_survives(t.skip(n + 2), args, name);
            lemma_contains_shift(args[head], format_spec(t.skip(n + 2), args), needle);
        } else {
            let toks = seq![head] + unmatched_tokens(t.skip(n + 2), args);
            let j = choose|j: int| 0 <= j < toks.len() && toks[j] == name;
            if j == 0 {
                assert(t.take(n + 2) =~= needle);
                assert(out.subrange(0, needle.len() as int) =~= needle);
                assert(contains_seq(out, needle));
            } else {
                assert(unmatched_tokens(t.skip(n + 2), args)[j - 1] == name);
                lemma_unmatched_placeholder_survives(t.skip(n + 2), args, name);
                lemma_contains_shift(t.take(n + 2), format_spec(t.skip(n + 2), args), needle);
            }
        }
    } else if t[0] == '{' {
        lemma_unmatched_placeholder_survives(t.skip(1), args, name);
        lemma_contains_shift(seq!['{'], format_spec(t.skip(1), args), needle);
    } else {
        lemma_unmatched_placeholder_survives(t.skip(1), args, name);
        lemma_contains_shift(seq![t[0]], format_spec(t.skip(1), args), needle);
    }
}

/// The chunks the scan of `t` emits, in order, each tagged with the
/// placeholder name it replaced, or with nothing when it passed text
/// through verbatim.
pub open spec fn scan_pieces(t: Seq<char>, args: Map<Seq<char>, Seq<char>>) -> Seq<
    (Option<Seq<char>>, Seq<char>),
>
    decreases t.len(),
    via scan_pieces_decreases
{
    if t.len() == 0 {
        Seq::empty()
    } else if t[0] == '{' {
        let n = ident_run(t.skip(1));
        if n > 0 && n + 1 < t.len() && t[n + 1] == '}' {
            let name = t.subrange(1, n + 1);
            if args.dom().contains(name) {
                seq![(Some(name), args[name])] + scan_pieces(t.skip(n + 2), args)
            } else {
                seq![(None, t.take(n + 2))] + scan_pieces(t.skip(n + 2), args)
            }
        } else {
            seq![(None, seq!['{'])] + scan_pieces(t.skip(1), args)
        }
    } else {
        seq![(None, seq![t[0]])] + scan_pieces(t.skip(1), args)
    }
}

#[via_fn]
proof fn scan_pieces_decreases(t: Seq<char>, args: Map<Seq<char>, Seq<char>>) {
    if t.len() > 0 && t[0] == '{' {
        lemma_ident_run(t.skip(1));
    }
}

/// The text of a chunk list, in order.
pub open spec fn pieces_text(ps: Seq<(Option<Seq<char>>, Seq<char>)>) -> Seq<char>
    decreases ps.len(),
{
    if ps.len() == 0 {
        Seq::empty()
    } else {
        ps[0].1 + pieces_text(ps.skip(1))
    }
}

/// The text of one chunk put before a chunk list.
proof fn lemma_pieces_text_cons(p: (Option<Seq<char>>, Seq<char>), ps: Seq<(Option<Seq<char>>, Seq<char>)>)
    ensures
        pieces_text(seq![p] + ps) == p.1 + pieces_text(ps),
{
    let all = seq![p] + ps;
    assert(all[0] == p);
    assert(all.skip(1) =~= ps);
}

/// Formatting emits exactly the scan's chunks, in order.
pub proof fn lemma_format_is_pieces_text(t: Seq<char>, args: Map<Seq<char>, Seq<char>>)
    ensures
        format_spec(t, args) == pieces_text(scan_pieces(t, args)),
    decreases t.len(),
{
    lemma_ident_run(t.skip(1));
    let n = ident_run(t.skip(1));
    if t.len() == 0 {
        assert(format_spec(t, args) =~= pieces_text(scan_pieces(t, args)));
    } else if t[0] == '{' && n > 0 && n + 1 < t.len() && t[n + 1] == '}' {
        let name = t.subrange(1, n + 1);
        lemma_format_is_pieces_text(t.skip(n + 2), args);
        if args.dom().contains(name) {
            lemma_pieces_text_cons((Some(name), args[name]), scan_pieces(t.skip(n + 2), args));
        } else {
            lemma_pieces_text_cons((None, t.take(n + 2)), scan_pieces(t.skip(n + 2), args));
        }
    } else if t[0] == '{' {
        lemma_format_is_pieces_text(t.skip(1), args);
        lemma_pieces_text_cons((None, seq!['{']), scan_pieces(t.skip(1), args));
    } else {
        lemma_format_is_pieces_text(t.skip(1), args);
        lemma_pieces_text_cons((None, seq![t[0]]), scan_pieces(t.skip(1), args));
    }
}

/// Every occurrence of one placeholder is substituted with the same
/// argument value: each chunk the scan tags with `name` carries exactly
/// `args[name]`, however often `name` repeats in the template.
pub proof fn lemma_repeated_placeholder_same_value(
    t: Seq<char>,
    args: Map<Seq<char>, Seq<char>>,
    name: Seq<char>,
)
    ensures
        forall|i: int|
            0 <= i < scan_pieces(t, args).len() && #[trigger] scan_pieces(t, args)[i].0 == Some(
                name,
            ) ==> scan_pieces(t, args)[i].1 == args[name],
    decreases t.len(),
{
    lemma_ident_run(t.skip(1));
    let n = ident_run(t.skip(1));
    let ps = scan_pieces(t, args);
    if t.len() == 0 {
    } else if t[0] == '{' && n > 0 && n + 1 < t.len() && t[n + 1] == '}' {
        lemma_repeated_placeholder_same_value(t.skip(n + 2), args, name);
        let tail = scan_pieces(t.skip(n + 2), args);
        assert forall|i: int|
            0 <= i < ps.len() && #[trigger] ps[i].0 == Some(name) implies ps[i].1
            == args[name] by {
            if i > 0 {
                assert(ps[i] == tail[i - 1]);
            }
        }
    } else if t[0] == '{' {
        lemma_repeated_placeholder_same_value(t.skip(1), args, name);
        let tail = scan_pieces(t.skip(1), args);
        assert forall|i: int|
            0 <= i < ps.len() && #[trigger] ps[i].0 == Some(name) implies ps[i].1
            == args[name] by {
            if i > 0 {
                assert(ps[i] == tail[i - 1]);
            }
        }
    } else {
        lemma_repeated_placeholder_same_value(t.skip(1), args, name);
        let tail = scan_pieces(t.skip(1), args);
        assert forall|i: int|
            0 <= i < ps.len() && #[trigger] ps[i].0 == Some(name) implies ps[i].1
            == args[name] by {
            if i > 0 {
                assert(ps[i] == tail[i - 1]);
            }
        }
    }
}

/// A template that starts with the placeholder `{name}`: when the
/// arguments bind `name` the placeholder becomes the bound value and
/// the rest of the template is formatted on its own; when they do not,
/// its literal text passes through unchanged.  Applied at each step of
/// the scan, this is why one bound name receives one value at every
/// occurrence.
pub proof fn lemma_format_placeholder_head(
    name: Seq<char>,
    rest: Seq<char>,
    args: Map<Seq<char>, Seq<char>>,
)
    requires
        name.len() >= 1,
        forall|j: int| 0 <= j < name.len() ==> is_ident_char(name[j]),
    ensures
        args.dom().contains(name) ==> format_spec(seq!['{'] + name + seq!['}'] + rest, args)
            == args[name] + format_spec(rest, args),
        !args.dom().contains(name) ==> format_spec(seq!['{'] + name + seq!['}'] + rest, args)
            == seq!['{'] + name + seq!['}'] + format_spec(rest, args),
{
    let t = seq!['{'] + name + seq!['}'] + rest;
    let nl = name.len() as int;
    assert(t.len() == nl + 2 + rest.len());
    assert(t[0] == '{');
    assert forall|j: int| 0 <= j < nl implies is_ident_char(#[trigger] t.skip(1)[j]) by {
        assert(t.skip(1)[j] == name[j]);
    }
    assert(t.skip(1)[nl] == '}');
    assert(!is_ident_char('}'));
    lemma_ident_run_is(t.skip(1), nl);
    assert(t.subrange(1, nl + 1) =~= name);
    assert(t.skip(nl + 2) =~= rest);
    assert(t.take(nl + 2) =~= seq!['{'] + name + seq!['}']);
    if !args.dom().contains(name) {
        assert(t.take(nl + 2) + format_spec(rest, args) =~= seq!['{'] + name + seq!['}']
            + format_spec(rest, args));
    }
}

} // verus!

//! The translation store: one tree of translations per locale.
//!
//! The store itself is a plain value with read methods on `&self` and
//! write methods on `&mut self`; a surrounding application that serves
//! several threads puts it behind one reader-writer lock and holds the
//! lock across each call.

use vstd::prelude::*;

use crate::errors::I18nError;
use crate::format::args_unique;
use crate::format::args_view;
use crate::helpers::get_value_by_key;
use crate::helpers::remove_translation_recursive;
use crate::helpers::update_translation_recursive;
use crate::merge::merge_node;
use crate::node::Node;
use crate::node::TreeV;
use crate::node::branch_find;
use crate::node::branch_get;
use crate::node::branch_remove;
use crate::node::entries_view;
use crate::node::entries_wf;
use crate::node::lemma_entries_index_of;
use crate::node::lemma_entries_view_pointwise;
use crate::node::lemma_entries_view_push;
use crate::node::lemma_entries_view_swap_remove;
use crate::ops::format_store_spec;
use crate::ops::get_store_spec;
use crate::ops::merge_spec;
use crate::ops::remove_store_spec;
use crate::ops::set_store_spec;
use crate::ops::update_store_spec;
use crate::path::split_key;
use crate::path::split_path;

verus! {

/// The in-memory store of translations, one tree per locale.
pub struct TranslationManager {
    locales: Vec<(String, Node)>,
}

impl View for TranslationManager {
    type V = Map<Seq<char>, TreeV>;

    closed spec fn view(&self) -> Map<Seq<char>, TreeV> {
        entries_view(self.locales@)
    }
}

impl TranslationManager {
    /// Well-formedness: locale names are unique, their trees are well
    /// formed, and every locale's tree is rooted at a branch.
    pub closed spec fn wf(&self) -> bool {
        &&& entries_wf(self.locales@)
        &&& forall|k: Seq<char>| #![trigger self@[k]]
            self@.dom().contains(k) ==> self@[k] is Branch
    }

    /// An empty store: no locale holds anything.
    pub fn new() -> (r: TranslationManager)
        ensures
            r@ == Map::<Seq<char>, TreeV>::empty(),
            r.wf(),
    {
        let r = TranslationManager { locales: Vec::new() };
        proof {
            assert(r@ =~= Map::<Seq<char>, TreeV>::empty());
        }
        r
    }

    /// Sets translations for `locale`: a new locale takes `tree` as it
    /// is; an existing locale's tree deep-merges with `tree`.
    pub fn set_translations(&mut self, locale: &str, tree: Node) -> (r: Result<(), I18nError>)
        requires
            old(self).wf(),
            tree.wf(),
            tree is Branch,
        ensures
            final(self).wf(),
            r is Ok,
            final(self)@ == set_store_spec(old(self)@, locale@, tree@),
    {
        let ghost s0 = self.locales@;
        let ghost m0 = entries_view(s0);
        let name = locale.to_owned();
        proof {
            assert(tree@ is Branch);
        }
        match branch_find(&self.locales, &name) {
            Some(i) => {
                proof {
                    lemma_entries_index_of(s0, name@, i as int);
                    lemma_entries_view_swap_remove(s0, i as int);
                }
                let pair = self.locales.swap_remove(i);
                let ename = pair.0;
                let existing = pair.1;
                let ghost s1 = self.locales@;
                proof {
                    assert(entries_view(s1) =~= m0.remove(name@));
                    assert(m0[name@] == existing@);
                    assert(existing.wf());
                }
                let merged = merge_node(existing, tree);
                proof {
                    assert(!entries_view(s1).dom().contains(name@));
                    lemma_entries_view_push(s1, ename, merged);
                }
                self.locales.push((ename, merged));
                proof {
                    assert(self@ =~= m0.insert(name@, merge_spec(m0[name@], tree@)));
                    assert forall|k: Seq<char>| self@.dom().contains(k) implies #[trigger] self@[k] is Branch by {
                        if k != name@ {
                            assert(m0.dom().contains(k) && self@[k] == m0[k]);
                        }
                    }
                }
                Ok(())
            },
            None => {
                proof {
                    lemma_entries_view_push(s0, name, tree);
                }
                self.locales.push((name, tree));
                proof {
                    assert(self@ =~= m0.insert(locale@, tree@));
                    assert forall|k: Seq<char>| self@.dom().contains(k) implies #[trigger] self@[k] is Branch by {
                        if k != locale@ {
                            assert(m0.dom().contains(k) && self@[k] == m0[k]);
                        }
                    }
                }
                Ok(())
            },
        }
    }

    /// Retrieves a copy of the node that `key` addresses within
    /// `locale`'s tree.
    pub fn get_translation(&self, locale: &str, key: &str) -> (r: Result<Node, I18nError>)
        requires
            self.wf(),
        ensures
            match r {
                Ok(node) => node.wf() && get_store_spec(self@, locale@, split_path(key@))
                    == Ok::<TreeV, I18nError>(node@),
                Err(e) => get_store_spec(self@, locale@, split_path(key@)) == Err::<
                    TreeV,
                    I18nError,
                >(e),
            },
    {
        let name = locale.to_owned();
        match branch_get(&self.locales, &name) {
            None => Err(I18nError::LocaleNotFound),
            Some(root) => {
                proof {
                    assert(root@ == self@[locale@]);
                    assert(root@ is Branch);
                }
                match root {
                    Node::Leaf(_) => unreached(),
                    Node::Branch(entries) => {
                        match get_value_by_key(entries, key) {
                            Ok(node) => Ok(node.deep_clone()),
                            Err(e) => Err(e),
                        }
                    },
                }
            },
        }
    }

    /// Whether `key` resolves within `locale`'s tree.
    pub fn has_translation(&self, locale: &str, key: &str) -> (b: bool)
        requires
            self.wf(),
        ensures
            b == (get_store_spec(self@, locale@, split_path(key@)) is Ok),
    {
        let name = locale.to_owned();
        match branch_get(&self.locales, &name) {
            None => false,
            Some(root) => {
                proof {
                    assert(root@ == self@[locale@]);
                    assert(root@ is Branch);
                }
                match root {
                    Node::Leaf(_) => unreached(),
                    Node::Branch(entries) => get_value_by_key(entries, key).is_ok(),
                }
            },
        }
    }

    /// Retrieves a copy of `locale`'s whole tree.
    pub fn get_translations(&self, locale: &str) -> (r: Result<Node, I18nError>)
        requires
            self.wf(),
        ensures
            match r {
                Ok(node) => {
                    &&& self@.dom().contains(locale@)
                    &&& node@ == self@[locale@]
                    &&& node.wf()
                    &&& node is Branch
                },
                Err(e) => e == I18nError::LocaleNotFound && !self@.dom().contains(locale@),
            },
    {
        let name = locale.to_owned();
        match branch_get(&self.locales, &name) {
            None => Err(I18nError::LocaleNotFound),
            Some(root) => {
                let copy = root.deep_clone();
                proof {
                    assert(root@ == self@[locale@]);
                    assert(root@ is Branch);
                    assert(copy@ is Branch ==> copy is Branch);
                }
                Ok(copy)
            },
        }
    }

    /// Deletes `locale`'s whole tree; deleting an absent locale changes
    /// nothing and is no error.
    pub fn del_translations(&mut self, locale: &str) -> (r: Result<(), I18nError>)
        requires
            old(self).wf(),
        ensures
            final(self).wf(),
            r is Ok,
            final(self)@ == old(self)@.remove(locale@),
    {
        let ghost m0 = self@;
        let name = locale.to_owned();
        branch_remove(&mut self.locales, &name);
        proof {
            assert forall|k: Seq<char>| self@.dom().contains(k) implies #[trigger] self@[k] is Branch by {
                assert(m0.dom().contains(k) && self@[k] == m0[k]);
            }
        }
        Ok(())
    }

    /// Writes `value` at `key` within `locale`'s tree, creating missing
    /// intermediate branches; fails on an absent locale or on a path
    /// through an existing leaf, and then changes nothing.
    pub fn update_translation(&mut self, locale: &str, key: &str, value: Node) -> (r: Result<
        (),
        I18nError,
    >)
        requires
            old(self).wf(),
            value.wf(),
        ensures
            final(self).wf(),
            match r {
                Ok(_) => update_store_spec(old(self)@, locale@, split_path(key@), value@)
                    == Ok::<Map<Seq<char>, TreeV>, I18nError>(final(self)@),
                Err(e) => final(self)@ == old(self)@ && update_store_spec(
                    old(self)@,
                    locale@,
                    split_path(key@),
                    value@,
                ) == Err::<Map<Seq<char>, TreeV>, I18nError>(e),
            },
    {
        let ghost s0 = self.locales@;
        let ghost m0 = entries_view(s0);
        let name = locale.to_owned();
        match branch_find(&self.locales, &name) {
            None => Err(I18nError::LocaleNotFound),
            Some(i) => {
                proof {
                    lemma_entries_index_of(s0, name@, i as int);
                    lemma_entries_view_swap_remove(s0, i as int);
                }
                let pair = self.locales.swap_remove(i);
                let ename = pair.0;
                let root = pair.1;
                let ghost s1 = self.locales@;
                proof {
                    assert(entries_view(s1) =~= m0.remove(name@));
                    assert(m0[name@] == root@);
                    assert(root.wf());
                    assert(root@ is Branch);
                }
                match root {
                    Node::Leaf(_) => unreached(),
                    Node::Branch(mut sub) => {
                        let ghost sub0 = sub@;
                        proof {
                            assert(m0[name@] == TreeV::Branch(entries_view(sub0)));
                        }
                        let keys = split_key(key);
                        proof {
                            assert(crate::path::path_view(keys@).skip(0) =~= split_path(key@));
                        }
                        let r = update_translation_recursive(&mut sub, &keys, 0, value);
                        let ghost sub1 = sub@;
                        let wrapped = Node::Branch(sub);
                        proof {
                            assert(!entries_view(s1).dom().contains(name@));
                            lemma_entries_view_push(s1, ename, wrapped);
                        }
                        self.locales.push((ename, wrapped));
                        proof {
                            assert(self@ =~= m0.remove(name@).insert(
                                name@,
                                TreeV::Branch(entries_view(sub1)),
                            ));
                            if r is Ok {
                                assert(self@ =~= m0.insert(
                                    name@,
                                    TreeV::Branch(entries_view(sub1)),
                                ));
                            } else {
                                assert(entries_view(sub1) == entries_view(sub0));
                                assert(self@ =~= m0);
                            }
                            assert forall|k: Seq<char>| self@.dom().contains(k)
                                implies #[trigger] self@[k] is Branch by {
                                if k != name@ {
                                    assert(m0.dom().contains(k) && self@[k] == m0[k]);
                                }
                            }
                        }
                        r
                    },
                }
            },
        }
    }

    /// Deletes the node that `key` addresses within `locale`'s tree;
    /// fails only on an absent locale, and a path that does not resolve
    /// changes nothing.
    pub fn del_translation(&mut self, locale: &str, key: &str) -> (r: Result<(), I18nError>)
        requires
            old(self).wf(),
        ensures
            final(self).wf(),
            match r {
                Ok(_) => remove_store_spec(old(self)@, locale@, split_path(key@))
                    == Ok::<Map<Seq<char>, TreeV>, I18nError>(final(self)@),
                Err(e) => final(self)@ == old(self)@ && remove_store_spec(
                    old(self)@,
                    locale@,
                    split_path(key@),
                ) == Err::<Map<Seq<char>, TreeV>, I18nError>(e),
            },
    {
        let ghost s0 = self.locales@;
        let ghost m0 = entries_view(s0);
        let name = locale.to_owned();
        match branch_find(&self.locales, &name) {
            None => Err(I18nError::LocaleNotFound),
            Some(i) => {
                proof {
                    lemma_entries_index_of(s0, name@, i as int);
                    lemma_entries_view_swap_remove(s0, i as int);
                }
                let pair = self.locales.swap_remove(i);
                let ename = pair.0;
                let root = pair.1;
                let ghost s1 = self.locales@;
                proof {
                    assert(entries_view(s1) =~= m0.remove(name@));
                    assert(m0[name@] == root@);
                    assert(root.wf());
                    assert(root@ is Branch);
                }
                match root {
                    Node::Leaf(_) => unreached(),
                    Node::Branch(mut sub) => {
                        let ghost sub0 = sub@;
                        proof {
                            assert(m0[name@] == TreeV::Branch(entries_view(sub0)));
                        }
                        let keys = split_key(key);
                        proof {
                            assert(crate::path::path_view(keys@).skip(0) =~= split_path(key@));
                        }
                        remove_translation_recursive(&mut sub, &keys, 0);
                        let ghost sub1 = sub@;
                        let wrapped = Node::Branch(sub);
                        proof {
                            assert(!entries_view(s1).dom().contains(name@));
                            lemma_entries_view_push(s1, ename, wrapped);
                        }
                        self.locales.push((ename, wrapped));
                        proof {
                            assert(self@ =~= m0.insert(name@, TreeV::Branch(entries_view(sub1))));
                            assert forall|k: Seq<char>| self@.dom().contains(k)
                                implies #[trigger] self@[k] is Branch by {
                                if k != name@ {
                                    assert(m0.dom().contains(k) && self@[k] == m0[k]);
                                }
                            }
                        }
                        Ok(())
                    },
                }
            },
        }
    }

    /// Formats the leaf that `key` addresses within `locale`'s tree,
    /// substituting the arguments into its placeholders.
    pub fn format_translation(&self, locale: &str, key: &str, args: &Vec<(String, String)>) -> (r:
        Result<String, I18nError>)
        requires
            self.wf(),
            args_unique(args@),
        ensures
            match r {
                Ok(out) => format_store_spec(self@, locale@, split_path(key@), args_view(args@))
                    == Ok::<Seq<char>, I18nError>(out@),
                Err(e) => format_store_spec(self@, locale@, split_path(key@), args_view(args@))
                    == Err::<Seq<char>, I18nError>(e),
            },
    {
        let name = locale.to_owned();
        match branch_get(&self.locales, &name) {
            None => Err(I18nError::LocaleNotFound),
            Some(root) => {
                proof {
                    assert(root@ == self@[locale@]);
                    assert(root@ is Branch);
                }
                match root {
                    Node::Leaf(_) => unreached(),
                    Node::Branch(entries) => {
                        match get_value_by_key(entries, key) {
                            Err(e) => Err(e),
                            Ok(node) => {
                                match node {
                                    Node::Leaf(text) => {
                                        crate::format::format_string(text.as_str(), args)
                                    },
                                    Node::Branch(_) => Err(I18nError::FormatTargetNotString),
                                }
                            },
                        }
                    },
                }
            },
        }
    }

    /// Formats a bare template under the argument mapping, without
    /// touching the store.
    pub fn format_string(&self, template: &str, args: &Vec<(String, String)>) -> (r: Result<
        String,
        I18nError,
    >)
        requires
            args_unique(args@),
        ensures
            r is Ok,
            r matches Ok(out) ==> out@ == crate::format::format_spec(template@, args_view(args@)),
    {
        crate::format::format_string(template, args)
    }

    /// A snapshot of the names of all locales the store currently
    /// holds: each name once, and nothing else.
    pub fn get_all_locales(&self) -> (r: Vec<String>)
        requires
            self.wf(),
        ensures
            forall|i: int| #![trigger r@[i]]
                0 <= i < r@.len() ==> self@.dom().contains(r@[i]@),
            forall|k: Seq<char>|
                self@.dom().contains(k) ==> exists|i: int| 0 <= i < r@.len() && #[trigger] r@[i]@
                    == k,
            forall|i: int, j: int| #![trigger r@[i], r@[j]]
                0 <= i < j < r@.len() ==> r@[i]@ != r@[j]@,
    {
        let n = self.locales.len();
        let mut r: Vec<String> = Vec::new();
        let mut i: usize = 0;
        while i < n
            invariant
                entries_wf(self.locales@),
                n == self.locales@.len(),
                i <= n,
                r@.len() == i,
                forall|j: int| #![trigger r@[j]]
                    0 <= j < i ==> r@[j]@ == self.locales@[j].0@,
            decreases n - i,
        {
            r.push(self.locales[i].0.clone());
            i = i + 1;
        }
        proof {
            let s = self.locales@;
            assert forall|idx: int| 0 <= idx < r@.len() implies self@.dom().contains(
                #[trigger] r@[idx]@,
            ) by {
                assert(r@[idx]@ == s[idx].0@);
            }
            assert forall|k: Seq<char>| self@.dom().contains(k) implies exists|idx: int|
                0 <= idx < r@.len() && #[trigger] r@[idx]@ == k by {
                let a = choose|a: int| #![trigger s[a]] 0 <= a < s.len() && s[a].0@ == k;
                assert(r@[a]@ == k);
            }
        }
        r
    }

    /// Whether the store holds any translations for `locale`.
    pub fn has_locale(&self, locale: &str) -> (b: bool)
        ensures
            b == self@.dom().contains(locale@),
    {
        let name = locale.to_owned();
        branch_find(&self.locales, &name).is_some()
    }

    /// Removes every locale.
    pub fn clear_all_translations(&mut self) -> (r: Result<(), I18nError>)
        ensures
            final(self).wf(),
            r is Ok,
            final(self)@ == Map::<Seq<char>, TreeV>::empty(),
    {
        self.locales.clear();
        proof {
            assert(self@ =~= Map::<Seq<char>, TreeV>::empty());
        }
        Ok(())
    }

    /// Retrieves a copy of `locale`'s whole tree.
    pub fn get_all_translations_for_locale(&self, locale: &str) -> (r: Result<Node, I18nError>)
        requires
            self.wf(),
        ensures
            match r {
                Ok(node) => {
                    &&& self@.dom().contains(locale@)
                    &&& node@ == self@[locale@]
                    &&& node.wf()
                    &&& node is Branch
                },
                Err(e) => e == I18nError::LocaleNotFound && !self@.dom().contains(locale@),
            },
    {
        self.get_translations(locale)
    }

    /// A copy of the whole store: every locale with its tree.
    pub fn get_all_translations(&self) -> (r: Vec<(String, Node)>)
        requires
            self.wf(),
        ensures
            entries_view(r@) == self@,
            entries_wf(r@),
    {
        let n = self.locales.len();
        let mut r: Vec<(String, Node)> = Vec::new();
        let mut i: usize = 0;
        while i < n
            invariant
                entries_wf(self.locales@),
                n == self.locales@.len(),
                i <= n,
                r@.len() == i,
                forall|j: int| #![trigger r@[j]]
                    0 <= j < i ==> r@[j].0@ == self.locales@[j].0@
                        && r@[j].1@ == self.locales@[j].1@ && r@[j].1.wf(),
            decreases n - i,
        {
            let name = self.locales[i].0.clone();
            let tree = self.locales[i].1.deep_clone();
            proof {
                assert(self.locales@[i as int].1.wf());
            }
            r.push((name, tree));
            i = i + 1;
        }
        proof {
            lemma_entries_view_pointwise(self.locales@, r@);
            assert forall|i: int, j: int| 0 <= i < j < r@.len() implies r@[i].0@ != r@[j].0@ by {
                assert(r@[i].0@ == self.locales@[i].0@ && r@[j].0@ == self.locales@[j].0@);
            }
        }
        r
    }

    /// Whether `key` resolves within `locale`'s tree.
    pub fn has_key_in_translations(&self, locale: &str, key: &str) -> (b: bool)
        requires
            self.wf(),
        ensures
            b == (get_store_spec(self@, locale@, split_path(key@)) is Ok),
    {
        self.has_translation(locale, key)
    }
}

} // verus!

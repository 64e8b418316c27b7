//! The recursive workers that walk, rewrite and prune translation trees.

use vstd::prelude::*;

use crate::errors::I18nError;
use crate::node::Node;
use crate::node::TreeV;
use crate::node::branch_find;
use crate::node::branch_get;
use crate::node::branch_remove;
use crate::node::branch_set;
use crate::node::entries_view;
use crate::node::entries_wf;
use crate::node::lemma_entries_index_of;
use crate::node::lemma_entries_view_push;
use crate::node::lemma_entries_view_swap_remove;
use crate::ops::remove_spec;
use crate::ops::resolve_spec;
use crate::ops::update_spec;
use crate::path::path_view;
use crate::path::split_key;
use crate::path::split_path;

verus! {

/// Walks `keys[from..]` down the branch holding `entries`, per
/// [`resolve_spec`].
fn resolve_in_entries<'a>(
    entries: &'a Vec<(String, Node)>,
    keys: &Vec<String>,
    from: usize,
) -> (r: Result<&'a Node, I18nError>)
    requires
        entries_wf(entries@),
        from < keys@.len(),
    ensures
        match r {
            Ok(node) => node.wf() && resolve_spec(
                TreeV::Branch(entries_view(entries@)),
                path_view(keys@).skip(from as int),
            ) == Ok::<TreeV, I18nError>(node@),
            Err(e) => resolve_spec(
                TreeV::Branch(entries_view(entries@)),
                path_view(keys@).skip(from as int),
            ) == Err::<TreeV, I18nError>(e),
        },
    decreases keys@.len() - from,
{
    let ghost p = path_view(keys@).skip(from as int);
    let ghost m = entries_view(entries@);
    proof {
        assert(p[0] == keys@[from as int]@);
        assert(p.len() == keys@.len() - from);
    }
    match branch_get(entries, &keys[from]) {
        None => {
            proof {
                assert(!m.dom().contains(p[0]));
            }
            Err(I18nError::KeyNotFound)
        },
        Some(node) => {
            proof {
                assert(m.dom().contains(p[0]) && m[p[0]] == node@);
            }
            if from == keys.len() - 1 {
                proof {
                    assert(p.len() == 1);
                }
                Ok(node)
            } else {
                match node {
                    Node::Leaf(_) => {
                        proof {
                            assert(node@ is Leaf);
                            assert(resolve_spec(node@, p.skip(1)) == Err::<
                                TreeV,
                                I18nError,
                            >(I18nError::TypeMismatch));
                        }
                        Err(I18nError::TypeMismatch)
                    },
                    Node::Branch(sub) => {
                        proof {
                            assert(node@ == TreeV::Branch(entries_view(sub@)));
                            assert(p.skip(1) =~= path_view(keys@).skip(from as int + 1));
                        }
                        resolve_in_entries(sub, keys, from + 1)
                    },
                }
            }
        },
    }
}

/// Resolves a dotted `key` against the branch contents `map` and borrows
/// the node it addresses.
pub fn get_value_by_key<'a>(map: &'a Vec<(String, Node)>, key: &str) -> (r: Result<
    &'a Node,
    I18nError,
>)
    requires
        entries_wf(map@),
    ensures
        match r {
            Ok(node) => node.wf() && resolve_spec(
                TreeV::Branch(entries_view(map@)),
                split_path(key@),
            ) == Ok::<TreeV, I18nError>(node@),
            Err(e) => resolve_spec(TreeV::Branch(entries_view(map@)), split_path(key@))
                == Err::<TreeV, I18nError>(e),
        },
{
    let keys = split_key(key);
    proof {
        assert(path_view(keys@).skip(0) =~= split_path(key@));
    }
    resolve_in_entries(map, &keys, 0)
}

/// Writes `value` at `keys[from..]` inside the branch holding
/// `current_map`, creating missing intermediate branches, per
/// [`update_spec`].  On failure the branch's contents are unchanged.
pub fn update_translation_recursive(
    current_map: &mut Vec<(String, Node)>,
    keys: &Vec<String>,
    from: usize,
    value: Node,
) -> (r: Result<(), I18nError>)
    requires
        entries_wf(old(current_map)@),
        from < keys@.len(),
        value.wf(),
    ensures
        entries_wf(final(current_map)@),
        match r {
            Ok(_) => update_spec(
                TreeV::Branch(entries_view(old(current_map)@)),
                path_view(keys@).skip(from as int),
                value@,
            ) == Ok::<TreeV, I18nError>(TreeV::Branch(entries_view(final(current_map)@))),
            Err(e) => entries_view(final(current_map)@) == entries_view(old(current_map)@)
                && update_spec(
                TreeV::Branch(entries_view(old(current_map)@)),
                path_view(keys@).skip(from as int),
                value@,
            ) == Err::<TreeV, I18nError>(e),
        },
    decreases keys@.len() - from,
{
    let ghost s0 = current_map@;
    let ghost m0 = entries_view(s0);
    let ghost p = path_view(keys@).skip(from as int);
    proof {
        assert(p[0] == keys@[from as int]@);
        assert(p.len() == keys@.len() - from);
    }
    if from == keys.len() - 1 {
        let name = keys[from].clone();
        branch_set(current_map, name, value);
        proof {
            assert(p.len() == 1);
            assert(entries_view(current_map@) == m0.insert(p[0], value@));
        }
        Ok(())
    } else {
        proof {
            assert(p.len() >= 2);
            assert(p.skip(1) =~= path_view(keys@).skip(from as int + 1));
        }
        match branch_find(current_map, &keys[from]) {
            None => {
                proof {
                    assert(!m0.dom().contains(p[0]));
                }
                let mut sub: Vec<(String, Node)> = Vec::new();
                proof {
                    assert(entries_view(sub@) =~= Map::<Seq<char>, TreeV>::empty());
                }
                let r = update_translation_recursive(&mut sub, keys, from + 1, value);
                match r {
                    Ok(_) => {
                        let ghost sub1 = sub@;
                        let child = Node::Branch(sub);
                        let name = keys[from].clone();
                        branch_set(current_map, name, child);
                        proof {
                            assert(update_spec(TreeV::Branch(Map::empty()), p.skip(1), value@)
                                == Ok::<TreeV, I18nError>(TreeV::Branch(entries_view(sub1))));
                            assert(update_spec(TreeV::Branch(m0), p, value@)
                                == Ok::<TreeV, I18nError>(TreeV::Branch(
                                    m0.insert(p[0], TreeV::Branch(entries_view(sub1))),
                                )));
                            assert(entries_view(current_map@)
                                == m0.insert(p[0], TreeV::Branch(entries_view(sub1))));
                        }
                        Ok(())
                    },
                    Err(e) => {
                        proof {
                            assert(update_spec(TreeV::Branch(Map::empty()), p.skip(1), value@)
                                == Err::<TreeV, I18nError>(e));
                            assert(update_spec(TreeV::Branch(m0), p, value@)
                                == Err::<TreeV, I18nError>(e));
                        }
                        Err(e)
                    },
                }
            },
            Some(i) => {
                proof {
                    lemma_entries_index_of(s0, p[0], i as int);
                    lemma_entries_view_swap_remove(s0, i as int);
                }
                let pair = current_map.swap_remove(i);
                let name = pair.0;
                let child = pair.1;
                let ghost s1 = current_map@;
                proof {
                    assert(entries_view(s1) =~= m0.remove(p[0]));
                    assert(!entries_view(s1).dom().contains(p[0]));
                    assert(m0[p[0]] == child@);
                    assert(child.wf());
                }
                let ghost childv = child@;
                match child {
                    Node::Leaf(_) => {
                        proof {
                            lemma_entries_view_push(s1, name, child);
                            assert(childv is Leaf);
                            assert(update_spec(childv, p.skip(1), value@) == Err::<
                                TreeV,
                                I18nError,
                            >(I18nError::TypeMismatch));
                            assert(update_spec(TreeV::Branch(m0), p, value@) == Err::<
                                TreeV,
                                I18nError,
                            >(I18nError::TypeMismatch));
                        }
                        current_map.push((name, child));
                        proof {
                            assert(entries_view(current_map@)
                                =~= m0.remove(p[0]).insert(p[0], childv));
                            assert(entries_view(current_map@) =~= m0);
                        }
                        Err(I18nError::TypeMismatch)
                    },
                    Node::Branch(mut sub) => {
                        let ghost sub0 = sub@;
                        proof {
                            assert(childv == TreeV::Branch(entries_view(sub0)));
                        }
                        let r = update_translation_recursive(&mut sub, keys, from + 1, value);
                        let ghost sub1 = sub@;
                        let wrapped = Node::Branch(sub);
                        proof {
                            lemma_entries_view_push(s1, name, wrapped);
                        }
                        current_map.push((name, wrapped));
                        proof {
                            assert(entries_view(current_map@)
                                =~= m0.remove(p[0]).insert(p[0], TreeV::Branch(entries_view(sub1))));
                            if r is Ok {
                                assert(update_spec(childv, p.skip(1), value@)
                                    == Ok::<TreeV, I18nError>(TreeV::Branch(entries_view(sub1))));
                                assert(update_spec(TreeV::Branch(m0), p, value@)
                                    == Ok::<TreeV, I18nError>(TreeV::Branch(
                                        m0.insert(p[0], TreeV::Branch(entries_view(sub1))),
                                    )));
                                assert(entries_view(current_map@)
                                    =~= m0.insert(p[0], TreeV::Branch(entries_view(sub1))));
                            } else {
                                assert(entries_view(sub1) == entries_view(sub0));
                                assert(update_spec(childv, p.skip(1), value@)
                                    == Err::<TreeV, I18nError>(r->Err_0));
                                assert(update_spec(TreeV::Branch(m0), p, value@)
                                    == Err::<TreeV, I18nError>(r->Err_0));
                                assert(entries_view(current_map@) =~= m0);
                            }
                        }
                        r
                    },
                }
            },
        }
    }
}

/// Removes the entry that `keys[from..]` addresses inside the branch
/// holding `current_map`, per [`remove_spec`].  A path that does not
/// fully resolve leaves the contents as they were.
pub fn remove_translation_recursive(
    current_map: &mut Vec<(String, Node)>,
    keys: &Vec<String>,
    from: usize,
)
    requires
        entries_wf(old(current_map)@),
        from < keys@.len(),
    ensures
        entries_wf(final(current_map)@),
        TreeV::Branch(entries_view(final(current_map)@)) == remove_spec(
            TreeV::Branch(entries_view(old(current_map)@)),
            path_view(keys@).skip(from as int),
        ),
    decreases keys@.len() - from,
{
    let ghost s0 = current_map@;
    let ghost m0 = entries_view(s0);
    let ghost p = path_view(keys@).skip(from as int);
    proof {
        assert(p[0] == keys@[from as int]@);
        assert(p.len() == keys@.len() - from);
    }
    if from == keys.len() - 1 {
        branch_remove(current_map, &keys[from]);
        proof {
            assert(p.len() == 1);
            assert(entries_view(current_map@) == m0.remove(p[0]));
        }
    } else {
        proof {
            assert(p.len() >= 2);
            assert(p.skip(1) =~= path_view(keys@).skip(from as int + 1));
        }
        match branch_find(current_map, &keys[from]) {
            None => {
                proof {
                    assert(!m0.dom().contains(p[0]));
                    assert(remove_spec(TreeV::Branch(m0), p) == TreeV::Branch(m0));
                }
            },
            Some(i) => {
                proof {
                    lemma_entries_index_of(s0, p[0], i as int);
                    lemma_entries_view_swap_remove(s0, i as int);
                }
                let pair = current_map.swap_remove(i);
                let name = pair.0;
                let child = pair.1;
                let ghost s1 = current_map@;
                proof {
                    assert(entries_view(s1) =~= m0.remove(p[0]));
                    assert(!entries_view(s1).dom().contains(p[0]));
                    assert(m0[p[0]] == child@);
                    assert(child.wf());
                }
                let ghost childv = child@;
                match child {
                    Node::Leaf(_) => {
                        proof {
                            lemma_entries_view_push(s1, name, child);
                            assert(childv is Leaf);
                            assert(remove_spec(childv, p.skip(1)) == childv);
                        }
                        current_map.push((name, child));
                        proof {
                            assert(entries_view(current_map@)
                                =~= m0.remove(p[0]).insert(p[0], childv));
                            assert(entries_view(current_map@) =~= m0.insert(p[0], childv));
                            assert(remove_spec(TreeV::Branch(m0), p)
                                == TreeV::Branch(m0.insert(p[0], childv)));
                        }
                    },
                    Node::Branch(mut sub) => {
                        let ghost sub0 = sub@;
                        proof {
                            assert(childv == TreeV::Branch(entries_view(sub0)));
                        }
                        remove_translation_recursive(&mut sub, keys, from + 1);
                        let ghost sub1 = sub@;
                        let wrapped = Node::Branch(sub);
                        proof {
                            lemma_entries_view_push(s1, name, wrapped);
                        }
                        current_map.push((name, wrapped));
                        proof {
                            assert(TreeV::Branch(entries_view(sub1))
                                == remove_spec(childv, p.skip(1)));
                            assert(entries_view(current_map@)
                                =~= m0.remove(p[0]).insert(p[0], TreeV::Branch(entries_view(sub1))));
                            assert(entries_view(current_map@)
                                =~= m0.insert(p[0], remove_spec(childv, p.skip(1))));
                            assert(remove_spec(TreeV::Branch(m0), p)
                                == TreeV::Branch(m0.insert(p[0], remove_spec(m0[p[0]], p.skip(1)))));
                        }
                    },
                }
            },
        }
    }
}

/// Formats `template` by substituting the arguments into its
/// placeholders; see [`crate::format::format_string`].
pub fn format_string(template: &str, args: &Vec<(String, String)>) -> (r: Result<
    String,
    I18nError,
>)
    requires
        crate::format::args_unique(args@),
    ensures
        r is Ok,
        r matches Ok(out) ==> out@ == crate::format::format_spec(
            template@,
            crate::format::args_view(args@),
        ),
{
    crate::format::format_string(template, args)
}

} // verus!

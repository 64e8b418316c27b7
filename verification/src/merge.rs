//! The merge engine: folds an incoming tree into an existing one.

use vstd::prelude::*;

use crate::node::Node;
use crate::node::TreeV;
use crate::node::branch_find;
use crate::node::entries_view;
use crate::node::entries_wf;
use crate::node::lemma_entries_index_of;
use crate::node::lemma_entries_view_push;
use crate::node::lemma_entries_view_skip;
use crate::node::lemma_entries_view_swap_remove;
use crate::ops::merge_spec;

verus! {

/// Merging one more incoming binding `k := v` extends the merged map by
/// `k`, merged with the existing child when there is one.
proof fn lemma_merge_step(mo: Map<Seq<char>, TreeV>, nold: Map<Seq<char>, TreeV>, k: Seq<char>, v: TreeV)
    ensures
        merge_spec(TreeV::Branch(mo), TreeV::Branch(nold.insert(k, v)))->Branch_0
            =~= merge_spec(TreeV::Branch(mo), TreeV::Branch(nold))->Branch_0.insert(
            k,
            if mo.dom().contains(k) {
                merge_spec(mo[k], v)
            } else {
                v
            },
        ),
{
    let nnew = nold.insert(k, v);
    let m1 = merge_spec(TreeV::Branch(mo), TreeV::Branch(nnew))->Branch_0;
    let m2 = merge_spec(TreeV::Branch(mo), TreeV::Branch(nold))->Branch_0.insert(
        k,
        if mo.dom().contains(k) {
            merge_spec(mo[k], v)
        } else {
            v
        },
    );
    assert forall|kk: Seq<char>| m1.dom().contains(kk) <==> m2.dom().contains(kk) by {}
    assert forall|kk: Seq<char>| m1.dom().contains(kk) implies m1[kk] == m2[kk] by {}
    assert(m1 =~= m2);
}

/// Merges `incoming` into `existing`: where both are branches the
/// children merge name by name, anywhere else `incoming` replaces
/// `existing` wholesale.
#[verifier::loop_isolation(false)]
pub fn merge_node(existing: Node, incoming: Node) -> (r: Node)
    requires
        existing.wf(),
        incoming.wf(),
    ensures
        r@ == merge_spec(existing@, incoming@),
        r.wf(),
    decreases incoming,
{
    let ghost ex0 = existing@;
    let ghost inc0 = incoming@;
    let ghost inc_node = incoming;
    match (existing, incoming) {
        (Node::Branch(mut eo), Node::Branch(mut ni)) => {
            let ghost ni_vec0 = ni;
            let ghost ni0 = ni@;
            let ghost mo0 = entries_view(eo@);
            proof {
                assert(ex0 == TreeV::Branch(mo0));
                assert(inc0 == TreeV::Branch(entries_view(ni0)));
                assert(ni0.skip(ni0.len() as int) =~= Seq::<(String, Node)>::empty());
                assert(entries_view(Seq::<(String, Node)>::empty())
                    =~= Map::<Seq<char>, TreeV>::empty());
                assert(merge_spec(TreeV::Branch(mo0), TreeV::Branch(Map::empty()))->Branch_0
                    =~= mo0);
            }
            while ni.len() > 0
                invariant
                    entries_wf(eo@),
                    entries_wf(ni0),
                    inc_node == Node::Branch(ni_vec0),
                    ni_vec0@ == ni0,
                    ni@.len() <= ni0.len(),
                    ni@ == ni0.take(ni@.len() as int),
                    TreeV::Branch(entries_view(eo@)) == merge_spec(
                        TreeV::Branch(mo0),
                        TreeV::Branch(entries_view(ni0.skip(ni@.len() as int))),
                    ),
                decreases ni@.len(),
            {
                let ghost prev = entries_view(eo@);
                let pair = ni.pop().unwrap();
                let name = pair.0;
                let v = pair.1;
                let ghost r = ni@.len() as int;
                proof {
                    assert(ni0.take(r + 1).len() == r + 1);
                    assert(ni0.take(r + 1)[r] == ni0[r]);
                    assert((name, v) == ni0[r]);
                    assert(ni@ =~= ni0.take(r));
                    lemma_entries_view_skip(ni0, r);
                    assert(ni0[r].1.wf());
                    assert(v.wf());
                    assert(decreases_to!(inc_node => inc_node->Branch_0));
                    assert(decreases_to!(ni_vec0 => ni_vec0@));
                    assert(decreases_to!(ni0 => ni0[r]));
                    assert(decreases_to!(ni0[r] => ni0[r].1));
                    assert(decreases_to!(inc_node => v));
                }
                let ghost nold = entries_view(ni0.skip(r + 1));
                let ghost nnew = entries_view(ni0.skip(r));
                proof {
                    assert(nnew == nold.insert(name@, v@));
                    lemma_merge_step(mo0, nold, name@, v@);
                }
                match branch_find(&eo, &name) {
                    Some(i) => {
                        proof {
                            lemma_entries_index_of(eo@, name@, i as int);
                            lemma_entries_view_swap_remove(eo@, i as int);
                            assert(prev.dom().contains(name@));
                            assert(mo0.dom().contains(name@));
                            assert(prev[name@] == mo0[name@]);
                        }
                        let epair = eo.swap_remove(i);
                        let ename = epair.0;
                        let echild = epair.1;
                        let ghost s1 = eo@;
                        proof {
                            assert(entries_view(s1) =~= prev.remove(name@));
                            assert(echild@ == mo0[name@]);
                            assert(echild.wf());
                            assert(ename@ == name@);
                        }
                        let merged = merge_node(echild, v);
                        proof {
                            assert(!entries_view(s1).dom().contains(name@));
                            lemma_entries_view_push(s1, ename, merged);
                        }
                        eo.push((ename, merged));
                        proof {
                            assert(entries_view(eo@) =~= prev.remove(name@).insert(name@, merged@));
                            assert(entries_view(eo@) =~= prev.insert(name@, merged@));
                            assert(merged@ == merge_spec(mo0[name@], v@));
                            assert(entries_view(eo@)
                                =~= merge_spec(TreeV::Branch(mo0), TreeV::Branch(nnew))->Branch_0);
                        }
                    },
                    None => {
                        proof {
                            assert(!prev.dom().contains(name@));
                            assert(!mo0.dom().contains(name@));
                            lemma_entries_view_push(eo@, name, v);
                        }
                        eo.push((name, v));
                        proof {
                            assert(entries_view(eo@) =~= prev.insert(name@, v@));
                            assert(entries_view(eo@)
                                =~= merge_spec(TreeV::Branch(mo0), TreeV::Branch(nnew))->Branch_0);
                        }
                    },
                }
            }
            proof {
                assert(ni0.skip(0) =~= ni0);
            }
            Node::Branch(eo)
        },
        (_, Node::Leaf(s)) => {
            proof {
                assert(inc0 == TreeV::Leaf(s@));
            }
            Node::Leaf(s)
        },
        (Node::Leaf(_), incoming_rest) => {
            proof {
                assert(ex0 is Leaf);
            }
            incoming_rest
        },
    }
}

/// Merges `incoming` into the node behind `existing`, in place.
pub fn merge_translation_values(existing: &mut Node, incoming: Node)
    requires
        old(existing).wf(),
        incoming.wf(),
    ensures
        final(existing)@ == merge_spec(old(existing)@, incoming@),
        final(existing).wf(),
{
    let mut taken = Node::Branch(Vec::new());
    core::mem::swap(existing, &mut taken);
    let merged = merge_node(taken, incoming);
    *existing = merged;
}

} // verus!

//! The tree of translations: string leaves and named branches.

use vstd::prelude::*;

verus! {

/// One element of a translation tree: a leaf string or a branch of
/// uniquely named children.  A node owns its children outright, so the
/// tree is acyclic by construction.
pub enum Node {
    Leaf(String),
    Branch(Vec<(String, Node)>),
}

/// The mathematical shape of a [`Node`]: branches become maps from
/// child name to subtree, so sibling order disappears from contracts.
#[verifier::ext_equal]
pub enum TreeV {
    Leaf(Seq<char>),
    Branch(Map<Seq<char>, TreeV>),
}

/// Whether some entry of `s` is named `k`.
pub open spec fn entries_has_key(s: Seq<(String, Node)>, k: Seq<char>) -> bool {
    exists|i: int| #![trigger s[i]] 0 <= i < s.len() && s[i].0@ == k
}

/// No two entries of `s` share a name.
pub open spec fn entries_unique(s: Seq<(String, Node)>) -> bool {
    forall|i: int, j: int| #![trigger s[i], s[j]] 0 <= i < j < s.len() ==> s[i].0@ != s[j].0@
}

/// An index of an entry of `s` named `k`; meaningful only when
/// `entries_has_key(s, k)` holds.
pub open spec fn entries_index_of(s: Seq<(String, Node)>, k: Seq<char>) -> int {
    choose|i: int| 0 <= i < s.len() && s[i].0@ == k
}

/// The map a branch's entry list stands for: each entry name maps to
/// the abstract tree of its node.
pub open spec fn entries_view(s: Seq<(String, Node)>) -> Map<Seq<char>, TreeV>
    decreases s,
{
    Map::new(
        |k: Seq<char>| entries_has_key(s, k),
        |k: Seq<char>|
            if entries_has_key(s, k) {
                s[entries_index_of(s, k)].1.view()
            } else {
                TreeV::Leaf(Seq::empty())
            },
    )
}

impl Node {
    /// The abstract tree this node represents.
    pub open spec fn view(self) -> TreeV
        decreases self,
    {
        match self {
            Node::Leaf(s) => TreeV::Leaf(s@),
            Node::Branch(entries) => TreeV::Branch(entries_view(entries@)),
        }
    }

    /// Well-formedness: within every branch, child names are unique.
    pub open spec fn wf(self) -> bool
        decreases self,
    {
        match self {
            Node::Leaf(_) => true,
            Node::Branch(entries) => entries_wf(entries@),
        }
    }
}

/// Well-formedness of a branch's entry list: names are unique and every
/// child node is itself well formed.
pub open spec fn entries_wf(s: Seq<(String, Node)>) -> bool
    decreases s,
{
    &&& entries_unique(s)
    &&& forall|i: int| #![trigger s[i]] 0 <= i < s.len() ==> s[i].1.wf()
}

/// With unique names, the index found for a name is the only one that
/// carries it.
pub proof fn lemma_entries_index_of(s: Seq<(String, Node)>, k: Seq<char>, i: int)
    requires
        entries_unique(s),
        0 <= i < s.len(),
        s[i].0@ == k,
    ensures
        entries_has_key(s, k),
        entries_index_of(s, k) == i,
{
    assert(entries_has_key(s, k));
    let j = entries_index_of(s, k);
    assert(0 <= j < s.len() && s[j].0@ == k);
    if i < j {
        assert(s[i].0@ != s[j].0@);
    } else if j < i {
        assert(s[j].0@ != s[i].0@);
    }
}

/// Appending an entry under a fresh name adds exactly that name to the
/// branch's map.
pub proof fn lemma_entries_view_push(s: Seq<(String, Node)>, key: String, node: Node)
    requires
        entries_unique(s),
        !entries_has_key(s, key@),
    ensures
        entries_unique(s.push((key, node))),
        entries_view(s.push((key, node))) =~= entries_view(s).insert(key@, node@),
        entries_wf(s) && node.wf() ==> entries_wf(s.push((key, node))),
{
    let s2 = s.push((key, node));
    let n: int = s.len() as int;
    assert forall|i: int, j: int| 0 <= i < j < s2.len() implies s2[i].0@ != s2[j].0@ by {
        if j == n {
            if s2[i].0@ == key@ {
                assert(s[i].0@ == key@);
                assert(entries_has_key(s, key@));
            }
        } else {
            assert(s2[i] == s[i] && s2[j] == s[j]);
        }
    }
    let m1 = entries_view(s2);
    let m2 = entries_view(s).insert(key@, node@);
    assert forall|k: Seq<char>| m1.dom().contains(k) <==> m2.dom().contains(k) by {
        if k == key@ {
            assert(s2[n].0@ == k);
            assert(entries_has_key(s2, k));
        } else {
            if entries_has_key(s, k) {
                let i = choose|i: int| #![trigger s[i]] 0 <= i < s.len() && s[i].0@ == k;
                assert(s2[i] == s[i]);
                assert(entries_has_key(s2, k));
            }
            if entries_has_key(s2, k) {
                let i = choose|i: int| #![trigger s2[i]] 0 <= i < s2.len() && s2[i].0@ == k;
                assert(i < n);
                assert(s[i] == s2[i]);
                assert(entries_has_key(s, k));
            }
        }
    }
    assert forall|k: Seq<char>| m1.dom().contains(k) implies m1[k] == m2[k] by {
        if k == key@ {
            lemma_entries_index_of(s2, k, n);
        } else {
            let i = choose|i: int| #![trigger s[i]] 0 <= i < s.len() && s[i].0@ == k;
            assert(s2[i] == s[i]);
            lemma_entries_index_of(s, k, i);
            lemma_entries_index_of(s2, k, i);
        }
    }
    assert(m1 =~= m2);
    if entries_wf(s) && node.wf() {
        assert forall|j: int| #![trigger s2[j]] 0 <= j < s2.len() implies s2[j].1.wf() by {
            if j < n {
                assert(s2[j] == s[j]);
            } else {
                assert(s2[j] == (key, node));
            }
        }
    }
}

/// Removing the entry at `i` by a swap with the last entry removes
/// exactly that entry's name from the branch's map.
pub proof fn lemma_entries_view_swap_remove(s: Seq<(String, Node)>, i: int)
    requires
        entries_unique(s),
        0 <= i < s.len(),
    ensures
        entries_unique(s.update(i, s.last()).drop_last()),
        entries_view(s.update(i, s.last()).drop_last()) =~= entries_view(s).remove(s[i].0@),
        entries_wf(s) ==> entries_wf(s.update(i, s.last()).drop_last()),
{
    let k0 = s[i].0@;
    let s2 = s.update(i, s.last()).drop_last();
    let n: int = s.len() as int;
    assert forall|a: int, b: int| 0 <= a < b < s2.len() implies s2[a].0@ != s2[b].0@ by {
        assert(s2[a] == if a == i { s[n - 1] } else { s[a] });
        assert(s2[b] == if b == i { s[n - 1] } else { s[b] });
    }
    let m1 = entries_view(s2);
    let m2 = entries_view(s).remove(k0);
    assert forall|k: Seq<char>| m1.dom().contains(k) <==> m2.dom().contains(k) by {
        if entries_has_key(s2, k) {
            let a = choose|a: int| #![trigger s2[a]] 0 <= a < s2.len() && s2[a].0@ == k;
            if a == i {
                assert(s2[a] == s[n - 1]);
                lemma_entries_index_of(s, k, n - 1);
                if k == k0 {
                    assert(s[i].0@ == s[n - 1].0@);
                    assert(i == n - 1);
                }
            } else {
                assert(s2[a] == s[a]);
                assert(entries_has_key(s, k));
                if k == k0 {
                    lemma_entries_index_of(s, k, a);
                    lemma_entries_index_of(s, k, i);
                }
            }
        }
        if entries_has_key(s, k) && k != k0 {
            let a = choose|a: int| #![trigger s[a]] 0 <= a < s.len() && s[a].0@ == k;
            assert(a != i);
            if a == n - 1 {
                assert(i < n - 1);
                assert(s2[i] == s[n - 1]);
                assert(entries_has_key(s2, k));
            } else {
                assert(s2[a] == s[a]);
                assert(entries_has_key(s2, k));
            }
        }
    }
    assert forall|k: Seq<char>| m1.dom().contains(k) implies m1[k] == m2[k] by {
        let a = choose|a: int| #![trigger s2[a]] 0 <= a < s2.len() && s2[a].0@ == k;
        lemma_entries_index_of(s2, k, a);
        if a == i {
            assert(s2[a] == s[n - 1]);
            lemma_entries_index_of(s, k, n - 1);
        } else {
            assert(s2[a] == s[a]);
            lemma_entries_index_of(s, k, a);
        }
    }
    assert(m1 =~= m2);
    if entries_wf(s) {
        assert forall|j: int| #![trigger s2[j]] 0 <= j < s2.len() implies s2[j].1.wf() by {
            assert(s2[j] == if j == i { s[n - 1] } else { s[j] });
            assert(s[n - 1].1.wf());
            assert(s[j].1.wf());
        }
    }
}

/// Two entry lists with the same names and the same child trees, position
/// by position, stand for the same map.
pub proof fn lemma_entries_view_pointwise(s1: Seq<(String, Node)>, s2: Seq<(String, Node)>)
    requires
        entries_unique(s1),
        s1.len() == s2.len(),
        forall|j: int| #![trigger s2[j]]
            0 <= j < s1.len() ==> s1[j].0@ == s2[j].0@ && s1[j].1@ == s2[j].1@,
    ensures
        entries_unique(s2),
        entries_view(s1) =~= entries_view(s2),
{
    assert forall|i: int, j: int| 0 <= i < j < s2.len() implies s2[i].0@ != s2[j].0@ by {
        assert(s2[i].0@ == s1[i].0@ && s2[j].0@ == s1[j].0@);
    }
    let m1 = entries_view(s1);
    let m2 = entries_view(s2);
    assert forall|k: Seq<char>| m1.dom().contains(k) <==> m2.dom().contains(k) by {
        if entries_has_key(s1, k) {
            let a = choose|a: int| #![trigger s1[a]] 0 <= a < s1.len() && s1[a].0@ == k;
            assert(s2[a].0@ == k);
        }
        if entries_has_key(s2, k) {
            let a = choose|a: int| #![trigger s2[a]] 0 <= a < s2.len() && s2[a].0@ == k;
            assert(s1[a].0@ == k);
        }
    }
    assert forall|k: Seq<char>| m1.dom().contains(k) implies m1[k] == m2[k] by {
        let a = choose|a: int| #![trigger s1[a]] 0 <= a < s1.len() && s1[a].0@ == k;
        lemma_entries_index_of(s1, k, a);
        assert(s2[a].0@ == k);
        lemma_entries_index_of(s2, k, a);
    }
    assert(m1 =~= m2);
}

/// Splitting off the entry at `r`: the entries from `r` on stand for the
/// map of those after `r` plus the binding that entry `r` makes.
pub proof fn lemma_entries_view_skip(s: Seq<(String, Node)>, r: int)
    requires
        entries_unique(s),
        0 <= r < s.len(),
    ensures
        entries_unique(s.skip(r)),
        entries_unique(s.skip(r + 1)),
        !entries_has_key(s.skip(r + 1), s[r].0@),
        entries_view(s.skip(r)) =~= entries_view(s.skip(r + 1)).insert(s[r].0@, s[r].1@),
        entries_wf(s) ==> entries_wf(s.skip(r)) && entries_wf(s.skip(r + 1)),
{
    let a = s.skip(r);
    let b = s.skip(r + 1);
    assert forall|i: int, j: int| 0 <= i < j < a.len() implies a[i].0@ != a[j].0@ by {
        assert(a[i] == s[r + i] && a[j] == s[r + j]);
    }
    assert forall|i: int, j: int| 0 <= i < j < b.len() implies b[i].0@ != b[j].0@ by {
        assert(b[i] == s[r + 1 + i] && b[j] == s[r + 1 + j]);
    }
    if entries_has_key(b, s[r].0@) {
        let i = choose|i: int| #![trigger b[i]] 0 <= i < b.len() && b[i].0@ == s[r].0@;
        assert(b[i] == s[r + 1 + i]);
        assert(s[r].0@ != s[r + 1 + i].0@);
    }
    let m1 = entries_view(a);
    let m2 = entries_view(b).insert(s[r].0@, s[r].1@);
    assert forall|k: Seq<char>| entries_has_key(a, k) <==> m2.dom().contains(k) by {
        if entries_has_key(a, k) {
            let i = choose|i: int| #![trigger a[i]] 0 <= i < a.len() && a[i].0@ == k;
            assert(a[i] == s[r + i]);
            if i > 0 {
                assert(b[i - 1] == s[r + i]);
                assert(entries_has_key(b, k));
            }
        }
        if k != s[r].0@ && entries_has_key(b, k) {
            let i = choose|i: int| #![trigger b[i]] 0 <= i < b.len() && b[i].0@ == k;
            assert(b[i] == s[r + 1 + i]);
            assert(a[i + 1] == s[r + 1 + i]);
            assert(entries_has_key(a, k));
        }
        if k == s[r].0@ {
            assert(a[0] == s[r]);
            assert(entries_has_key(a, k));
        }
    }
    assert forall|k: Seq<char>| m1.dom().contains(k) implies m1[k] == m2[k] by {
        if k == s[r].0@ {
            assert(a[0] == s[r]);
            lemma_entries_index_of(a, k, 0);
        } else {
            let i = choose|i: int| #![trigger b[i]] 0 <= i < b.len() && b[i].0@ == k;
            assert(b[i] == s[r + 1 + i]);
            assert(a[i + 1] == s[r + 1 + i]);
            lemma_entries_index_of(a, k, i + 1);
            lemma_entries_index_of(b, k, i);
        }
    }
    assert(m1 =~= m2);
    if entries_wf(s) {
        assert forall|i: int| #![trigger a[i]] 0 <= i < a.len() implies a[i].1.wf() by {
            assert(a[i] == s[r + i]);
            assert(s[r + i].1.wf());
        }
        assert forall|i: int| #![trigger b[i]] 0 <= i < b.len() implies b[i].1.wf() by {
            assert(b[i] == s[r + 1 + i]);
            assert(s[r + 1 + i].1.wf());
        }
    }
}

/// The position of the entry named `key`, if one exists.
pub fn branch_find(entries: &Vec<(String, Node)>, key: &String) -> (r: Option<usize>)
    ensures
        match r {
            Some(i) => i < entries@.len() && entries@[i as int].0@ == key@,
            None => !entries_has_key(entries@, key@),
        },
{
    let n = entries.len();
    let mut i: usize = 0;
    while i < n
        invariant
            n == entries@.len(),
            i <= n,
            forall|j: int| #![trigger entries@[j]] 0 <= j < i ==> entries@[j].0@ != key@,
        decreases n - i,
    {
        if entries[i].0 == *key {
            return Some(i);
        }
        i = i + 1;
    }
    None
}

/// A borrow of the child named `key`, if one exists.
pub fn branch_get<'a>(entries: &'a Vec<(String, Node)>, key: &String) -> (r: Option<&'a Node>)
    requires
        entries_unique(entries@),
    ensures
        match r {
            Some(node) => {
                &&& entries_has_key(entries@, key@)
                &&& node@ == entries_view(entries@)[key@]
                &&& entries_wf(entries@) ==> node.wf()
            },
            None => !entries_has_key(entries@, key@),
        },
{
    match branch_find(entries, key) {
        Some(i) => {
            proof {
                lemma_entries_index_of(entries@, key@, i as int);
            }
            Some(&entries[i].1)
        },
        None => None,
    }
}

/// Binds `key` to `node` in the entry list, replacing any entry that
/// already carries that name.
pub fn branch_set(entries: &mut Vec<(String, Node)>, key: String, node: Node)
    requires
        entries_unique(old(entries)@),
    ensures
        entries_unique(final(entries)@),
        entries_view(final(entries)@) == entries_view(old(entries)@).insert(key@, node@),
        entries_wf(old(entries)@) && node.wf() ==> entries_wf(final(entries)@),
{
    let ghost s0 = entries@;
    match branch_find(entries, &key) {
        Some(i) => {
            proof {
                lemma_entries_index_of(s0, key@, i as int);
                lemma_entries_view_swap_remove(s0, i as int);
            }
            let _replaced = entries.swap_remove(i);
            let ghost s1 = entries@;
            proof {
                assert(entries_view(s1) =~= entries_view(s0).remove(key@));
                assert(!entries_view(s1).dom().contains(key@));
                lemma_entries_view_push(s1, key, node);
            }
            entries.push((key, node));
            proof {
                assert(entries_view(entries@) =~= entries_view(s0).insert(key@, node@));
            }
        },
        None => {
            proof {
                lemma_entries_view_push(s0, key, node);
            }
            entries.push((key, node));
            proof {
                assert(entries_view(entries@) =~= entries_view(s0).insert(key@, node@));
            }
        },
    }
}

/// Removes the entry named `key`, if one exists; otherwise leaves the
/// list as it was.
pub fn branch_remove(entries: &mut Vec<(String, Node)>, key: &String)
    requires
        entries_unique(old(entries)@),
    ensures
        entries_unique(final(entries)@),
        entries_view(final(entries)@) == entries_view(old(entries)@).remove(key@),
        entries_wf(old(entries)@) ==> entries_wf(final(entries)@),
{
    let ghost s0 = entries@;
    match branch_find(entries, key) {
        Some(i) => {
            proof {
                lemma_entries_index_of(s0, key@, i as int);
                lemma_entries_view_swap_remove(s0, i as int);
            }
            let _removed = entries.swap_remove(i);
            proof {
                assert(entries_view(entries@) =~= entries_view(s0).remove(key@));
            }
        },
        None => {
            proof {
                assert(entries_view(s0) =~= entries_view(s0).remove(key@));
            }
        },
    }
}

impl Node {
    /// A leaf holding `text`.
    pub fn leaf(text: String) -> (r: Node)
        ensures
            r@ == TreeV::Leaf(text@),
            r.wf(),
    {
        Node::Leaf(text)
    }

    /// A branch with no children yet.
    pub fn empty_branch() -> (r: Node)
        ensures
            r@ == TreeV::Branch(Map::<Seq<char>, TreeV>::empty()),
            r.wf(),
            r is Branch,
    {
        let r = Node::Branch(Vec::new());
        proof {
            assert(entries_view(Seq::<(String, Node)>::empty())
                =~= Map::<Seq<char>, TreeV>::empty());
        }
        r
    }

    /// This branch with `child` bound under `name`, replacing any child
    /// that already carries that name.
    pub fn with_child(self, name: &str, child: Node) -> (r: Node)
        requires
            self is Branch,
            self.wf(),
            child.wf(),
        ensures
            r@ == TreeV::Branch(self@->Branch_0.insert(name@, child@)),
            r.wf(),
            r is Branch,
    {
        match self {
            Node::Branch(mut entries) => {
                branch_set(&mut entries, name.to_owned(), child);
                Node::Branch(entries)
            },
            Node::Leaf(_) => unreached(),
        }
    }

    /// Whether this node is a leaf string.
    pub fn is_leaf(&self) -> (b: bool)
        ensures
            b == (self@ is Leaf),
    {
        match self {
            Node::Leaf(_) => true,
            Node::Branch(_) => false,
        }
    }

    /// Whether this node is a branch.
    pub fn is_branch(&self) -> (b: bool)
        ensures
            b == (self@ is Branch),
    {
        match self {
            Node::Leaf(_) => false,
            Node::Branch(_) => true,
        }
    }

    /// The text of this node, when it is a leaf.
    pub fn leaf_value(&self) -> (r: Option<&String>)
        ensures
            match r {
                Some(s) => self@ is Leaf && s@ == self@->Leaf_0,
                None => self@ is Branch,
            },
    {
        match self {
            Node::Leaf(s) => Some(s),
            Node::Branch(_) => None,
        }
    }

    /// A borrow of the child bound under `name`, when this node is a
    /// branch that has one.
    pub fn child<'a>(&'a self, name: &str) -> (r: Option<&'a Node>)
        requires
            self.wf(),
        ensures
            match r {
                Some(c) => {
                    &&& self@ is Branch
                    &&& self@->Branch_0.dom().contains(name@)
                    &&& c@ == self@->Branch_0[name@]
                    &&& c.wf()
                },
                None => self@ is Leaf || !self@->Branch_0.dom().contains(name@),
            },
    {
        match self {
            Node::Leaf(_) => None,
            Node::Branch(entries) => branch_get(entries, &name.to_owned()),
        }
    }

    /// Copies of this branch's children with their names; empty for a
    /// leaf.
    pub fn children(&self) -> (r: Vec<(String, Node)>)
        requires
            self.wf(),
        ensures
            self@ is Branch ==> entries_view(r@) == self@->Branch_0 && entries_wf(r@),
            self@ is Leaf ==> r@.len() == 0,
    {
        match self {
            Node::Leaf(_) => Vec::new(),
            Node::Branch(entries) => {
                let n = entries.len();
                let mut r: Vec<(String, Node)> = Vec::new();
                let mut i: usize = 0;
                while i < n
                    invariant
                        entries_wf(entries@),
                        n == entries@.len(),
                        i <= n,
                        r@.len() == i,
                        forall|j: int| #![trigger r@[j]]
                            0 <= j < i ==> r@[j].0@ == entries@[j].0@
                                && r@[j].1@ == entries@[j].1@ && r@[j].1.wf(),
                    decreases n - i,
                {
                    let name = entries[i].0.clone();
                    let child = entries[i].1.deep_clone();
                    proof {
                        assert(entries@[i as int].1.wf());
                    }
                    r.push((name, child));
                    i = i + 1;
                }
                proof {
                    lemma_entries_view_pointwise(entries@, r@);
                    assert forall|a: int, b: int| 0 <= a < b < r@.len() implies r@[a].0@
                        != r@[b].0@ by {
                        assert(r@[a].0@ == entries@[a].0@ && r@[b].0@ == entries@[b].0@);
                    }
                }
                r
            },
        }
    }

    /// An independent copy of this tree: same shape, same strings.
    pub fn deep_clone(&self) -> (r: Node)
        ensures
            self.wf() ==> r@ == self@ && r.wf(),
        decreases self,
    {
        match self {
            Node::Leaf(s) => Node::Leaf(s.clone()),
            Node::Branch(entries) => {
                let n = entries.len();
                let mut out: Vec<(String, Node)> = Vec::new();
                let mut i: usize = 0;
                while i < n
                    invariant
                        *self == Node::Branch(*entries),
                        n == entries@.len(),
                        i <= n,
                        out@.len() == i,
                        forall|j: int| #![trigger out@[j]]
                            0 <= j < i ==> out@[j].0@ == entries@[j].0@
                                && (entries@[j].1.wf() ==> out@[j].1@ == entries@[j].1@
                                    && out@[j].1.wf()),
                    decreases n - i,
                {
                    proof {
                        assert(*entries == self->Branch_0);
                        assert(decreases_to!(*self => self->Branch_0));
                        assert(decreases_to!(*entries => entries@));
                        assert(decreases_to!(entries@ => entries@[i as int]));
                        assert(decreases_to!(entries@[i as int] => entries@[i as int].1));
                        assert(decreases_to!(*self => entries@[i as int].1));
                    }
                    let name = entries[i].0.clone();
                    let child = entries[i].1.deep_clone();
                    out.push((name, child));
                    i = i + 1;
                }
                proof {
                    if self.wf() {
                        lemma_entries_view_pointwise(entries@, out@);
                    }
                }
                Node::Branch(out)
            },
        }
    }
}

} // verus!

//! Walking a subtree, one path at a time.

use crate::node::TrieNode;
use crate::paths::{
    below, is_leaf_path, is_top_path, leaves, lemma_leaves_without_top, lemma_prefix_trans,
    lemma_prefixes_comparable, root_only, Path,
};
use crate::text::{code, is_scalar, lemma_lists_push, lists};
use vstd::prelude::*;
use vstd::std_specs::iter::IteratorSpec;

verus! {

broadcast use crate::text::lemma_code;

/// A node that is still to be visited, with the path that leads to it.
pub type Pending = (TrieNode, Path);

/// Whether `p` is the path of a node at or below the pending node `entry`:
/// it starts with the path to that node and goes on as one of the node's own.
pub open spec fn reaches(entry: Pending, p: Path) -> bool {
    entry.1.is_prefix_of(p) && entry.0@.contains(p.skip(entry.1.len() as int))
}

/// The paths that a frontier of pending nodes stands for.
pub open spec fn frontier_paths(frontier: Seq<Pending>) -> Set<Path> {
    Set::new(
        |p: Path| exists|i: int| 0 <= i < frontier.len() && reaches(#[trigger] frontier[i], p),
    )
}

/// The pending nodes are well-formed, and none lies below another, so that
/// no path is stood for twice.
pub open spec fn frontier_wf(frontier: Seq<Pending>) -> bool {
    &&& forall|i: int| 0 <= i < frontier.len() ==> (#[trigger] frontier[i]).0.wf()
    &&& forall|i: int, j: int|
        0 <= i < frontier.len() && 0 <= j < frontier.len() && i != j ==> !(
        #[trigger] frontier[i]).1.is_prefix_of((#[trigger] frontier[j]).1)
}

/// A child of a node that is being visited: the number of the `char` on its
/// edge, and the child itself.
pub type Kid = (u32, TrieNode);

/// Whether `kids` lists the children of `node`, each once.
pub open spec fn lists_children(node: TrieNode, kids: Seq<Kid>) -> bool {
    &&& forall|j: int|
        0 <= j < kids.len() ==> is_scalar((#[trigger] kids[j]).0) && kids[j].1.wf() && node.child(
            kids[j].0 as char,
        ) == Some(kids[j].1)
    &&& forall|i: int, j: int|
        0 <= i < j < kids.len() ==> (#[trigger] kids[i]).0 != (#[trigger] kids[j]).0
    &&& forall|c: char| #[trigger]
        node.child(c) is Some ==> exists|j: int|
            0 <= j < kids.len() && (#[trigger] kids[j]).0 == code(c)
}

/// Whether `after` is `before` with its last node visited: that node is gone,
/// and its children `kids` are pending in its place, each with the path to
/// the node and the `char` of its edge.
pub open spec fn visited(before: Seq<Pending>, after: Seq<Pending>, kids: Seq<Kid>) -> bool {
    &&& before.len() > 0
    &&& after.len() == before.len() - 1 + kids.len()
    &&& forall|j: int| 0 <= j < before.len() - 1 ==> #[trigger] after[j] == before[j]
    &&& forall|j: int|
        0 <= j < kids.len() ==> after[before.len() - 1 + j] == (
            (#[trigger] kids[j]).1,
            before.last().1.push(kids[j].0 as char),
        )
}

/// A prefix of `s` with `c` at its end is `s` with `c` at its end, or a
/// prefix of `s`.
proof fn lemma_prefix_of_push(t: Path, s: Path, c: char)
    requires
        t.is_prefix_of(s.push(c)),
    ensures
        t.is_prefix_of(s) || t == s.push(c),
{
    if t.len() <= s.len() {
        assert(t =~= s.subrange(0, t.len() as int));
    } else {
        assert(t =~= s.push(c));
    }
}

/// The path to a pending node is a topmost one among those that the frontier
/// stands for, and below it are the paths of the node.
proof fn lemma_pending_top(frontier: Seq<Pending>, n: int)
    requires
        frontier_wf(frontier),
        0 <= n < frontier.len(),
    ensures
        is_top_path(frontier_paths(frontier), frontier[n].1),
        below(frontier_paths(frontier), frontier[n].1) == frontier[n].0@,
{
    let node = frontier[n].0;
    let s = frontier[n].1;
    let paths = frontier_paths(frontier);
    assert(paths.contains(s)) by {
        assert(s.skip(s.len() as int) =~= Seq::<char>::empty());
        assert(reaches(frontier[n], s));
    }
    assert forall|q: Path| #[trigger] paths.contains(q) && #[trigger] q.is_prefix_of(
        s,
    ) implies q == s by {
        let i = choose|i: int| 0 <= i < frontier.len() && reaches(#[trigger] frontier[i], q);
        lemma_prefix_trans(frontier[i].1, q, s);
        assert(i == n);
        assert(q =~= s);
    }
    assert forall|q: Path| below(paths, s).contains(q) <==> node@.contains(q) by {
        assert((s + q).skip(s.len() as int) =~= q);
        assert(s.is_prefix_of(s + q)) by {
            assert(s =~= (s + q).subrange(0, s.len() as int));
        }
        if paths.contains(s + q) {
            let i = choose|i: int|
                0 <= i < frontier.len() && reaches(#[trigger] frontier[i], s + q);
            lemma_prefixes_comparable(frontier[i].1, s, s + q);
            assert(i == n);
        }
        if node@.contains(q) {
            assert(reaches(frontier[n], s + q));
        }
    }
    assert(below(paths, s) =~= node@);
}

/// Visiting the last pending node hands out its path and nothing else: the
/// frontier stays well-formed, and stands for the paths it stood for but
/// that one.
proof fn lemma_visit(before: Seq<Pending>, after: Seq<Pending>, kids: Seq<Kid>)
    requires
        frontier_wf(before),
        visited(before, after, kids),
        lists_children(before.last().0, kids),
    ensures
        frontier_wf(after),
        frontier_paths(after) == frontier_paths(before).remove(before.last().1),
{
    let n = before.len() - 1;
    let node = before[n].0;
    let s = before[n].1;
    assert forall|c: char| s.is_prefix_of(#[trigger] s.push(c)) by {
        assert(s =~= s.push(c).subrange(0, s.len() as int));
    }
    assert forall|i: int| 0 <= i < after.len() implies (#[trigger] after[i]).0.wf() by {
        if i >= n {
            assert(kids[i - n].1.wf());
            assert(after[n + (i - n)] == (kids[i - n].1, s.push(kids[i - n].0 as char)));
        } else {
            assert(after[i] == before[i]);
        }
    }
    assert forall|i: int, j: int|
        0 <= i < after.len() && 0 <= j < after.len() && i != j implies !(
    #[trigger] after[i]).1.is_prefix_of((#[trigger] after[j]).1) by {
        if after[i].1.is_prefix_of(after[j].1) {
            if i < n && j < n {
                assert(after[i] == before[i] && after[j] == before[j]);
            } else if i < n {
                let kid = kids[j - n];
                assert(after[n + (j - n)] == (kid.1, s.push(kid.0 as char)));
                assert(after[i] == before[i]);
                lemma_prefix_of_push(before[i].1, s, kid.0 as char);
                if before[i].1 == s.push(kid.0 as char) {
                    assert(s.is_prefix_of(before[i].1));
                }
                assert(false);
            } else if j < n {
                let kid = kids[i - n];
                assert(after[n + (i - n)] == (kid.1, s.push(kid.0 as char)));
                assert(after[j] == before[j]);
                lemma_prefix_trans(s, s.push(kid.0 as char), before[j].1);
                assert(false);
            } else {
                let a = kids[i - n];
                let b = kids[j - n];
                assert(after[n + (i - n)] == (a.1, s.push(a.0 as char)));
                assert(after[n + (j - n)] == (b.1, s.push(b.0 as char)));
                assert(s.push(a.0 as char) =~= s.push(b.0 as char).subrange(0, s.len() as int + 1));
                assert(s.push(a.0 as char)[s.len() as int] == s.push(b.0 as char)[s.len() as int]);
                assert(code(a.0 as char) == a.0 && code(b.0 as char) == b.0);
                assert(false);
            }
        }
    }
    assert forall|p: Path|
        frontier_paths(after).contains(p) <==> frontier_paths(before).remove(s).contains(p) by {
        if frontier_paths(after).contains(p) {
            let i = choose|i: int| 0 <= i < after.len() && reaches(#[trigger] after[i], p);
            if i < n {
                assert(after[i] == before[i]);
                assert(reaches(before[i], p));
                assert(p != s);
            } else {
                let kid = kids[i - n];
                let c = kid.0 as char;
                assert(after[n + (i - n)] == (kid.1, s.push(c)));
                lemma_prefix_trans(s, s.push(c), p);
                let q = p.skip(s.len() as int);
                assert(q[0] == c) by {
                    let end = s.len() as int;
                    assert(s.push(c)[end] == p.subrange(0, end + 1)[end]);
                }
                assert(q.drop_first() =~= p.skip(s.len() as int + 1));
                node.lemma_view_step(q);
                assert(reaches(before[n], p));
            }
        }
        if frontier_paths(before).contains(p) && p != s {
            let i = choose|i: int| 0 <= i < before.len() && reaches(#[trigger] before[i], p);
            if i < n {
                assert(after[i] == before[i]);
                assert(reaches(after[i], p));
            } else {
                let q = p.skip(s.len() as int);
                assert(q.len() > 0) by {
                    if q.len() == 0 {
                        assert(p =~= s);
                    }
                }
                node.lemma_view_step(q);
                let c = q[0];
                assert(node.child(c) is Some);
                let j = choose|j: int| 0 <= j < kids.len() && (#[trigger] kids[j]).0 == code(c);
                assert(kids[j].0 as char == c);
                assert(after[n + j] == (kids[j].1, s.push(c)));
                assert(s.push(c) =~= p.subrange(0, s.len() as int + 1));
                assert(q.drop_first() =~= p.skip(s.len() as int + 1));
                assert(reaches(after[n + j], p));
            }
        }
    }
    assert(frontier_paths(after) =~= frontier_paths(before).remove(s));
}

/// An enumeration of the paths of a subtree.
///
/// It holds the nodes that are still to be visited, each with the path that
/// leads to it, and hands out one path on each call of [`next`](Self::next).
/// Nothing is computed ahead: the memory it needs grows with the number of
/// pending branches, not with the number of paths.
///
/// The view is the set of paths that are still to come.
pub struct ChildIter<'a> {
    remaining: Vec<(&'a TrieNode, String)>,
}

impl<'a> View for ChildIter<'a> {
    type V = Set<Path>;

    closed spec fn view(&self) -> Set<Path> {
        frontier_paths(self.frontier())
    }
}

impl<'a> ChildIter<'a> {
    /// The pending nodes and their paths, as plain values.
    pub closed spec fn frontier(self) -> Seq<Pending> {
        self.remaining@.map_values(|e: (&'a TrieNode, String)| (*e.0, e.1@))
    }

    /// The frontier is well-formed and stands for finitely many paths.
    pub closed spec fn wf(self) -> bool {
        frontier_wf(self.frontier()) && self@.finite()
    }

    /// An enumeration of all paths of `node`.
    pub fn new(node: &'a TrieNode) -> (iter: ChildIter<'a>)
        requires
            node.wf(),
        ensures
            iter.wf(),
            iter@ == node@,
    {
        let mut remaining = Vec::new();
        remaining.push((node, String::new()));
        let iter = ChildIter { remaining };
        proof {
            let start = (*node, Seq::<char>::empty());
            assert(iter.frontier() =~= seq![start]);
            assert forall|p: Path| iter@.contains(p) <==> node@.contains(p) by {
                assert(p.skip(0) =~= p);
                assert(reaches(iter.frontier()[0], p) <==> node@.contains(p));
            }
            assert(iter@ =~= node@);
            node.lemma_view_finite();
        }
        iter
    }

    /// The next path, or `None` when all have been handed out.
    pub fn next(&mut self) -> (item: Option<String>)
        requires
            old(self).wf(),
        ensures
            final(self).wf(),
            match item {
                Some(s) => is_top_path(old(self)@, s@) && final(self)@ == old(self)@.remove(s@),
                None => old(self)@ == Set::<Path>::empty() && final(self)@ == old(self)@,
            },
    {
        match self.next_node() {
            Some((_, path)) => Some(path),
            None => None,
        }
    }

    /// The next node with the path that leads to it, or `None` when all have
    /// been handed out.
    ///
    /// Takes one pending node off the frontier, puts its children there in
    /// its place, and hands out the node and its path. A node comes before
    /// the nodes below it. Beyond that the order is that in which the nodes'
    /// maps hand out their children: arbitrary.
    pub fn next_node(&mut self) -> (item: Option<(&'a TrieNode, String)>)
        requires
            old(self).wf(),
        ensures
            final(self).wf(),
            match item {
                Some((node, s)) => {
                    &&& is_top_path(old(self)@, s@)
                    &&& final(self)@ == old(self)@.remove(s@)
                    &&& node.wf()
                    &&& node@ == below(old(self)@, s@)
                },
                None => old(self)@ == Set::<Path>::empty() && final(self)@ == old(self)@,
            },
    {
        match self.remaining.pop() {
            Some((node, s)) => {
                let ghost before = old(self).frontier();
                let ghost base = self.remaining@;
                assert(before.last() == (*node, s@));
                assert(node.wf());
                let children = node.children();
                let entries = children.iter();
                let ghost all = entries.remaining();
                for (k, child) in it: entries
                    invariant
                        it.seq() == all,
                        self.remaining@.len() == base.len() + it.index(),
                        forall|j: int| 0 <= j < base.len() ==> self.remaining@[j] == base[j],
                        forall|j: int|
                            0 <= j < it.index() ==> *(#[trigger] self.remaining@[base.len() + j]).0
                                == *all[j].1 && self.remaining@[base.len() + j].1@ == s@.push(
                                *all[j].0 as char,
                            ),
                        forall|j: int|
                            0 <= j < all.len() ==> children@.contains_key(*(#[trigger] all[j]).0)
                                && is_scalar(*all[j].0),
                {
                    // Every key of a well-formed node is the number of a `char`.
                    assert(is_scalar(*k));
                    if let Some(ch) = char::from_u32(*k) {
                        let mut prefix = s.clone();
                        prefix.push(ch);
                        self.remaining.push((child, prefix));
                    }
                }
                proof {
                    let kids = all.map_values(|e: (&u32, &TrieNode)| (*e.0, *e.1));
                    let after = self.frontier();
                    assert(lists_children(*node, kids)) by {
                        assert forall|c: char| #[trigger]
                            node.child(c) is Some implies exists|j: int|
                            0 <= j < kids.len() && (#[trigger] kids[j]).0 == code(c) by {
                            let k = code(c);
                            assert(children@.contains_key(k));
                            let j = all.index_of((&k, &children@[k]));
                            assert(kids[j].0 == k);
                        }
                        assert forall|i: int, j: int| 0 <= i < j < kids.len() implies (
                        #[trigger] kids[i]).0 != (#[trigger] kids[j]).0 by {
                            if kids[i].0 == kids[j].0 {
                                assert(all[i] == all[j]);
                            }
                        }
                    }
                    assert(visited(before, after, kids)) by {
                        assert forall|j: int| 0 <= j < before.len() - 1 implies #[trigger] after[j]
                            == before[j] by {
                            assert(self.remaining@[j] == base[j]);
                        }
                        assert forall|j: int| 0 <= j < kids.len() implies after[before.len() - 1
                            + j] == ((#[trigger] kids[j]).1, before.last().1.push(
                            kids[j].0 as char,
                        )) by {
                            assert(*self.remaining@[base.len() + j].0 == *all[j].1);
                        }
                    }
                    lemma_visit(before, after, kids);
                    lemma_pending_top(before, before.len() - 1);
                }
                Some((node, s))
            },
            None => {
                proof {
                    assert(self@ =~= Set::<Path>::empty());
                }
                None
            },
        }
    }

    /// Only finitely many paths are still to come.
    pub proof fn lemma_finite(self)
        requires
            self.wf(),
        ensures
            self@.finite(),
    {
    }

    /// All paths that are still to come, in the order in which
    /// [`next`](Self::next) hands them out.
    pub fn collect(self) -> (items: Vec<String>)
        requires
            self.wf(),
        ensures
            lists(items@, self@),
    {
        let ghost all = self@;
        let mut rest = self;
        let mut items: Vec<String> = Vec::new();
        loop
            invariant
                rest.wf(),
                rest@.subset_of(all),
                lists(items@, all.difference(rest@)),
            ensures
                lists(items@, all),
            decreases rest@.len(),
        {
            let ghost left = rest@;
            let ghost done = items@;
            proof {
                rest.lemma_finite();
            }
            match rest.next() {
                Some(item) => {
                    items.push(item);
                    proof {
                        lemma_lists_push(done, all.difference(left), item);
                        assert(all.difference(left).insert(item@) =~= all.difference(rest@));
                    }
                },
                None => {
                    assert(all.difference(rest@) =~= all);
                    break ;
                },
            }
        }
        items
    }
}

/// An enumeration of the paths that lead to the leaves of a subtree.
///
/// It walks the subtree as a [`ChildIter`] does and hands out, one on each
/// call of [`next`](Self::next), the path of a node without children. For a
/// subtree that is a leaf itself this is the empty path.
///
/// The view is the set of leaf paths that are still to come.
pub struct LeafIter<'a> {
    nodes: ChildIter<'a>,
}

impl<'a> View for LeafIter<'a> {
    type V = Set<Path>;

    open spec fn view(&self) -> Set<Path> {
        leaves(self.pending())
    }
}

impl<'a> LeafIter<'a> {
    /// The paths of the nodes that are still to be looked at.
    pub closed spec fn pending(self) -> Set<Path> {
        self.nodes@
    }

    /// The walk underneath is well-formed.
    pub closed spec fn wf(self) -> bool {
        self.nodes.wf()
    }

    /// An enumeration of the leaf paths of `node`.
    pub fn new(node: &'a TrieNode) -> (iter: LeafIter<'a>)
        requires
            node.wf(),
        ensures
            iter.wf(),
            iter@ == leaves(node@),
    {
        LeafIter { nodes: ChildIter::new(node) }
    }

    /// Only finitely many leaf paths are still to come, and only finitely
    /// many nodes still to be looked at.
    pub proof fn lemma_finite(self)
        requires
            self.wf(),
        ensures
            self.pending().finite(),
            self@.finite(),
    {
        self.nodes.lemma_finite();
        vstd::set_lib::lemma_len_subset(self@, self.pending());
    }

    /// The next leaf path, or `None` when all have been handed out.
    pub fn next(&mut self) -> (item: Option<String>)
        requires
            old(self).wf(),
        ensures
            final(self).wf(),
            match item {
                Some(s) => old(self)@.contains(s@) && final(self)@ == old(self)@.remove(s@),
                None => old(self)@ == Set::<Path>::empty() && final(self)@ == old(self)@,
            },
    {
        loop
            invariant
                self.wf(),
                self@ == old(self)@,
            decreases self.pending().len(),
        {
            let ghost before = self.pending();
            proof {
                self.lemma_finite();
            }
            match self.nodes.next_node() {
                Some((node, path)) => {
                    proof {
                        lemma_leaves_without_top(before, path@);
                        lemma_leaf_below(before, path@);
                    }
                    if node.is_leaf() {
                        return Some(path);
                    }
                    assert(leaves(before).remove(path@) =~= leaves(before));
                },
                None => {
                    assert(leaves(Set::<Path>::empty()) =~= Set::<Path>::empty());
                    return None;
                },
            }
        }
    }

    /// All leaf paths that are still to come, in the order in which
    /// [`next`](Self::next) hands them out.
    pub fn collect(self) -> (items: Vec<String>)
        requires
            self.wf(),
        ensures
            lists(items@, self@),
    {
        let ghost all = self@;
        let mut rest = self;
        let mut items: Vec<String> = Vec::new();
        loop
            invariant
                rest.wf(),
                rest@.subset_of(all),
                lists(items@, all.difference(rest@)),
            ensures
                lists(items@, all),
            decreases rest@.len(),
        {
            let ghost left = rest@;
            let ghost done = items@;
            proof {
                rest.lemma_finite();
            }
            match rest.next() {
                Some(item) => {
                    items.push(item);
                    proof {
                        lemma_lists_push(done, all.difference(left), item);
                        assert(all.difference(left).insert(item@) =~= all.difference(rest@));
                    }
                },
                None => {
                    assert(all.difference(rest@) =~= all);
                    break ;
                },
            }
        }
        items
    }
}

/// A path of a tree leads to a leaf when nothing but the empty path goes on
/// from it.
proof fn lemma_leaf_below(paths: Set<Path>, p: Path)
    requires
        paths.contains(p),
    ensures
        is_leaf_path(paths, p) <==> below(paths, p) == root_only(),
{
    let sub = below(paths, p);
    assert(p + Seq::<char>::empty() =~= p);
    if is_leaf_path(paths, p) {
        assert forall|q: Path| sub.contains(q) <==> root_only().contains(q) by {
            if q.len() == 0 {
                assert(q =~= Seq::<char>::empty());
            }
            if sub.contains(q) {
                assert(p.is_prefix_of(p + q)) by {
                    assert(p =~= (p + q).subrange(0, p.len() as int));
                }
                assert((p + q).len() == p.len() + q.len());
            }
        }
        assert(sub =~= root_only());
    }
    if sub == root_only() {
        assert forall|q: Path| #[trigger] paths.contains(q) && #[trigger] p.is_prefix_of(
            q,
        ) implies q == p by {
            let t = q.skip(p.len() as int);
            assert(p + t =~= q);
            assert(sub.contains(t));
            assert(t =~= Seq::<char>::empty());
        }
    }
}

} // verus!

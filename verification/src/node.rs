//! The nodes of the prefix tree and the recursive operations on them.

use crate::child_iter::{ChildIter, LeafIter};
use crate::paths::{
    below, branches_off, cut_off, leaves, lemma_below_root, lemma_cons, lemma_first_rest,
    lemma_prefix_step,
    lemma_pruned_nothing, lemma_pruned_step, outside, prefix_closed, prefixes, pruned, root_only,
    Path,
};
use crate::text::{code, is_scalar};
use std::collections::hash_map::Entry;
use std::collections::HashMap;
use vstd::prelude::*;
use vstd::slice::slice_subrange;

verus! {

broadcast use crate::text::lemma_code;

/// A node in a prefix tree.
///
/// Its main task is to hold children and to reach them by a `char`. A node
/// without children is a leaf. Each node owns its children; there are no
/// shared or back references.
///
/// Recursively, a node stores sequences of `char`s. If one inserted sequence
/// is a prefix of another, nothing in the tree tells that the shorter one was
/// inserted too: callers that need to know append a stop symbol, as
/// [`Trie`](crate::Trie) does.
///
/// The view of a node is the set of its paths: the label sequences that lead
/// from it to a node of its subtree, the empty sequence among them.
#[derive(Debug)]
pub struct TrieNode {
    /// The children, each under the number of the `char` that labels its edge.
    children: HashMap<u32, TrieNode>,
}

impl View for TrieNode {
    type V = Set<Path>;

    open spec fn view(&self) -> Set<Path> {
        Set::new(|p: Path| self.walk(p) is Some)
    }
}

impl Default for TrieNode {
    /// An empty node: a leaf.
    fn default() -> (node: TrieNode)
        ensures
            node.wf(),
            node@ == root_only(),
    {
        TrieNode::new()
    }
}

impl TrieNode {
    /// Every key in the subtree is the number of a `char`.
    pub closed spec fn wf(self) -> bool
        decreases self,
    {
        forall|k: u32| #[trigger]
            self.children@.contains_key(k) ==> is_scalar(k) && self.children@[k].wf()
    }

    /// The child at the end of the edge labelled `c`, if there is one.
    pub closed spec fn child(self, c: char) -> Option<TrieNode> {
        if self.children@.contains_key(code(c)) {
            Some(self.children@[code(c)])
        } else {
            None
        }
    }

    /// The node that `path` leads to from here, if the whole of it exists.
    pub open spec fn walk(self, path: Path) -> Option<TrieNode>
        decreases path.len(),
    {
        if path.len() == 0 {
            Some(self)
        } else {
            match self.child(path[0]) {
                Some(next) => next.walk(path.drop_first()),
                None => None,
            }
        }
    }

    /// Walking `p + q` is walking `p` and then `q`.
    pub proof fn lemma_walk_concat(self, p: Path, q: Path)
        ensures
            self.walk(p + q) == match self.walk(p) {
                Some(mid) => mid.walk(q),
                None => None,
            },
        decreases p.len(),
    {
        if p.len() == 0 {
            assert(p + q =~= q);
        } else {
            assert((p + q)[0] == p[0]);
            assert((p + q).drop_first() =~= p.drop_first() + q);
            match self.child(p[0]) {
                Some(next) => next.lemma_walk_concat(p.drop_first(), q),
                None => {},
            }
        }
    }

    /// Whatever a walk from a well-formed node reaches is well-formed, and its
    /// paths are those of the start that pass through it.
    pub proof fn lemma_walk_below(self, p: Path)
        requires
            self.wf(),
        ensures
            match self.walk(p) {
                Some(end) => end.wf() && end@ == below(self@, p),
                None => below(self@, p) == Set::<Path>::empty(),
            },
        decreases p.len(),
    {
        match self.walk(p) {
            Some(end) => {
                assert(end.wf()) by {
                    self.lemma_walk_wf(p);
                }
                assert forall|q: Path| end@.contains(q) <==> below(self@, p).contains(q) by {
                    self.lemma_walk_concat(p, q);
                }
                assert(end@ =~= below(self@, p));
            },
            None => {
                assert forall|q: Path| !below(self@, p).contains(q) by {
                    self.lemma_walk_concat(p, q);
                }
                assert(below(self@, p) =~= Set::<Path>::empty());
            },
        }
    }

    /// The paths of a node are those of a tree: the empty path is among
    /// them, and so is every prefix of each.
    pub proof fn lemma_view_closed(self)
        ensures
            prefix_closed(self@),
    {
        assert forall|p: Path, q: Path| #[trigger]
            self@.contains(q) && #[trigger] p.is_prefix_of(q) implies self@.contains(p) by {
            assert(q =~= p + q.skip(p.len() as int));
            self.lemma_walk_concat(p, q.skip(p.len() as int));
        }
    }

    proof fn lemma_walk_wf(self, p: Path)
        requires
            self.wf(),
        ensures
            self.walk(p) matches Some(end) ==> end.wf(),
        decreases p.len(),
    {
        if p.len() > 0 {
            match self.child(p[0]) {
                Some(next) => next.lemma_walk_wf(p.drop_first()),
                None => {},
            }
        }
    }

    /// An empty node: a leaf.
    pub fn new() -> (node: TrieNode)
        ensures
            node.wf(),
            node@ == root_only(),
    {
        let node = TrieNode { children: HashMap::new() };
        proof {
            node.lemma_leaf_view();
        }
        node
    }

    /// Whether this node has no children.
    pub fn is_leaf(&self) -> (leaf: bool)
        requires
            self.wf(),
        ensures
            leaf == (self@ == root_only()),
    {
        proof {
            self.lemma_leaf_view();
        }
        self.children.is_empty()
    }

    /// The only path of a node without children is the empty one, and the
    /// other way round.
    proof fn lemma_leaf_view(self)
        requires
            self.wf(),
        ensures
            self.children@.is_empty() <==> self@ == root_only(),
    {
        if self.children@.is_empty() {
            assert forall|p: Path| self@.contains(p) <==> root_only().contains(p) by {
                if p.len() == 0 {
                    assert(p =~= Seq::<char>::empty());
                } else {
                    assert(!self.children@.dom().contains(code(p[0])));
                }
            }
            assert(self@ =~= root_only());
        } else {
            let k = choose|k: u32| self.children@.dom().contains(k);
            assert(self.children@.contains_key(k));
            let c = k as char;
            let p = seq![c];
            assert(code(c) == k);
            assert(p[0] == c && p.drop_first().len() == 0);
            assert(self.child(c).unwrap().walk(p.drop_first()) is Some);
            assert(self@.contains(p));
            assert(!root_only().contains(p));
        }
    }

    /// A path leads on from a node through the child under its first label.
    pub proof fn lemma_view_step(self, p: Path)
        ensures
            self@.contains(p) <==> (p.len() == 0 || match self.child(p[0]) {
                Some(next) => next@.contains(p.drop_first()),
                None => false,
            }),
    {
    }

    /// Two nodes with the same children have the same paths.
    proof fn lemma_children_kept(before: TrieNode, after: TrieNode)
        requires
            after.children@ =~= before.children@,
        ensures
            after.wf() == before.wf(),
            after@ == before@,
    {
        assert forall|p: Path| after@.contains(p) <==> before@.contains(p) by {
            if p.len() > 0 {
                assert(after.child(p[0]) == before.child(p[0]));
            }
        }
        assert(after@ =~= before@);
    }

    /// The paths of a node of which one child was put in or exchanged.
    proof fn lemma_child_replaced(before: TrieNode, after: TrieNode, c: char)
        requires
            before.wf(),
            after.children@.contains_key(code(c)),
            after.children@ =~= before.children@.insert(code(c), after.children@[code(c)]),
            after.children@[code(c)].wf(),
        ensures
            after.wf(),
            forall|p: Path| #[trigger]
                after@.contains(p) <==> (if p.len() > 0 && p[0] == c {
                    after.children@[code(c)]@.contains(p.drop_first())
                } else {
                    before@.contains(p)
                }),
    {
        assert forall|p: Path| #[trigger]
            after@.contains(p) <==> (if p.len() > 0 && p[0] == c {
                after.children@[code(c)]@.contains(p.drop_first())
            } else {
                before@.contains(p)
            }) by {
            if p.len() > 0 {
                if p[0] == c {
                    assert(after.child(c) == Some(after.children@[code(c)]));
                } else {
                    assert(code(p[0]) != code(c));
                    assert(after.child(p[0]) == before.child(p[0]));
                }
            }
        }
    }

    /// The paths of a node of which one child was taken away.
    proof fn lemma_child_removed(before: TrieNode, after: TrieNode, c: char)
        requires
            before.wf(),
            after.children@ =~= before.children@.remove(code(c)),
        ensures
            after.wf(),
            forall|p: Path| #[trigger]
                after@.contains(p) <==> (before@.contains(p) && !(p.len() > 0 && p[0] == c)),
    {
        assert forall|p: Path| #[trigger]
            after@.contains(p) <==> (before@.contains(p) && !(p.len() > 0 && p[0] == c)) by {
            if p.len() > 0 {
                if p[0] == c {
                    assert(after.child(c) is None);
                } else {
                    assert(code(p[0]) != code(c));
                    assert(after.child(p[0]) == before.child(p[0]));
                }
            }
        }
    }

    /// Insert a char sequence below this node.
    ///
    /// Consumes `content` one `char` at a time and makes the child for each
    /// where there is none yet. Inserting a sequence that is already there
    /// changes nothing.
    pub fn insert(&mut self, content: &[char])
        requires
            old(self).wf(),
        ensures
            final(self).wf(),
            final(self)@ == old(self)@.union(prefixes(content@)),
        decreases content@.len(),
    {
        if content.len() > 0 {
            let ch = content[0];
            let rest = slice_subrange(content, 1, content.len());
            let child = self.children.entry(ch as u32).or_insert(TrieNode::new());
            child.insert(rest);
            proof {
                Self::lemma_child_replaced(*old(self), *self, ch);
                assert forall|p: Path| self@.contains(p) <==> old(self)@.union(
                    prefixes(content@),
                ).contains(p) by {
                    old(self).lemma_view_step(p);
                    if p.len() > 0 {
                        lemma_prefix_step(p, content@);
                        if p.drop_first().len() == 0 {
                            assert(p.drop_first() =~= rest@.subrange(0, 0));
                        }
                    }
                }
                assert(self@ =~= old(self)@.union(prefixes(content@)));
            }
        } else {
            assert(old(self)@.union(prefixes(content@)) =~= old(self)@);
        }
    }

    /// If `path` exists below this node, return a reference to the node at its
    /// end; with an empty `path`, the node itself. `None` as soon as a `char`
    /// of `path` has no child to go to.
    pub fn get_node(&self, path: &[char]) -> (found: Option<&TrieNode>)
        requires
            self.wf(),
        ensures
            found is Some <==> self@.contains(path@),
            match found {
                Some(end) => self.walk(path@) == Some(*end) && end.wf() && end@ == below(
                    self@,
                    path@,
                ),
                None => self.walk(path@) is None,
            },
        decreases path@.len(),
    {
        proof {
            self.lemma_walk_below(path@);
        }
        if path.len() > 0 {
            let ch = path[0];
            let rest = slice_subrange(path, 1, path.len());
            match self.children.get(&(ch as u32)) {
                Some(node) => node.get_node(rest),
                None => None,
            }
        } else {
            Some(self)
        }
    }

    /// Remove the specified char sequence from below this node.
    ///
    /// Fails, and changes nothing, when `content` is no path of this node.
    /// Otherwise the nodes along `content` go as far as nothing else hangs on
    /// them: on the way back up, a child that is left without children is
    /// taken out of its parent.
    pub fn remove(&mut self, content: &[char]) -> (removed: Option<()>)
        requires
            old(self).wf(),
        ensures
            final(self).wf(),
            removed is Some <==> old(self)@.contains(content@),
            final(self)@ == if removed is Some {
                pruned(old(self)@, content@)
            } else {
                old(self)@
            },
        decreases content@.len(),
    {
        if content.len() > 0 {
            let ch = content[0];
            let rest = slice_subrange(content, 1, content.len());
            proof {
                old(self).lemma_view_step(content@);
            }
            match self.children.entry(ch as u32) {
                Entry::Vacant(_) => {
                    proof {
                        Self::lemma_children_kept(*old(self), *self);
                    }
                    None
                },
                Entry::Occupied(mut e) => {
                    let ghost below_before = old(self).children@[code(ch)]@;
                    let node = e.get_mut();
                    match node.remove(rest) {
                        None => {
                            proof {
                                Self::lemma_child_replaced(*old(self), *self, ch);
                                assert forall|p: Path| self@.contains(p) <==> old(self)@.contains(
                                    p,
                                ) by {
                                    old(self).lemma_view_step(p);
                                }
                                assert(self@ =~= old(self)@);
                            }
                            None
                        },
                        Some(_) => {
                            if node.is_leaf() {
                                e.remove();
                                proof {
                                    Self::lemma_child_removed(*old(self), *self, ch);
                                }
                            } else {
                                proof {
                                    Self::lemma_child_replaced(*old(self), *self, ch);
                                }
                            }
                            proof {
                                assert forall|t: Path| #[trigger]
                                    below_before.contains(t) <==> old(self)@.contains(
                                        seq![ch] + t,
                                    ) by {
                                    lemma_cons(ch, t);
                                    old(self).lemma_view_step(seq![ch] + t);
                                }
                                assert(old(self)@.contains(seq![ch])) by {
                                    assert(seq![ch] + Seq::<char>::empty() =~= seq![ch]);
                                    assert(below_before.contains(Seq::<char>::empty()));
                                }
                                lemma_pruned_step(old(self)@, below_before, content@, self@);
                            }
                            Some(())
                        },
                    }
                },
            }
        } else {
            proof {
                assert forall|p: Path| old(self)@.contains(p) implies pruned(
                    old(self)@,
                    content@,
                ).contains(p) by {
                    if p.len() > 0 {
                        assert(p.is_prefix_of(p));
                        assert(branches_off(old(self)@, p, content@));
                    }
                }
                assert(old(self)@ =~= pruned(old(self)@, content@));
            }
            Some(())
        }
    }

    /// Delete and return a node, if present.
    ///
    /// The node at the end of `path` is taken out of its parent and handed
    /// over with all that hangs below it. On the way back up, a node that is
    /// left without children is taken out of its parent too, as in
    /// [`remove`](Self::remove). The node that `remove_node` is called on has
    /// no parent to be taken out of, so an empty `path` finds nothing. When
    /// nothing is found, nothing changes.
    fn remove_node(&mut self, path: &[char]) -> (cut: Option<TrieNode>)
        requires
            old(self).wf(),
        ensures
            final(self).wf(),
            cut is Some <==> path@.len() > 0 && old(self)@.contains(path@),
            match cut {
                Some(sub) => sub.wf() && sub@ == below(old(self)@, path@) && final(self)@
                    == cut_off(old(self)@, path@),
                None => final(self)@ == old(self)@,
            },
        decreases path@.len(),
    {
        if path.len() > 0 {
            let first = path[0];
            let rest = slice_subrange(path, 1, path.len());
            proof {
                old(self).lemma_view_step(path@);
                old(self).lemma_walk_below(path@);
            }
            match self.children.entry(first as u32) {
                Entry::Vacant(_) => {
                    proof {
                        Self::lemma_children_kept(*old(self), *self);
                    }
                    None
                },
                Entry::Occupied(mut e) => {
                    if rest.is_empty() {
                        let sub = e.remove();
                        proof {
                            assert(old(self).walk(path@) == Some(sub));
                            Self::lemma_child_removed(*old(self), *self, first);
                            assert forall|p: Path| self@.contains(p) <==> outside(
                                old(self)@,
                                path@,
                            ).contains(p) by {
                                if p.len() > 0 {
                                    lemma_prefix_step(path@, p);
                                    assert(rest@.is_prefix_of(p.drop_first()));
                                } else {
                                    assert(!path@.is_prefix_of(p));
                                }
                            }
                            assert(self@ =~= outside(old(self)@, path@));
                            assert(path@.drop_last() =~= Seq::<char>::empty());
                            lemma_pruned_nothing(outside(old(self)@, path@));
                        }
                        Some(sub)
                    } else {
                        let ghost below_before = old(self).children@[code(first)]@;
                        let node = e.get_mut();
                        match node.remove_node(rest) {
                            Some(sub) => {
                                if node.is_leaf() {
                                    e.remove();
                                    proof {
                                        Self::lemma_child_removed(*old(self), *self, first);
                                    }
                                } else {
                                    proof {
                                        Self::lemma_child_replaced(*old(self), *self, first);
                                    }
                                }
                                proof {
                                    old(self).lemma_cut_step(below_before, path@, self@);
                                    assert forall|q: Path|
                                        below(below_before, rest@).contains(q) <==> below(
                                            old(self)@,
                                            path@,
                                        ).contains(q) by {
                                        old(self).lemma_view_step(path@ + q);
                                        assert((path@ + q).drop_first() =~= rest@ + q);
                                    }
                                    assert(below(below_before, rest@) =~= below(
                                        old(self)@,
                                        path@,
                                    ));
                                }
                                Some(sub)
                            },
                            None => {
                                proof {
                                    Self::lemma_child_replaced(*old(self), *self, first);
                                    assert forall|p: Path| self@.contains(p) <==> old(
                                        self,
                                    )@.contains(p) by {
                                        old(self).lemma_view_step(p);
                                    }
                                    assert(self@ =~= old(self)@);
                                }
                                None
                            },
                        }
                    }
                },
            }
        } else {
            None
        }
    }

    /// Cutting off the subtree at `path`, seen from the node above: below the
    /// first label of `path` the rest of `path` is cut off, and that child
    /// goes when nothing is left of it; the other children stay as they are.
    proof fn lemma_cut_step(self, sub: Set<Path>, path: Path, result: Set<Path>)
        requires
            path.len() > 1,
            self.child(path[0]) matches Some(next) && next@ == sub,
            forall|p: Path| #[trigger]
                result.contains(p) <==> (if p.len() > 0 && p[0] == path[0] {
                    cut_off(sub, path.drop_first()) != root_only() && cut_off(
                        sub,
                        path.drop_first(),
                    ).contains(p.drop_first())
                } else {
                    self@.contains(p)
                }),
        ensures
            result == cut_off(self@, path),
    {
        let first = path[0];
        let rest = path.drop_first();
        let whole = outside(self@, path);
        let part = outside(sub, rest);
        let chain = path.drop_last();
        assert(chain.drop_first() =~= rest.drop_last());
        assert(chain[0] == first);
        assert forall|t: Path| #[trigger] part.contains(t) <==> whole.contains(
            seq![first] + t,
        ) by {
            lemma_cons(first, t);
            self.lemma_view_step(seq![first] + t);
            lemma_prefix_step(path, seq![first] + t);
        }
        assert(whole.contains(seq![first])) by {
            lemma_cons(first, Seq::<char>::empty());
            self.lemma_view_step(seq![first] + Seq::<char>::empty());
            assert(seq![first] + Seq::<char>::empty() =~= seq![first]);
            assert(sub.contains(Seq::<char>::empty()));
        }
        assert forall|p: Path| #[trigger]
            result.contains(p) <==> (if p.len() > 0 && p[0] == chain[0] {
                pruned(part, chain.drop_first()) != root_only() && pruned(
                    part,
                    chain.drop_first(),
                ).contains(p.drop_first())
            } else {
                whole.contains(p)
            }) by {
            if !(p.len() > 0 && p[0] == first) {
                if p.len() > 0 {
                    lemma_prefix_step(path, p);
                } else {
                    assert(!path.is_prefix_of(p));
                }
            }
        }
        lemma_pruned_step(whole, part, chain, result);
    }

    /// Remove all that follows this prefix, and return it as a subtree, if
    /// the prefix was present.
    ///
    /// The node at the end of `prefix` leaves the tree with its whole
    /// subtree, in one step, however many sequences share the prefix. The
    /// nodes on the way to it that are left without children leave too. The
    /// empty prefix names this node itself: all that it holds is handed
    /// over, and a node without children is left in its place. When the
    /// prefix is not present, nothing changes.
    pub fn remove_suffixes(&mut self, prefix: &[char]) -> (cut: Option<TrieNode>)
        requires
            old(self).wf(),
        ensures
            final(self).wf(),
            cut is Some <==> old(self)@.contains(prefix@),
            match cut {
                Some(sub) => sub.wf() && sub@ == below(old(self)@, prefix@) && final(self)@
                    == cut_off(old(self)@, prefix@),
                None => final(self)@ == old(self)@,
            },
            prefix@.len() == 0 ==> final(self)@ == root_only(),
    {
        if prefix.is_empty() {
            let mut whole = TrieNode::new();
            std::mem::swap(self, &mut whole);
            proof {
                lemma_below_root(old(self)@);
            }
            Some(whole)
        } else {
            self.remove_node(prefix)
        }
    }

    /// The paths of this node whose first label has its number in `keys`.
    spec fn through(self, keys: Set<u32>) -> Set<Path> {
        Set::new(|p: Path| p.len() > 0 && keys.contains(code(p[0])) && self@.contains(p))
    }

    proof fn lemma_through_finite(self, keys: Set<u32>)
        requires
            keys.finite(),
            forall|k: u32|
                keys.contains(k) && #[trigger] self.children@.contains_key(k)
                    ==> self.children@[k]@.finite(),
        ensures
            self.through(keys).finite(),
        decreases keys.len(),
    {
        if keys.len() == 0 {
            assert(self.through(keys) =~= Set::<Path>::empty());
        } else {
            let k = keys.choose();
            let rest = keys.remove(k);
            self.lemma_through_finite(rest);
            let c = k as char;
            let part = if self.children@.contains_key(k) && is_scalar(k) {
                let put_first = |t: Path| seq![c] + t;
                self.children@[k]@.lemma_map_finite(put_first);
                self.children@[k]@.map(put_first)
            } else {
                Set::<Path>::empty()
            };
            assert forall|p: Path| self.through(keys).contains(p) <==> self.through(rest).union(
                part,
            ).contains(p) by {
                if p.len() > 0 && code(p[0]) == k {
                    assert(p[0] == c);
                    lemma_first_rest(p);
                    if self@.contains(p) {
                        assert(self.children@[k]@.contains(p.drop_first()));
                    }
                    if part.contains(p) {
                        let t = choose|t: Path|
                            self.children@[k]@.contains(t) && p == seq![c] + t;
                        lemma_cons(c, t);
                    }
                } else if part.contains(p) {
                    let t = choose|t: Path| self.children@[k]@.contains(t) && p == seq![c] + t;
                    lemma_cons(c, t);
                }
            }
            assert(self.through(keys) =~= self.through(rest).union(part));
        }
    }

    /// A well-formed node has finitely many paths.
    pub proof fn lemma_view_finite(self)
        requires
            self.wf(),
        ensures
            self@.finite(),
        decreases self,
    {
        let keys = self.children@.dom();
        assert forall|k: u32| #[trigger]
            self.children@.contains_key(k) implies self.children@[k]@.finite() by {
            self.children@[k].lemma_view_finite();
        }
        self.lemma_through_finite(keys);
        assert forall|p: Path| self@.contains(p) <==> self.through(keys).insert(
            Seq::<char>::empty(),
        ).contains(p) by {
            if p.len() == 0 {
                assert(p =~= Seq::<char>::empty());
            }
        }
        assert(self@ =~= self.through(keys).insert(Seq::<char>::empty()));
    }

    /// The children, each under the number of the `char` on its edge.
    pub(crate) fn children(&self) -> (map: &HashMap<u32, TrieNode>)
        requires
            self.wf(),
        ensures
            forall|k: u32| #[trigger]
                map@.contains_key(k) ==> is_scalar(k) && map@[k].wf() && self.child(k as char)
                    == Some(map@[k]),
            forall|c: char| self.child(c) is Some ==> map@.contains_key(code(c)),
    {
        assert forall|k: u32| #[trigger] self.children@.contains_key(k) implies self.child(
            k as char,
        ) == Some(self.children@[k]) by {
            assert(code(k as char) == k);
        }
        &self.children
    }

    /// Iterate all content below this node: every path of its subtree, the
    /// empty one for the node itself included, one at a time.
    pub fn iter_content(&self) -> (iter: ChildIter<'_>)
        requires
            self.wf(),
        ensures
            iter.wf(),
            iter@ == self@,
    {
        ChildIter::new(self)
    }

    /// Iterate the suffixes below this node: the paths that lead from it to
    /// the leaves of its subtree, one at a time. For a leaf this is the empty
    /// path and nothing else.
    pub fn get_suffixes(&self) -> (iter: LeafIter<'_>)
        requires
            self.wf(),
        ensures
            iter.wf(),
            iter@ == leaves(self@),
    {
        LeafIter::new(self)
    }
}

} // verus!

//! Sets of paths: the mathematical model of a prefix tree.
//!
//! A tree whose edges are labelled with `char`s is, up to the identity of its
//! nodes, the set of label sequences that lead from its root to one of its
//! nodes. Such a set contains the empty sequence and is closed under taking
//! prefixes. Every operation of the library is specified as an operation on
//! these sets.

use vstd::prelude::*;

verus! {

/// A sequence of edge labels, read from the root downwards.
pub type Path = Seq<char>;

/// The paths of a tree that consists of its root alone.
pub open spec fn root_only() -> Set<Path> {
    set![Seq::<char>::empty()]
}

/// Every prefix of `w`, the empty sequence and `w` itself included: the
/// paths of a single chain that spells `w`.
pub open spec fn prefixes(w: Path) -> Set<Path> {
    Set::new(|p: Path| p.is_prefix_of(w))
}

/// Whether `paths` can be the paths of a tree.
pub open spec fn prefix_closed(paths: Set<Path>) -> bool {
    &&& paths.contains(Seq::<char>::empty())
    &&& forall|p: Path, q: Path| #[trigger]
        paths.contains(q) && #[trigger] p.is_prefix_of(q) ==> paths.contains(p)
}

/// The paths of the subtree that hangs at `p`, each counted from `p` on.
/// Empty when `p` is not itself in `paths`.
pub open spec fn below(paths: Set<Path>, p: Path) -> Set<Path> {
    Set::new(|q: Path| paths.contains(p + q))
}

/// The paths that do not pass through `p`: all of `paths` but the subtree at
/// `p`, `p` included.
pub open spec fn outside(paths: Set<Path>, p: Path) -> Set<Path> {
    Set::new(|r: Path| paths.contains(r) && !p.is_prefix_of(r))
}

/// Whether some path of `paths` passes through `q` and then leaves the chain
/// that spells `w`.
pub open spec fn branches_off(paths: Set<Path>, q: Path, w: Path) -> bool {
    exists|r: Path| #[trigger] paths.contains(r) && q.is_prefix_of(r) && !r.is_prefix_of(w)
}

/// What is left of `paths`, of which `w` is one, once the chain `w` is taken
/// away as far as nothing else needs it: the root stays, and so does every
/// path that leads on to something off the chain.
pub open spec fn pruned(paths: Set<Path>, w: Path) -> Set<Path> {
    Set::new(|q: Path| paths.contains(q) && (q.len() == 0 || branches_off(paths, q, w)))
}

/// What is left of `paths` once the subtree at `p` is cut off and the nodes
/// that led to nothing but that subtree are gone with it: the subtree is
/// taken away, then the chain to its parent is pruned. With the empty `p`
/// the subtree is the whole tree, and a root alone is left.
pub open spec fn cut_off(paths: Set<Path>, p: Path) -> Set<Path> {
    if p.len() == 0 {
        root_only()
    } else {
        pruned(outside(paths, p), p.drop_last())
    }
}

/// The subtree at the root is the whole tree.
pub proof fn lemma_below_root(paths: Set<Path>)
    ensures
        below(paths, Seq::<char>::empty()) == paths,
{
    assert forall|q: Path| below(paths, Seq::<char>::empty()).contains(q) <==> paths.contains(
        q,
    ) by {
        assert(Seq::<char>::empty() + q =~= q);
    }
    assert(below(paths, Seq::<char>::empty()) =~= paths);
}

/// Whether `p` is the path of a leaf of the tree: a path beyond which none
/// goes on.
pub open spec fn is_leaf_path(paths: Set<Path>, p: Path) -> bool {
    &&& paths.contains(p)
    &&& forall|q: Path| #[trigger] paths.contains(q) && #[trigger] p.is_prefix_of(q) ==> q == p
}

/// The paths of the leaves of the tree.
pub open spec fn leaves(paths: Set<Path>) -> Set<Path> {
    Set::new(|p: Path| is_leaf_path(paths, p))
}

/// Whether `p` is a topmost path of `paths`: one of them, with none of the
/// others on the way to it.
pub open spec fn is_top_path(paths: Set<Path>, p: Path) -> bool {
    &&& paths.contains(p)
    &&& forall|q: Path| #[trigger] paths.contains(q) && #[trigger] q.is_prefix_of(p) ==> q == p
}

/// Being a prefix carries over.
pub proof fn lemma_prefix_trans(a: Path, b: Path, c: Path)
    requires
        a.is_prefix_of(b),
        b.is_prefix_of(c),
    ensures
        a.is_prefix_of(c),
{
    assert(a =~= c.subrange(0, a.len() as int));
}

/// Of two prefixes of one path, one is a prefix of the other.
pub proof fn lemma_prefixes_comparable(a: Path, b: Path, c: Path)
    requires
        a.is_prefix_of(c),
        b.is_prefix_of(c),
    ensures
        a.is_prefix_of(b) || b.is_prefix_of(a),
{
    if a.len() <= b.len() {
        assert(a =~= b.subrange(0, a.len() as int));
    } else {
        assert(b =~= a.subrange(0, b.len() as int));
    }
}

/// Taking a topmost path away leaves the leaves as they are, but for the
/// path itself.
pub proof fn lemma_leaves_without_top(paths: Set<Path>, p: Path)
    requires
        is_top_path(paths, p),
    ensures
        leaves(paths.remove(p)) == leaves(paths).remove(p),
{
    let rest = paths.remove(p);
    assert forall|q: Path| leaves(rest).contains(q) <==> leaves(paths).remove(p).contains(q) by {
        if is_leaf_path(rest, q) {
            assert forall|r: Path| #[trigger] paths.contains(r) && #[trigger] q.is_prefix_of(
                r,
            ) implies r == q by {
                if r != p {
                    assert(rest.contains(r));
                }
            }
        }
        if is_leaf_path(paths, q) && q != p {
            assert forall|r: Path| #[trigger] rest.contains(r) && #[trigger] q.is_prefix_of(
                r,
            ) implies r == q by {
                assert(paths.contains(r));
            }
        }
    }
    assert(leaves(rest) =~= leaves(paths).remove(p));
}

/// Pruning the empty chain takes nothing away.
pub proof fn lemma_pruned_nothing(paths: Set<Path>)
    ensures
        pruned(paths, Seq::<char>::empty()) == paths,
{
    assert forall|q: Path| paths.contains(q) implies pruned(
        paths,
        Seq::<char>::empty(),
    ).contains(q) by {
        if q.len() > 0 {
            assert(q.is_prefix_of(q));
            assert(branches_off(paths, q, Seq::<char>::empty()));
        }
    }
    assert(pruned(paths, Seq::<char>::empty()) =~= paths);
}

/// Inserting a path that is there already changes nothing.
pub proof fn lemma_insert_again(paths: Set<Path>, w: Path)
    requires
        prefix_closed(paths),
        paths.contains(w),
    ensures
        paths.union(prefixes(w)) == paths,
{
    assert(paths.union(prefixes(w)) =~= paths);
}

/// A non-empty path is its first label followed by the rest.
pub proof fn lemma_first_rest(p: Path)
    requires
        p.len() > 0,
    ensures
        p == seq![p[0]] + p.drop_first(),
        (seq![p[0]] + p.drop_first()).drop_first() == p.drop_first(),
{
    assert(p =~= seq![p[0]] + p.drop_first());
}

/// Putting a label in front and taking it off again.
pub proof fn lemma_cons(c: char, t: Path)
    ensures
        (seq![c] + t).len() == t.len() + 1,
        (seq![c] + t)[0] == c,
        (seq![c] + t).drop_first() == t,
{
    assert((seq![c] + t).drop_first() =~= t);
}

/// Two non-empty paths: one is a prefix of the other when the first labels
/// agree and the rest of the one is a prefix of the rest of the other.
pub proof fn lemma_prefix_step(p: Path, w: Path)
    requires
        p.len() > 0,
    ensures
        p.is_prefix_of(w) <==> w.len() > 0 && p[0] == w[0] && p.drop_first().is_prefix_of(
            w.drop_first(),
        ),
{
    if p.is_prefix_of(w) {
        assert(p[0] == w.subrange(0, p.len() as int)[0]);
        assert(p.drop_first() =~= w.drop_first().subrange(0, p.len() as int - 1));
    }
    if w.len() > 0 && p[0] == w[0] && p.drop_first().is_prefix_of(w.drop_first()) {
        assert forall|i: int| 0 <= i < p.len() implies p[i] == w[i] by {
            if i > 0 {
                assert(p[i] == p.drop_first()[i - 1]);
                assert(w[i] == w.drop_first()[i - 1]);
                assert(p.drop_first()[i - 1] == w.drop_first().subrange(
                    0,
                    p.len() as int - 1,
                )[i - 1]);
            }
        }
        assert(p =~= w.subrange(0, p.len() as int));
    }
}

/// Pruning the chain `w` from `paths`, seen from the root: below the first
/// label of `w` the rest of `w` is pruned, and that child goes when nothing
/// is left of it; the other children stay as they are.
pub proof fn lemma_pruned_step(paths: Set<Path>, sub: Set<Path>, w: Path, result: Set<Path>)
    requires
        w.len() > 0,
        paths.contains(seq![w[0]]),
        forall|t: Path| #[trigger] sub.contains(t) <==> paths.contains(seq![w[0]] + t),
        forall|p: Path| #[trigger]
            result.contains(p) <==> (if p.len() > 0 && p[0] == w[0] {
                pruned(sub, w.drop_first()) != root_only() && pruned(sub, w.drop_first()).contains(
                    p.drop_first(),
                )
            } else {
                paths.contains(p)
            }),
    ensures
        result == pruned(paths, w),
{
    let c = w[0];
    let rest = w.drop_first();
    let sub_pruned = pruned(sub, rest);
    assert(seq![c] + Seq::<char>::empty() =~= seq![c]);
    assert(sub.contains(Seq::<char>::empty()));
    // The child goes exactly when every path below it lies on the chain.
    let off_chain = exists|r: Path| #[trigger] sub.contains(r) && !r.is_prefix_of(rest);
    assert(off_chain <==> sub_pruned != root_only()) by {
        if off_chain {
            let r = choose|r: Path| #[trigger] sub.contains(r) && !r.is_prefix_of(rest);
            assert(r.len() > 0) by {
                if r.len() == 0 {
                    assert(r =~= rest.subrange(0, 0));
                }
            }
            assert(branches_off(sub, r, rest));
            assert(sub_pruned.contains(r));
            assert(!root_only().contains(r));
        } else {
            assert forall|t: Path| sub_pruned.contains(t) <==> root_only().contains(t) by {
                if t.len() == 0 {
                    assert(t =~= Seq::<char>::empty());
                }
                if sub_pruned.contains(t) && t.len() > 0 {
                    let r = choose|r: Path| #[trigger]
                        sub.contains(r) && t.is_prefix_of(r) && !r.is_prefix_of(rest);
                    assert(false);
                }
            }
            assert(sub_pruned =~= root_only());
        }
    }
    assert forall|q: Path| result.contains(q) <==> pruned(paths, w).contains(q) by {
        if q.len() > 0 {
            lemma_first_rest(q);
            let t = q.drop_first();
            if q[0] == c {
                assert(sub.contains(t) <==> paths.contains(q));
                if result.contains(q) {
                    // below the child, something leaves the chain
                    let r = if t.len() == 0 {
                        choose|r: Path| #[trigger] sub.contains(r) && !r.is_prefix_of(rest)
                    } else {
                        choose|r: Path| #[trigger]
                            sub.contains(r) && t.is_prefix_of(r) && !r.is_prefix_of(rest)
                    };
                    let full = seq![c] + r;
                    lemma_cons(c, r);
                    lemma_prefix_step(q, full);
                    lemma_prefix_step(full, w);
                    assert(t.is_prefix_of(r)) by {
                        if t.len() == 0 {
                            assert(t =~= r.subrange(0, 0));
                        }
                    }
                    assert(paths.contains(full) && q.is_prefix_of(full) && !full.is_prefix_of(w));
                }
                if pruned(paths, w).contains(q) {
                    let full = choose|r: Path| #[trigger]
                        paths.contains(r) && q.is_prefix_of(r) && !r.is_prefix_of(w);
                    lemma_prefix_step(q, full);
                    lemma_first_rest(full);
                    let r = full.drop_first();
                    lemma_prefix_step(full, w);
                    assert(sub.contains(r) && t.is_prefix_of(r) && !r.is_prefix_of(rest));
                    assert(off_chain);
                    if t.len() > 0 {
                        assert(branches_off(sub, t, rest));
                    }
                }
            } else {
                if paths.contains(q) {
                    lemma_prefix_step(q, w);
                    assert(q.is_prefix_of(q));
                    assert(branches_off(paths, q, w));
                }
            }
        }
    }
    assert(result =~= pruned(paths, w));
}

} // verus!

//! The stop symbol, and what a set of paths says about the strings in it.
//!
//! A string is kept in the tree as its `char`s followed by one stop symbol.
//! The stop symbol tells "this string ends here" from "a longer string passes
//! through here": a string is stored exactly when the path that spells it and
//! then the stop symbol exists.
//!
//! Strings are meant not to hold the stop symbol themselves. Nothing stops a
//! caller from handing one in that does, so everything here is stated for all
//! strings, and says what more holds of those without it.

use crate::paths::{
    below, branches_off, cut_off, is_leaf_path, outside, prefix_closed, prefixes, pruned,
    root_only, Path,
};
use vstd::prelude::*;

verus! {

/// The stop symbol, after which no `char` shall follow and which is appended
/// while inserting.
pub const STOP: char = '\u{0}';

/// The path under which the string `s` is kept.
pub open spec fn terminated(s: Path) -> Path {
    s.push(STOP)
}

/// Whether `s` is free of the stop symbol.
pub open spec fn plain(s: Path) -> bool {
    forall|i: int| 0 <= i < s.len() ==> s[i] != STOP
}

/// The strings that a tree with these paths stores.
pub open spec fn stored(paths: Set<Path>) -> Set<Path> {
    Set::new(|s: Path| paths.contains(terminated(s)))
}

/// What follows `p` in the strings of `strings` that start with `p`.
pub open spec fn suffixes_after(strings: Set<Path>, p: Path) -> Set<Path> {
    Set::new(|t: Path| strings.contains(p + t))
}

/// The strings of `strings` that start with `p`.
pub open spec fn starting_with(strings: Set<Path>, p: Path) -> Set<Path> {
    Set::new(|s: Path| strings.contains(s) && p.is_prefix_of(s))
}

/// The strings of `strings` that do not start with `p`.
pub open spec fn not_starting_with(strings: Set<Path>, p: Path) -> Set<Path> {
    Set::new(|s: Path| strings.contains(s) && !p.is_prefix_of(s))
}

/// Whether the stop symbol comes last in `p` or not at all.
pub open spec fn ends_cleanly(p: Path) -> bool {
    forall|i: int| 0 <= i < p.len() - 1 ==> p[i] != STOP
}

/// In every path the stop symbol comes last or not at all: the tree holds
/// nothing that passes through a stop symbol.
pub open spec fn stop_ends(paths: Set<Path>) -> bool {
    forall|p: Path| #[trigger] paths.contains(p) ==> ends_cleanly(p)
}

/// Whether `p` leads on to the end of a stored string.
pub open spec fn leads_to_stored(paths: Set<Path>, p: Path) -> bool {
    exists|s: Path| #[trigger] paths.contains(terminated(s)) && p.is_prefix_of(terminated(s))
}

/// The tree has no node that it could do without: every path but the empty
/// one leads on to the end of a stored string.
pub open spec fn tight(paths: Set<Path>) -> bool {
    forall|p: Path| paths.contains(p) && p.len() > 0 ==> #[trigger] leads_to_stored(paths, p)
}

/// The paths of the tree that comes of inserting `strings`, one after the
/// other, into an empty one.
pub open spec fn built(strings: Seq<Path>) -> Set<Path>
    decreases strings.len(),
{
    if strings.len() == 0 {
        root_only()
    } else {
        built(strings.drop_last()).union(prefixes(terminated(strings.last())))
    }
}

/// Of two terminated strings, one is a prefix of the other only when the
/// strings are the same, unless the longer one holds the stop symbol.
pub proof fn lemma_terminated_prefix(t: Path, s: Path)
    requires
        plain(s),
    ensures
        terminated(t).is_prefix_of(terminated(s)) <==> t == s,
{
    if terminated(t).is_prefix_of(terminated(s)) {
        assert(terminated(t)[t.len() as int] == terminated(s).subrange(
            0,
            t.len() as int + 1,
        )[t.len() as int]);
        assert(t.len() == s.len());
        assert(terminated(t) =~= terminated(s));
        assert(t =~= terminated(t).drop_last());
        assert(s =~= terminated(s).drop_last());
    }
    if t == s {
        assert(terminated(t) =~= terminated(s).subrange(0, terminated(t).len() as int));
    }
}

/// A string without the stop symbol is a prefix of a terminated string when
/// it is a prefix of the string.
pub proof fn lemma_plain_prefix(p: Path, s: Path)
    requires
        plain(p),
    ensures
        p.is_prefix_of(terminated(s)) <==> p.is_prefix_of(s),
{
    if p.is_prefix_of(terminated(s)) {
        if p.len() == s.len() + 1 {
            assert(p[s.len() as int] == terminated(s).subrange(0, p.len() as int)[s.len() as int]);
        }
        assert(p =~= s.subrange(0, p.len() as int));
    }
    if p.is_prefix_of(s) {
        assert(p =~= terminated(s).subrange(0, p.len() as int));
    }
}

/// The paths of a chain that spells a string and the stop symbol store that
/// string, and no other if the string is plain.
pub proof fn lemma_stored_chain(s: Path)
    ensures
        stored(prefixes(terminated(s))).contains(s),
        plain(s) ==> stored(prefixes(terminated(s))) == set![s],
        plain(s) ==> stop_ends(prefixes(terminated(s))),
        tight(prefixes(terminated(s))),
        prefix_closed(prefixes(terminated(s))),
{
    let w = terminated(s);
    let chain = prefixes(w);
    assert(w.is_prefix_of(w));
    if plain(s) {
        assert forall|t: Path| stored(chain).contains(t) <==> set![s].contains(t) by {
            lemma_terminated_prefix(t, s);
        }
        assert(stored(chain) =~= set![s]);
        assert forall|p: Path| #[trigger] chain.contains(p) implies ends_cleanly(p) by {
            assert forall|i: int| 0 <= i < p.len() - 1 implies p[i] != STOP by {
                assert(p[i] == w.subrange(0, p.len() as int)[i]);
            }
        }
    }
    assert forall|p: Path| chain.contains(p) && p.len() > 0 implies #[trigger] leads_to_stored(
        chain,
        p,
    ) by {
        assert(chain.contains(terminated(s)));
    }
    assert(Seq::<char>::empty() =~= w.subrange(0, 0));
    assert forall|p: Path, q: Path| #[trigger]
        chain.contains(q) && #[trigger] p.is_prefix_of(q) implies chain.contains(p) by {
        assert(p =~= w.subrange(0, p.len() as int));
    }
}

/// A tree that is part of another has the stop symbol where the other has it.
pub proof fn lemma_subset_stop_ends(part: Set<Path>, whole: Set<Path>)
    requires
        part.subset_of(whole),
        stop_ends(whole),
    ensures
        stop_ends(part),
{
    assert forall|p: Path| #[trigger] part.contains(p) implies ends_cleanly(p) by {
        assert(whole.contains(p));
    }
}

/// Inserting a string: what is stored afterwards.
pub proof fn lemma_insert_stored(paths: Set<Path>, s: Path)
    ensures
        stored(paths.union(prefixes(terminated(s)))) == stored(paths).union(
            stored(prefixes(terminated(s))),
        ),
        stored(paths.union(prefixes(terminated(s)))).contains(s),
        plain(s) ==> stored(paths.union(prefixes(terminated(s)))) == stored(paths).insert(s),
{
    let chain = prefixes(terminated(s));
    lemma_stored_chain(s);
    assert(stored(paths.union(chain)) =~= stored(paths).union(stored(chain)));
    if plain(s) {
        assert(stored(paths).union(set![s]) =~= stored(paths).insert(s));
    }
}

/// Inserting a string: what stays true of the tree.
pub proof fn lemma_insert_keeps(paths: Set<Path>, s: Path)
    ensures
        plain(s) && stop_ends(paths) ==> stop_ends(paths.union(prefixes(terminated(s)))),
        tight(paths) ==> tight(paths.union(prefixes(terminated(s)))),
        prefix_closed(paths) ==> prefix_closed(paths.union(prefixes(terminated(s)))),
{
    let chain = prefixes(terminated(s));
    let grown = paths.union(chain);
    lemma_stored_chain(s);
    if tight(paths) {
        assert forall|p: Path| grown.contains(p) && p.len() > 0 implies #[trigger] leads_to_stored(
            grown,
            p,
        ) by {
            let some = if paths.contains(p) {
                paths
            } else {
                chain
            };
            assert(leads_to_stored(some, p));
            let t = choose|t: Path| #[trigger]
                some.contains(terminated(t)) && p.is_prefix_of(terminated(t));
            assert(grown.contains(terminated(t)));
        }
    }
}

/// What is pruned is part of what was there.
pub proof fn lemma_pruned_keeps(paths: Set<Path>, w: Path)
    ensures
        pruned(paths, w).subset_of(paths),
        stored(pruned(paths, w)).subset_of(stored(paths)),
        stop_ends(paths) ==> stop_ends(pruned(paths, w)),
        prefix_closed(paths) ==> prefix_closed(pruned(paths, w)),
{
    let left = pruned(paths, w);
    if stop_ends(paths) {
        lemma_subset_stop_ends(left, paths);
    }
    if prefix_closed(paths) {
        assert forall|p: Path, q: Path| #[trigger]
            left.contains(q) && #[trigger] p.is_prefix_of(q) implies left.contains(p) by {
            if p.len() > 0 {
                let r = choose|r: Path| #[trigger]
                    paths.contains(r) && q.is_prefix_of(r) && !r.is_prefix_of(w);
                assert(p =~= r.subrange(0, p.len() as int));
                assert(branches_off(paths, p, w));
            }
        }
    }
}

/// Removing a string from a tree in which nothing passes through a stop
/// symbol takes that string away and leaves the others.
pub proof fn lemma_remove_stored(paths: Set<Path>, s: Path)
    requires
        paths.contains(terminated(s)),
        stop_ends(paths),
    ensures
        stored(pruned(paths, terminated(s))) == stored(paths).remove(s),
{
    let w = terminated(s);
    let left = pruned(paths, w);
    assert forall|t: Path| stored(left).contains(t) <==> stored(paths).remove(s).contains(t) by {
        if stored(left).contains(t) && t == s {
            let r = choose|r: Path| #[trigger]
                paths.contains(r) && w.is_prefix_of(r) && !r.is_prefix_of(w);
            lemma_longer(w, r);
            assert(ends_cleanly(r));
            assert(r[s.len() as int] == w[s.len() as int]) by {
                assert(w[s.len() as int] == r.subrange(0, w.len() as int)[s.len() as int]);
            }
            assert(false);
        }
        if stored(paths).contains(t) && t != s {
            let r = terminated(t);
            assert(r.is_prefix_of(r));
            if r.is_prefix_of(w) {
                assert(ends_cleanly(w));
                if t.len() == s.len() {
                    assert(r =~= w);
                    assert(t =~= r.drop_last());
                    assert(s =~= w.drop_last());
                }
                assert(w[t.len() as int] == r[t.len() as int]) by {
                    assert(r[t.len() as int] == w.subrange(0, r.len() as int)[t.len() as int]);
                }
                assert(false);
            }
            assert(branches_off(paths, r, w));
        }
    }
    assert(stored(left) =~= stored(paths).remove(s));
}

/// Of two paths of which the first is a prefix of the second and the second
/// none of the first, the second is the longer.
proof fn lemma_longer(a: Path, b: Path)
    requires
        a.is_prefix_of(b),
        !b.is_prefix_of(a),
    ensures
        a.len() < b.len(),
{
    if a.len() == b.len() {
        assert(b =~= a.subrange(0, b.len() as int));
    }
}

/// Pruning a chain leaves no needless node behind, if there was none before.
pub proof fn lemma_pruned_tight(paths: Set<Path>, w: Path)
    requires
        tight(paths),
    ensures
        tight(pruned(paths, w)),
{
    let left = pruned(paths, w);
    assert forall|p: Path| left.contains(p) && p.len() > 0 implies #[trigger] leads_to_stored(
        left,
        p,
    ) by {
        let r = choose|r: Path| #[trigger]
            paths.contains(r) && p.is_prefix_of(r) && !r.is_prefix_of(w);
        assert(r.len() > 0);
        assert(leads_to_stored(paths, r));
        let t = choose|t: Path| #[trigger]
            paths.contains(terminated(t)) && r.is_prefix_of(terminated(t));
        let end = terminated(t);
        assert(end.is_prefix_of(end));
        if end.is_prefix_of(w) {
            assert(r =~= w.subrange(0, r.len() as int));
        }
        assert(branches_off(paths, end, w));
        assert(left.contains(end));
        assert(p =~= end.subrange(0, p.len() as int));
    }
}

/// The subtree at `p` stores what follows `p` in the stored strings.
pub proof fn lemma_below_stored(paths: Set<Path>, p: Path)
    ensures
        stored(below(paths, p)) == suffixes_after(stored(paths), p),
{
    let sub = below(paths, p);
    assert forall|t: Path| stored(sub).contains(t) <==> suffixes_after(stored(paths), p).contains(
        t,
    ) by {
        assert(p + terminated(t) =~= terminated(p + t));
    }
    assert(stored(sub) =~= suffixes_after(stored(paths), p));
}

/// The subtree at `p` has from the tree it is part of that nothing passes
/// through a stop symbol, and that it is a tree at all.
pub proof fn lemma_below_keeps(paths: Set<Path>, p: Path)
    ensures
        stop_ends(paths) ==> stop_ends(below(paths, p)),
        prefix_closed(paths) && paths.contains(p) ==> prefix_closed(below(paths, p)),
{
    let sub = below(paths, p);
    if stop_ends(paths) {
        assert forall|q: Path| #[trigger] sub.contains(q) implies ends_cleanly(q) by {
            assert(ends_cleanly(p + q));
            assert forall|i: int| 0 <= i < q.len() - 1 implies q[i] != STOP by {
                assert((p + q)[p.len() + i] != STOP);
            }
        }
    }
    if prefix_closed(paths) && paths.contains(p) {
        assert(p + Seq::<char>::empty() =~= p);
        assert forall|a: Path, b: Path| #[trigger]
            sub.contains(b) && #[trigger] a.is_prefix_of(b) implies sub.contains(a) by {
            assert((p + a).is_prefix_of(p + b)) by {
                assert(p + a =~= (p + b).subrange(0, (p + a).len() as int));
            }
        }
    }
}

/// The subtree at `p` has no needless node, if the tree it is part of has
/// none.
pub proof fn lemma_below_tight(paths: Set<Path>, p: Path)
    requires
        tight(paths),
    ensures
        tight(below(paths, p)),
{
    let sub = below(paths, p);
    assert forall|q: Path| sub.contains(q) && q.len() > 0 implies #[trigger] leads_to_stored(
        sub,
        q,
    ) by {
        let full = p + q;
        assert(paths.contains(full) && full.len() > 0);
        assert(leads_to_stored(paths, full));
        let s = choose|s: Path| #[trigger]
            paths.contains(terminated(s)) && full.is_prefix_of(terminated(s));
        let end = terminated(s);
        let t = s.skip(p.len() as int);
        assert(full =~= end.subrange(0, full.len() as int));
        assert forall|i: int| 0 <= i < full.len() implies full[i] == end[i] by {
            assert(full[i] == end.subrange(0, full.len() as int)[i]);
        }
        assert(p + terminated(t) =~= end) by {
            assert forall|i: int| 0 <= i < p.len() implies p[i] == end[i] by {
                assert(p[i] == full[i]);
            }
        }
        assert(sub.contains(terminated(t)));
        assert(q =~= terminated(t).subrange(0, q.len() as int)) by {
            assert forall|i: int| 0 <= i < q.len() implies q[i] == terminated(t)[i] by {
                assert(q[i] == full[p.len() + i]);
                assert(terminated(t)[i] == end[p.len() + i]);
            }
        }
    }
}

/// The paths that do not pass through `p`: what they store, and what they
/// keep of the tree they are part of.
pub proof fn lemma_outside(paths: Set<Path>, p: Path)
    ensures
        outside(paths, p).subset_of(paths),
        stored(outside(paths, p)).subset_of(stored(paths)),
        plain(p) ==> stored(outside(paths, p)) == not_starting_with(stored(paths), p),
        stop_ends(paths) ==> stop_ends(outside(paths, p)),
        prefix_closed(paths) && p.len() > 0 ==> prefix_closed(outside(paths, p)),
{
    let rest = outside(paths, p);
    if plain(p) {
        assert forall|s: Path| stored(rest).contains(s) <==> not_starting_with(
            stored(paths),
            p,
        ).contains(s) by {
            lemma_plain_prefix(p, s);
        }
        assert(stored(rest) =~= not_starting_with(stored(paths), p));
    }
    if stop_ends(paths) {
        lemma_subset_stop_ends(rest, paths);
    }
    if prefix_closed(paths) && p.len() > 0 {
        assert forall|a: Path, b: Path| #[trigger]
            rest.contains(b) && #[trigger] a.is_prefix_of(b) implies rest.contains(a) by {
            if p.is_prefix_of(a) {
                assert(p =~= b.subrange(0, p.len() as int));
            }
        }
    }
}

/// Cutting off the subtree at `p`: what the rest stores, and what it keeps.
pub proof fn lemma_cut_off(paths: Set<Path>, p: Path)
    ensures
        paths.contains(Seq::<char>::empty()) ==> cut_off(paths, p).subset_of(paths),
        stored(cut_off(paths, p)).subset_of(stored(paths)),
        plain(p) ==> stored(cut_off(paths, p)) == not_starting_with(stored(paths), p),
        stop_ends(paths) ==> stop_ends(cut_off(paths, p)),
        prefix_closed(paths) ==> prefix_closed(cut_off(paths, p)),
{
    if p.len() == 0 {
        lemma_root_only();
        assert forall|s: Path| !not_starting_with(stored(paths), p).contains(s) by {
            assert(p =~= s.subrange(0, 0));
        }
        assert(not_starting_with(stored(paths), p) =~= Set::<Path>::empty());
    } else {
        lemma_cut_off_part(paths, p);
    }
}

/// Cutting off the subtree at a path that is not empty.
proof fn lemma_cut_off_part(paths: Set<Path>, p: Path)
    requires
        p.len() > 0,
    ensures
        cut_off(paths, p).subset_of(paths),
        stored(cut_off(paths, p)).subset_of(stored(paths)),
        plain(p) ==> stored(cut_off(paths, p)) == not_starting_with(stored(paths), p),
        stop_ends(paths) ==> stop_ends(cut_off(paths, p)),
        prefix_closed(paths) ==> prefix_closed(cut_off(paths, p)),
{
    let rest = outside(paths, p);
    let w = p.drop_last();
    lemma_outside(paths, p);
    lemma_pruned_keeps(rest, w);
    if plain(p) {
        assert forall|s: Path| stored(rest).contains(s) implies stored(pruned(rest, w)).contains(
            s,
        ) by {
            let end = terminated(s);
            assert(end.is_prefix_of(end));
            if end.is_prefix_of(w) {
                assert(end[s.len() as int] == w.subrange(0, end.len() as int)[s.len() as int]);
                assert(w[s.len() as int] == p[s.len() as int]);
            }
            assert(branches_off(rest, end, w));
        }
        assert(stored(pruned(rest, w)) =~= stored(rest));
    }
}

/// Cutting off a subtree leaves no needless node behind, if there was none
/// before: the nodes that led to nothing but the subtree go with it.
pub proof fn lemma_cut_off_tight(paths: Set<Path>, p: Path)
    requires
        tight(paths),
    ensures
        tight(cut_off(paths, p)),
{
    if p.len() == 0 {
        lemma_root_only();
    } else {
        lemma_cut_off_part_tight(paths, p);
    }
}

/// Cutting off the subtree at a path that is not empty leaves no needless
/// node behind, if there was none before.
proof fn lemma_cut_off_part_tight(paths: Set<Path>, p: Path)
    requires
        tight(paths),
        p.len() > 0,
    ensures
        tight(cut_off(paths, p)),
{
    let rest = outside(paths, p);
    let w = p.drop_last();
    let left = cut_off(paths, p);
    assert forall|q: Path| left.contains(q) && q.len() > 0 implies #[trigger] leads_to_stored(
        left,
        q,
    ) by {
        let r = choose|r: Path| #[trigger]
            rest.contains(r) && q.is_prefix_of(r) && !r.is_prefix_of(w);
        assert(r.len() > 0);
        assert(leads_to_stored(paths, r));
        let t = choose|t: Path| #[trigger]
            paths.contains(terminated(t)) && r.is_prefix_of(terminated(t));
        let end = terminated(t);
        assert(end.is_prefix_of(end));
        if p.is_prefix_of(end) {
            // `r` and `p` both lead to `end`, and `r` does not pass through `p`
            if r.len() < p.len() {
                assert(r =~= w.subrange(0, r.len() as int)) by {
                    assert forall|i: int| 0 <= i < r.len() implies r[i] == w[i] by {
                        assert(r[i] == end.subrange(0, r.len() as int)[i]);
                        assert(p[i] == end.subrange(0, p.len() as int)[i]);
                    }
                }
            } else {
                assert(p =~= r.subrange(0, p.len() as int)) by {
                    assert forall|i: int| 0 <= i < p.len() implies p[i] == r[i] by {
                        assert(r[i] == end.subrange(0, r.len() as int)[i]);
                        assert(p[i] == end.subrange(0, p.len() as int)[i]);
                    }
                }
            }
            assert(false);
        }
        assert(rest.contains(end));
        if end.is_prefix_of(w) {
            assert(r =~= w.subrange(0, r.len() as int));
        }
        assert(branches_off(rest, end, w));
        assert(left.contains(end));
        assert(q =~= end.subrange(0, q.len() as int));
    }
}

/// A tree in which the stop symbol only ever ends a path stores no string
/// with the stop symbol in it.
pub proof fn lemma_stored_plain(paths: Set<Path>, s: Path)
    requires
        stop_ends(paths),
        stored(paths).contains(s),
    ensures
        plain(s),
{
    assert(ends_cleanly(terminated(s)));
    assert forall|i: int| 0 <= i < s.len() implies s[i] != STOP by {
        assert(terminated(s)[i] != STOP);
    }
}

/// In a tree in which nothing passes through a stop symbol, what follows a
/// prefix in a stored string holds no stop symbol.
pub proof fn lemma_suffix_plain(paths: Set<Path>, p: Path, t: Path)
    requires
        stop_ends(paths),
        suffixes_after(stored(paths), p).contains(t),
    ensures
        plain(t),
{
    lemma_stored_plain(paths, p + t);
    assert forall|i: int| 0 <= i < t.len() implies t[i] != STOP by {
        assert((p + t)[p.len() + i] != STOP);
    }
}

/// Where nothing passes through a stop symbol, the end of a stored string is
/// a leaf.
pub proof fn lemma_stored_is_leaf(paths: Set<Path>, s: Path)
    requires
        stop_ends(paths),
        stored(paths).contains(s),
    ensures
        is_leaf_path(paths, terminated(s)),
{
    let w = terminated(s);
    assert forall|q: Path| #[trigger] paths.contains(q) && #[trigger] w.is_prefix_of(q) implies q
        == w by {
        assert(ends_cleanly(q));
        if q.len() > w.len() {
            assert(q[s.len() as int] == w[s.len() as int]) by {
                assert(w[s.len() as int] == q.subrange(0, w.len() as int)[s.len() as int]);
            }
        }
        assert(q =~= w);
    }
}

/// In a tree without needless nodes, every leaf but a bare root is the end
/// of a stored string: no leaf dangles.
pub proof fn lemma_leaf_is_stored(paths: Set<Path>, p: Path)
    requires
        tight(paths),
        is_leaf_path(paths, p),
        p.len() > 0,
    ensures
        p.last() == STOP,
        stored(paths).contains(p.drop_last()),
{
    assert(leads_to_stored(paths, p));
    let s = choose|s: Path| #[trigger]
        paths.contains(terminated(s)) && p.is_prefix_of(terminated(s));
    assert(terminated(s) == p);
    assert(p.drop_last() =~= s);
}

/// In a tree without needless nodes, a plain prefix is present when it is
/// empty or some stored string starts with it.
pub proof fn lemma_tight_prefix(paths: Set<Path>, p: Path)
    requires
        prefix_closed(paths),
        tight(paths),
        plain(p),
    ensures
        paths.contains(p) <==> p.len() == 0 || exists|s: Path| #[trigger]
            stored(paths).contains(s) && p.is_prefix_of(s),
{
    if p.len() == 0 {
        assert(p =~= Seq::<char>::empty());
    } else {
        if paths.contains(p) {
            assert(leads_to_stored(paths, p));
            let s = choose|s: Path| #[trigger]
                paths.contains(terminated(s)) && p.is_prefix_of(terminated(s));
            lemma_plain_prefix(p, s);
            assert(stored(paths).contains(s) && p.is_prefix_of(s));
        }
        if exists|s: Path| #[trigger] stored(paths).contains(s) && p.is_prefix_of(s) {
            let s = choose|s: Path| #[trigger] stored(paths).contains(s) && p.is_prefix_of(s);
            lemma_plain_prefix(p, s);
            assert(paths.contains(terminated(s)));
        }
    }
}

/// A tree without needless nodes is its root alone when it stores nothing.
pub proof fn lemma_tight_empty(paths: Set<Path>)
    requires
        prefix_closed(paths),
        tight(paths),
    ensures
        paths == root_only() <==> stored(paths) == Set::<Path>::empty(),
{
    if stored(paths) == Set::<Path>::empty() {
        assert forall|p: Path| paths.contains(p) <==> root_only().contains(p) by {
            if p.len() == 0 {
                assert(p =~= Seq::<char>::empty());
            } else if paths.contains(p) {
                assert(leads_to_stored(paths, p));
                let s = choose|s: Path| #[trigger]
                    paths.contains(terminated(s)) && p.is_prefix_of(terminated(s));
                assert(stored(paths).contains(s));
            }
        }
        assert(paths =~= root_only());
    }
    if paths == root_only() {
        lemma_root_only();
    }
}

/// A root alone stores nothing, and is a tree of the best kind.
pub proof fn lemma_root_only()
    ensures
        stored(root_only()) == Set::<Path>::empty(),
        stop_ends(root_only()),
        tight(root_only()),
        prefix_closed(root_only()),
{
    assert forall|s: Path| !stored(root_only()).contains(s) by {
        assert(terminated(s).len() > 0);
    }
    assert(stored(root_only()) =~= Set::<Path>::empty());
    assert forall|p: Path, q: Path| #[trigger]
        root_only().contains(q) && #[trigger] p.is_prefix_of(q) implies root_only().contains(
        p,
    ) by {
        assert(p =~= Seq::<char>::empty());
    }
}

/// Inserting strings without the stop symbol into an empty tree gives a tree
/// that stores exactly those strings, with the stop symbol at the end of
/// paths only and without a needless node.
pub proof fn lemma_built(strings: Seq<Path>)
    requires
        forall|i: int| 0 <= i < strings.len() ==> plain(#[trigger] strings[i]),
    ensures
        stored(built(strings)) == strings.to_set(),
        stop_ends(built(strings)),
        tight(built(strings)),
        prefix_closed(built(strings)),
    decreases strings.len(),
{
    if strings.len() == 0 {
        lemma_root_only();
        assert(strings.to_set() =~= Set::<Path>::empty());
    } else {
        let before = strings.drop_last();
        lemma_built(before);
        lemma_insert_stored(built(before), strings.last());
        lemma_insert_keeps(built(before), strings.last());
        assert forall|s: Path| before.to_set().insert(strings.last()).contains(s)
            <==> strings.to_set().contains(s) by {
            if before.to_set().contains(s) {
                let i = choose|i: int| 0 <= i < before.len() && before[i] == s;
                assert(strings[i] == s);
            }
            if strings.to_set().contains(s) {
                let i = choose|i: int| 0 <= i < strings.len() && strings[i] == s;
                if i < before.len() {
                    assert(before[i] == s);
                }
            }
        }
        assert(before.to_set().insert(strings.last()) =~= strings.to_set());
    }
}

/// Every string starts with the empty one.
pub proof fn lemma_starting_with_empty(strings: Set<Path>)
    ensures
        starting_with(strings, Seq::<char>::empty()) == strings,
{
    assert forall|s: Path| starting_with(strings, Seq::<char>::empty()).contains(s)
        <==> strings.contains(s) by {
        assert(Seq::<char>::empty() =~= s.subrange(0, 0));
    }
    assert(starting_with(strings, Seq::<char>::empty()) =~= strings);
}

/// Round trip: insert strings without the stop symbol into an empty tree,
/// ask for all that is stored, and get exactly those strings.
pub proof fn lemma_round_trip(strings: Seq<Path>)
    requires
        forall|i: int| 0 <= i < strings.len() ==> plain(#[trigger] strings[i]),
    ensures
        starting_with(stored(built(strings)), Seq::<char>::empty()) == strings.to_set(),
{
    lemma_built(strings);
    lemma_starting_with_empty(strings.to_set());
}

} // verus!

//! The prefix tree with its stop symbol, and the enumerations it hands out.

use crate::child_iter::ChildIter;
use crate::node::TrieNode;
use crate::paths::{below, cut_off, prefix_closed, prefixes, pruned, root_only, Path};
use crate::terminator::{
    built, lemma_below_keeps, lemma_below_stored, lemma_below_tight, lemma_built, lemma_cut_off,
    lemma_cut_off_tight, lemma_insert_keeps, lemma_insert_stored, lemma_pruned_keeps,
    lemma_pruned_tight, lemma_remove_stored, lemma_root_only, lemma_stored_plain,
    lemma_suffix_plain, lemma_tight_empty, lemma_tight_prefix, not_starting_with, plain,
    starting_with, stop_ends, stored, suffixes_after, terminated, tight, STOP,
};
use crate::text::{chars_of, joined, lemma_lists_push, lists, strip_last};
use vstd::prelude::*;

verus! {

/// The strings in `content`, as sequences of `char`s.
pub open spec fn strings_of(content: Seq<&str>) -> Seq<Path> {
    content.map_values(|text: &str| text@)
}

/// A prefix tree.
///
/// A trie is able to store char sequences and to iterate over those with a
/// common prefix. It saves common prefixes only once, which makes iterating
/// over all suffixes that belong to a prefix fast.
///
/// Create an empty trie and insert something:
/// ```
/// use mytrie::Trie;
///
/// let mut trie = Trie::default();
/// trie.insert("Hello World!");
/// trie.remove("Hello World!").unwrap();
/// ```
///
/// The view of a trie is the set of the strings it stores.
/// [`paths`](Self::paths) tells its shape.
#[derive(Debug)]
pub struct Trie(TrieNode);

impl View for Trie {
    type V = Set<Path>;

    open spec fn view(&self) -> Set<Path> {
        stored(self.paths())
    }
}

impl Trie {
    /// The root is a well-formed node, and the tree has no node that it
    /// could do without.
    #[verifier::type_invariant]
    pub closed spec fn wf(self) -> bool {
        self.0.wf() && tight(self.0@)
    }

    /// A well-formed trie has exactly the nodes that its strings need.
    pub proof fn lemma_tight(self)
        requires
            self.wf(),
        ensures
            self.is_tight(),
    {
    }

    /// The shape of the tree: every sequence of `char`s that leads from the
    /// root to a node, the empty one for the root itself among them. A stored
    /// string is in here with each of its prefixes, and once more with the
    /// stop symbol at its end.
    pub closed spec fn paths(self) -> Set<Path> {
        self.0@
    }

    /// The paths of a trie are those of a tree: the empty path is among
    /// them, and so is every prefix of each.
    pub proof fn lemma_paths_closed(self)
        ensures
            prefix_closed(self.paths()),
    {
        self.0.lemma_view_closed();
    }

    /// Whether the stop symbol only ever ends a path. This holds of a trie
    /// into which no string with the stop symbol in it was inserted.
    pub open spec fn is_clean(self) -> bool {
        stop_ends(self.paths())
    }

    /// Whether the tree has exactly the nodes that its strings need: every
    /// node but the root leads on to the end of a stored string. This holds
    /// of every trie, after every operation.
    pub open spec fn is_tight(self) -> bool {
        tight(self.paths())
    }

    /// An empty trie.
    pub fn new() -> (trie: Trie)
        ensures
            trie.paths() == root_only(),
            trie@ == Set::<Path>::empty(),
            trie.is_clean(),
            trie.is_tight(),
    {
        proof {
            lemma_root_only();
        }
        Trie(TrieNode::new())
    }

    /// Adds a string to the trie.
    ///
    /// The string is kept as its `char`s and the stop symbol after them.
    ///
    /// ```
    /// use mytrie::Trie;
    ///
    /// let mut trie = Trie::default();
    /// trie.insert("…");
    /// ```
    pub fn insert(&mut self, content: &str)
        ensures
            final(self).paths() == old(self).paths().union(prefixes(terminated(content@))),
            final(self)@ == old(self)@.union(stored(prefixes(terminated(content@)))),
            final(self)@.contains(content@),
            plain(content@) ==> final(self)@ == old(self)@.insert(content@),
            plain(content@) && old(self).is_clean() ==> final(self).is_clean(),
            final(self).is_tight(),
    {
        proof {
            use_type_invariant(&*self);
            lemma_insert_stored(self.paths(), content@);
            lemma_insert_keeps(self.paths(), content@);
            lemma_root_only();
        }
        // Insert char sequence with a stop symbol
        let mut path = chars_of(content);
        path.push(STOP);
        // The root is taken out while it changes, so that the trie holds a
        // well-formed root at every moment.
        let mut root = TrieNode::new();
        std::mem::swap(&mut root, &mut self.0);
        root.insert(path.as_slice());
        self.0 = root;
    }

    /// Initialize a trie from a set of strings: each is inserted in turn into
    /// an empty trie.
    ///
    /// ```
    /// use mytrie::Trie;
    ///
    /// let trie = Trie::from(&["Hello", "world"]);
    /// ```
    pub fn from(content: &[&str]) -> (trie: Trie)
        ensures
            trie.paths() == built(strings_of(content@)),
            trie.is_tight(),
            all_plain(strings_of(content@)) ==> trie@ == strings_of(content@).to_set()
                && trie.is_clean(),
    {
        let mut trie = Trie::new();
        let ghost strings = strings_of(content@);
        for i in 0..content.len()
            invariant
                strings == strings_of(content@),
                trie.paths() == built(strings.take(i as int)),
                trie.is_tight(),
        {
            trie.insert(content[i]);
            proof {
                let now = strings.take(i + 1);
                assert(now.drop_last() =~= strings.take(i as int));
                assert(now.last() == content[i as int]@);
            }
        }
        proof {
            assert(strings.take(content.len() as int) =~= strings);
            if all_plain(strings) {
                lemma_built(strings);
            }
        }
        trie
    }

    /// Initialize a trie from a set of strings: another name for
    /// [`from`](Self::from).
    pub fn from_iter(content: &[&str]) -> (trie: Trie)
        ensures
            trie.paths() == built(strings_of(content@)),
            trie.is_tight(),
            all_plain(strings_of(content@)) ==> trie@ == strings_of(content@).to_set()
                && trie.is_clean(),
    {
        Trie::from(content)
    }

    /// Iterate all suffixes that follow this prefix: for each stored string
    /// that starts with `prefix`, what comes after `prefix` in it.
    ///
    /// The order of iteration is arbitrary. A prefix that is not in the trie
    /// has no suffixes.
    ///
    /// ```
    /// use mytrie::Trie;
    ///
    /// let trie = Trie::from(&["Hallo", "Hallöchen"]);
    /// let mut suffixes: Vec<String> = trie.iter_suffixes("Hall").collect();
    ///
    /// suffixes.sort();
    /// assert_eq!(suffixes, ["o", "öchen"]);
    /// ```
    pub fn iter_suffixes<'a>(&'a self, prefix: &str) -> (iter: SuffixIterator<'a>)
        ensures
            iter.wf(),
            iter@ == suffixes_after(self@, prefix@),
            self.is_clean() ==> forall|t: Path| iter@.contains(t) ==> plain(t),
    {
        proof {
            use_type_invariant(self);
            lemma_below_stored(self.paths(), prefix@);
            if self.is_clean() {
                assert forall|t: Path| suffixes_after(self@, prefix@).contains(t) implies plain(
                    t,
                ) by {
                    lemma_suffix_plain(self.paths(), prefix@, t);
                }
            }
        }
        let path = chars_of(prefix);
        let node = self.0.get_node(path.as_slice());
        let iter = SuffixIterator {
            child_iter: match node {
                Some(n) => Some(n.iter_content()),
                None => None,
            },
        };
        proof {
            self.0.lemma_walk_below(prefix@);
            assert(iter.paths() == below(self.paths(), prefix@));
        }
        iter
    }

    /// Iterate all strings in the trie with this prefix.
    ///
    /// The order of iteration is arbitrary.
    ///
    /// ```
    /// use mytrie::Trie;
    ///
    /// let trie = Trie::from(&["Hallo", "Hallöchen", "Tschüs"]);
    /// let mut content: Vec<String> = trie.iter_content("Hall").collect();
    ///
    /// content.sort();
    /// assert_eq!(content, ["Hallo", "Hallöchen"]);
    /// ```
    pub fn iter_content<'a>(&'a self, prefix: &'a str) -> (iter: ContentIterator<'a>)
        ensures
            iter.wf(),
            iter@ == starting_with(self@, prefix@),
            self.is_clean() ==> forall|s: Path| iter@.contains(s) ==> plain(s),
    {
        let suffixes = self.iter_suffixes(prefix);
        let iter = ContentIterator { prefix, suffixes };
        proof {
            assert forall|s: Path| iter@.contains(s) <==> starting_with(self@, prefix@).contains(
                s,
            ) by {
                if prefix@.is_prefix_of(s) {
                    assert(prefix@ + s.skip(prefix@.len() as int) =~= s);
                }
            }
            assert(iter@ =~= starting_with(self@, prefix@));
            if self.is_clean() {
                assert forall|s: Path| iter@.contains(s) implies plain(s) by {
                    lemma_stored_plain(self.paths(), s);
                }
            }
        }
        iter
    }

    /// Get all strings in the trie with this prefix: another name for
    /// [`iter_content`](Self::iter_content).
    pub fn content_with_prefix<'a>(&'a self, prefix: &'a str) -> (iter: ContentIterator<'a>)
        ensures
            iter.wf(),
            iter@ == starting_with(self@, prefix@),
            self.is_clean() ==> forall|s: Path| iter@.contains(s) ==> plain(s),
    {
        self.iter_content(prefix)
    }

    /// Remove a string from the trie.
    ///
    /// On successful removal, `Some(())` is returned. If `content` was not
    /// present, `None` is returned, and the trie is as it was. The nodes that
    /// only this string needed go with it.
    ///
    /// ```
    /// use mytrie::Trie;
    ///
    /// let mut trie = Trie::from(&["Hallo", "Hallöchen"]);
    /// trie.remove("Hallo").unwrap();
    /// ```
    pub fn remove(&mut self, content: &str) -> (removed: Option<()>)
        ensures
            removed is Some <==> old(self)@.contains(content@),
            final(self).paths() == if removed is Some {
                pruned(old(self).paths(), terminated(content@))
            } else {
                old(self).paths()
            },
            final(self)@.subset_of(old(self)@),
            old(self).is_clean() ==> final(self)@ == old(self)@.remove(content@),
            old(self).is_clean() ==> final(self).is_clean(),
            final(self).is_tight(),
    {
        proof {
            use_type_invariant(&*self);
            lemma_root_only();
            lemma_pruned_keeps(self.paths(), terminated(content@));
            if self@.contains(content@) {
                if self.is_clean() {
                    lemma_remove_stored(self.paths(), content@);
                }
                lemma_pruned_tight(self.paths(), terminated(content@));
            } else {
                assert(self@.remove(content@) =~= self@);
            }
        }
        // We have to append the stop symbol again to make deletion successful
        let mut path = chars_of(content);
        path.push(STOP);
        // The root is taken out while it changes, as in `insert`.
        let mut root = TrieNode::new();
        std::mem::swap(&mut root, &mut self.0);
        let removed = root.remove(path.as_slice());
        self.0 = root;
        removed
    }

    /// Checks if something with this prefix is in the trie.
    ///
    /// The empty prefix is in every trie, an empty one too.
    ///
    /// ```
    /// use mytrie::Trie;
    ///
    /// let trie = Trie::from(&["Hallo", "Hallöchen", "Tschüs", "Hallo Welt"]);
    /// assert!(trie.contains_prefix("Hall"));
    /// assert!(trie.contains_prefix("Hallo"));
    /// assert!(!trie.contains_prefix("ABC"));
    /// assert!(trie.contains_prefix(""));
    /// ```
    pub fn contains_prefix(&self, prefix: &str) -> (found: bool)
        ensures
            found == self.paths().contains(prefix@),
            prefix@.len() == 0 ==> found,
            starting_with(self@, prefix@) != Set::<Path>::empty() ==> found,
            plain(prefix@) ==> (found <==> prefix@.len() == 0 || starting_with(self@, prefix@)
                != Set::<Path>::empty()),
    {
        proof {
            use_type_invariant(self);
            self.lemma_prefix_present(prefix@);
        }
        let path = chars_of(prefix);
        self.0.get_node(path.as_slice()).is_some()
    }

    /// Checks if the specified string was inserted into the trie.
    ///
    /// ```
    /// use mytrie::Trie;
    ///
    /// let trie = Trie::from(&["Hallo"]);
    /// assert!(!trie.contains("Hall"));
    /// assert!(trie.contains("Hallo"));
    /// ```
    pub fn contains(&self, content: &str) -> (found: bool)
        ensures
            found == self@.contains(content@),
    {
        proof {
            use_type_invariant(self);
        }
        let mut path = chars_of(content);
        path.push(STOP);
        self.0.get_node(path.as_slice()).is_some()
    }

    /// Returns true if the trie contains no content: if its root has no
    /// children.
    ///
    /// ```
    /// use mytrie::Trie;
    ///
    /// let mut trie = Trie::default();
    /// assert!(trie.is_empty());
    /// trie.insert("");
    /// assert!(!trie.is_empty());
    /// ```
    pub fn is_empty(&self) -> (empty: bool)
        ensures
            empty == (self.paths() == root_only()),
            empty == (self@ == Set::<Path>::empty()),
    {
        proof {
            use_type_invariant(self);
            self.0.lemma_view_closed();
            lemma_tight_empty(self.paths());
        }
        self.0.is_leaf()
    }

    /// Remove everything that follows this prefix.
    ///
    /// If a subtree was deleted, returns it. This will be another trie,
    /// containing all those removed strings minus the prefix. The subtree is
    /// handed over as it is, whatever its size, and the nodes that led to
    /// nothing but it go too. The empty prefix is in every trie: with it all
    /// that the trie holds is handed over, and the trie is left empty. A
    /// prefix that is not in the trie gives `None`, and the trie is as it
    /// was.
    ///
    /// ```
    /// use mytrie::Trie;
    ///
    /// let mut trie = Trie::from(&["Hallo", "Hallöchen", "Tschüs"]);
    /// let removed: Trie = trie.remove_suffixes("Hal").unwrap();
    /// let mut removed: Vec<String> = removed.iter_content("").collect();
    /// removed.sort();
    ///
    /// assert_eq!(removed, vec!["lo", "löchen"]);
    /// ```
    pub fn remove_suffixes(&mut self, prefix: &str) -> (cut: Option<Trie>)
        ensures
            cut is Some <==> old(self).paths().contains(prefix@),
            match cut {
                Some(sub) => {
                    &&& sub.paths() == below(old(self).paths(), prefix@)
                    &&& final(self).paths() == cut_off(old(self).paths(), prefix@)
                    &&& prefix@.len() == 0 ==> final(self).paths() == root_only()
                    &&& sub@ == suffixes_after(old(self)@, prefix@)
                    &&& plain(prefix@) ==> final(self)@ == not_starting_with(old(self)@, prefix@)
                    &&& old(self).is_clean() ==> sub.is_clean()
                    &&& sub.is_tight()
                },
                None => final(self).paths() == old(self).paths(),
            },
            final(self)@.subset_of(old(self)@),
            old(self).is_clean() ==> final(self).is_clean(),
            final(self).is_tight(),
    {
        proof {
            use_type_invariant(&*self);
            lemma_root_only();
            lemma_below_stored(self.paths(), prefix@);
            lemma_below_keeps(self.paths(), prefix@);
            lemma_below_tight(self.paths(), prefix@);
            lemma_cut_off(self.paths(), prefix@);
            lemma_cut_off_tight(self.paths(), prefix@);
        }
        let path = chars_of(prefix);
        // The root is taken out while it changes, as in `insert`.
        let mut root = TrieNode::new();
        std::mem::swap(&mut root, &mut self.0);
        let cut = root.remove_suffixes(path.as_slice());
        self.0 = root;
        match cut {
            Some(node) => Some(Trie(node)),
            None => None,
        }
    }

    /// A prefix is present when a stored string starts with it, and in a
    /// tree without needless nodes only then, unless it is empty or holds
    /// the stop symbol.
    pub proof fn lemma_prefix_present(self, prefix: Path)
        ensures
            prefix.len() == 0 ==> self.paths().contains(prefix),
            starting_with(self@, prefix) != Set::<Path>::empty() ==> self.paths().contains(prefix),
            self.is_tight() && plain(prefix) ==> (self.paths().contains(prefix) <==> prefix.len()
                == 0 || starting_with(self@, prefix) != Set::<Path>::empty()),
    {
        self.0.lemma_view_closed();
        let hits = starting_with(self@, prefix);
        if hits != Set::<Path>::empty() {
            assert(!(hits =~= Set::<Path>::empty()));
            let s = choose|s: Path| hits.contains(s);
            assert(self.paths().contains(terminated(s)));
            assert(prefix =~= terminated(s).subrange(0, prefix.len() as int));
            assert(prefix.is_prefix_of(terminated(s)));
        }
        if self.is_tight() && plain(prefix) {
            lemma_tight_prefix(self.paths(), prefix);
            if exists|s: Path| #[trigger] self@.contains(s) && prefix.is_prefix_of(s) {
                let s = choose|s: Path| #[trigger] self@.contains(s) && prefix.is_prefix_of(s);
                assert(hits.contains(s));
            }
        }
    }
}

impl Default for Trie {
    /// An empty trie.
    fn default() -> (trie: Trie)
        ensures
            trie.paths() == root_only(),
            trie@ == Set::<Path>::empty(),
            trie.is_clean(),
            trie.is_tight(),
    {
        Trie::new()
    }
}

/// Whether none of `strings` holds the stop symbol.
pub open spec fn all_plain(strings: Seq<Path>) -> bool {
    forall|i: int| 0 <= i < strings.len() ==> plain(#[trigger] strings[i])
}

/// Iterate over all strings stored below a node: an enumeration of suffixes.
///
/// It walks the subtree at the end of a prefix and hands out, one on each
/// call of [`next`](Self::next), what follows the prefix in a stored string:
/// the paths of the subtree that end in the stop symbol, without it.
///
/// The view is the set of suffixes that are still to come.
pub struct SuffixIterator<'a> {
    child_iter: Option<ChildIter<'a>>,
}

impl<'a> View for SuffixIterator<'a> {
    type V = Set<Path>;

    open spec fn view(&self) -> Set<Path> {
        stored(self.paths())
    }
}

impl<'a> SuffixIterator<'a> {
    /// The paths of the subtree that are still to be looked at.
    pub closed spec fn paths(self) -> Set<Path> {
        match self.child_iter {
            Some(iter) => iter@,
            None => Set::<Path>::empty(),
        }
    }

    /// The walk underneath is well-formed.
    pub closed spec fn wf(self) -> bool {
        match self.child_iter {
            Some(iter) => iter.wf(),
            None => true,
        }
    }

    /// Only finitely many paths are still to be looked at.
    pub proof fn lemma_finite(self)
        requires
            self.wf(),
        ensures
            self.paths().finite(),
    {
        match self.child_iter {
            Some(iter) => iter.lemma_finite(),
            None => {},
        }
    }

    /// The next path of the subtree, whether it ends a string or not.
    fn next_path(&mut self) -> (item: Option<String>)
        requires
            old(self).wf(),
        ensures
            final(self).wf(),
            match item {
                Some(path) => old(self).paths().contains(path@) && final(self).paths() == old(
                    self,
                ).paths().remove(path@),
                None => old(self).paths() == Set::<Path>::empty() && final(self).paths() == old(
                    self,
                ).paths(),
            },
    {
        match &mut self.child_iter {
            Some(iter) => iter.next(),
            None => None,
        }
    }

    /// The next suffix, or `None` when all have been handed out.
    pub fn next(&mut self) -> (item: Option<String>)
        requires
            old(self).wf(),
        ensures
            final(self).wf(),
            match item {
                Some(suffix) => old(self)@.contains(suffix@) && final(self)@ == old(self)@.remove(
                    suffix@,
                ),
                None => old(self)@ == Set::<Path>::empty() && final(self)@ == old(self)@,
            },
    {
        loop
            invariant
                self.wf(),
                self@ == old(self)@,
            decreases self.paths().len(),
        {
            let ghost before = self.paths();
            proof {
                self.lemma_finite();
            }
            match self.next_path() {
                Some(content) => {
                    match strip_last(content.as_str(), STOP) {
                        Some(suffix) => {
                            proof {
                                assert forall|t: Path|
                                    stored(before.remove(content@)).contains(t) <==> stored(
                                        before,
                                    ).remove(suffix@).contains(t) by {
                                    if terminated(t) == content@ {
                                        assert(t =~= terminated(t).drop_last());
                                        assert(suffix@ =~= content@.drop_last());
                                    }
                                }
                                assert(stored(before.remove(content@)) =~= stored(before).remove(
                                    suffix@,
                                ));
                            }
                            return Some(suffix);
                        },
                        None => {
                            proof {
                                assert forall|t: Path|
                                    stored(before.remove(content@)).contains(t) <==> stored(
                                        before,
                                    ).contains(t) by {
                                    if terminated(t) == content@ {
                                        assert(content@.last() == STOP);
                                    }
                                }
                                assert(stored(before.remove(content@)) =~= stored(before));
                            }
                        },
                    }
                },
                None => {
                    assert(stored(Set::<Path>::empty()) =~= Set::<Path>::empty());
                    return None;
                },
            }
        }
    }

    /// All suffixes that are still to come, in the order in which
    /// [`next`](Self::next) hands them out.
    pub fn collect(self) -> (items: Vec<String>)
        requires
            self.wf(),
        ensures
            lists(items@, self@),
    {
        let ghost all = self@;
        let mut rest = self;
        let mut items: Vec<String> = Vec::new();
        loop
            invariant
                rest.wf(),
                rest@.subset_of(all),
                lists(items@, all.difference(rest@)),
            ensures
                lists(items@, all),
            decreases rest@.len(),
        {
            let ghost left = rest@;
            let ghost done = items@;
            proof {
                rest.lemma_view_finite();
            }
            match rest.next() {
                Some(item) => {
                    items.push(item);
                    proof {
                        lemma_lists_push(done, all.difference(left), item);
                        assert(all.difference(left).insert(item@) =~= all.difference(rest@));
                    }
                },
                None => {
                    assert(all.difference(rest@) =~= all);
                    break ;
                },
            }
        }
        items
    }

    /// Only finitely many suffixes are still to come.
    pub proof fn lemma_view_finite(self)
        requires
            self.wf(),
        ensures
            self@.finite(),
    {
        self.lemma_finite();
        let ends = self.paths().filter(|p: Path| p.len() > 0 && p.last() == STOP);
        self.paths().lemma_len_filter(|p: Path| p.len() > 0 && p.last() == STOP);
        let strip = |p: Path| p.drop_last();
        ends.lemma_map_finite(strip);
        assert forall|t: Path| self@.contains(t) implies ends.map(strip).contains(t) by {
            assert(ends.contains(terminated(t)));
            assert(strip(terminated(t)) =~= t);
        }
        vstd::set_lib::lemma_len_subset(self@, ends.map(strip));
    }
}

/// An enumeration of the stored strings that start with a prefix.
///
/// It hands out, one on each call of [`next`](Self::next), the prefix
/// followed by one of the suffixes that a [`SuffixIterator`] finds.
///
/// The view is the set of strings that are still to come.
pub struct ContentIterator<'a> {
    prefix: &'a str,
    suffixes: SuffixIterator<'a>,
}

impl<'a> View for ContentIterator<'a> {
    type V = Set<Path>;

    closed spec fn view(&self) -> Set<Path> {
        Set::new(
            |s: Path|
                self.prefix@.is_prefix_of(s) && self.suffixes@.contains(
                    s.skip(self.prefix@.len() as int),
                ),
        )
    }
}

impl<'a> ContentIterator<'a> {
    /// The enumeration of suffixes underneath is well-formed.
    pub closed spec fn wf(self) -> bool {
        self.suffixes.wf()
    }

    /// The next string, or `None` when all have been handed out.
    pub fn next(&mut self) -> (item: Option<String>)
        requires
            old(self).wf(),
        ensures
            final(self).wf(),
            match item {
                Some(content) => old(self)@.contains(content@) && final(self)@ == old(
                    self,
                )@.remove(content@),
                None => old(self)@ == Set::<Path>::empty() && final(self)@ == old(self)@,
            },
    {
        match self.suffixes.next() {
            Some(suffix) => {
                let content = joined(self.prefix, suffix.as_str());
                proof {
                    let front = self.prefix@;
                    assert(front.is_prefix_of(content@)) by {
                        assert(front =~= content@.subrange(0, front.len() as int));
                    }
                    assert(content@.skip(front.len() as int) =~= suffix@);
                    assert forall|s: Path| self@.contains(s) <==> old(self)@.remove(
                        content@,
                    ).contains(s) by {
                        if front.is_prefix_of(s) {
                            assert(front + s.skip(front.len() as int) =~= s);
                        }
                    }
                    assert(self@ =~= old(self)@.remove(content@));
                }
                Some(content)
            },
            None => {
                assert(self@ =~= Set::<Path>::empty());
                None
            },
        }
    }

    /// Only finitely many strings are still to come.
    pub proof fn lemma_view_finite(self)
        requires
            self.wf(),
        ensures
            self@.finite(),
    {
        self.suffixes.lemma_view_finite();
        let front = self.prefix@;
        let put_first = |t: Path| front + t;
        self.suffixes@.lemma_map_finite(put_first);
        assert forall|s: Path| self@.contains(s) implies self.suffixes@.map(put_first).contains(
            s,
        ) by {
            assert(front + s.skip(front.len() as int) =~= s);
        }
        vstd::set_lib::lemma_len_subset(self@, self.suffixes@.map(put_first));
    }

    /// All strings that are still to come, in the order in which
    /// [`next`](Self::next) hands them out.
    pub fn collect(self) -> (items: Vec<String>)
        requires
            self.wf(),
        ensures
            lists(items@, self@),
    {
        let ghost all = self@;
        let mut rest = self;
        let mut items: Vec<String> = Vec::new();
        loop
            invariant
                rest.wf(),
                rest@.subset_of(all),
                lists(items@, all.difference(rest@)),
            ensures
                lists(items@, all),
            decreases rest@.len(),
        {
            let ghost left = rest@;
            let ghost done = items@;
            proof {
                rest.lemma_view_finite();
            }
            match rest.next() {
                Some(item) => {
                    items.push(item);
                    proof {
                        lemma_lists_push(done, all.difference(left), item);
                        assert(all.difference(left).insert(item@) =~= all.difference(rest@));
                    }
                },
                None => {
                    assert(all.difference(rest@) =~= all);
                    break ;
                },
            }
        }
        items
    }
}

} // verus!

//! The map: a handle to the root of a tree of shared nodes.

use crate::config::BTreeConfig;
use crate::entries::{find, keys_sorted, lemma_upsert, lookup, upsert, without};
use crate::find::{describes, monotone, range_of, KeyRangeResult, PredicateResult};
use crate::insert::InsertResult;
use crate::keys::{lawful, lt};
use crate::layout::{flatten, lemma_positions, run};
use crate::node::Node;
use crate::visit::{shown_below, visit_node, VisitStack};
use crate::sharing::{arc_clone, arc_make_mut};
use std::sync::Arc;
use vstd::prelude::*;

verus! {

/// An ordered map from `K` to `V`.
///
/// A copy of the handle is a snapshot of the map: the two share every node,
/// and a later change to either copies the nodes it touches, so that the
/// other does not see it.
#[derive(Debug)]
pub struct BTree<K, V> {
    root: Option<Arc<Node<K, V>>>,
    config: BTreeConfig,
}

impl<K: Ord, V> View for BTree<K, V> {
    type V = Seq<(K, V)>;

    /// The entries of the map in ascending key order.
    closed spec fn view(&self) -> Seq<(K, V)> {
        match self.root {
            None => Seq::empty(),
            Some(root) => root.entries(),
        }
    }
}

impl<K: Ord, V> Node<K, V> {
    /// Two well-formed nodes of one height and an entry between them make
    /// the children and the entry of a new root.
    pub proof fn lemma_new_root(left: Arc<Node<K, V>>, mid: (K, V), right: Arc<Node<K, V>>)
        requires
            left.wf(),
            right.wf(),
            left.height() == right.height(),
            keys_sorted(left.entries() + seq![mid] + right.entries()),
        ensures
            Self::shape(seq![mid], seq![left, right]),
            Self::entries_of(seq![mid], seq![left, right]) == left.entries() + seq![mid]
                + right.entries(),
            Self::total_count(seq![left, right], 2) == left.count + right.count,
            Self::height_of(seq![left, right]) == left.height() + 1,
            forall|config: BTreeConfig| #[trigger]
                left.fits(config) && left.balanced(config) && right.fits(config)
                    && right.balanced(config) ==> Self::balanced_of(seq![left, right], config),
    {
        let kvs = seq![mid];
        let cs = seq![left, right];
        let parts = Self::parts_of(cs);
        assert(parts[0] == left.entries());
        assert(parts[1] == right.entries());
        assert(run(parts, kvs, 0, 0) =~= Seq::<(K, V)>::empty());
        assert(run(parts, kvs, 0, 1) =~= left.entries() + seq![mid]);
        assert(flatten(parts, kvs) =~= left.entries() + seq![mid] + right.entries());
        assert(Self::total_count(cs, 0) == 0);
        assert(Self::total_count(cs, 1) == left.count);
        assert forall|i: int| 0 <= i < cs.len() implies (#[trigger] cs[i]).wf() && cs[i].height()
            == cs[0].height() by {
            if i == 0 {
            } else {
                assert(cs[i] == right);
            }
        }
        assert forall|config: BTreeConfig| #[trigger]
            left.fits(config) && left.balanced(config) && right.fits(config) && right.balanced(
                config,
            ) implies Self::balanced_of(cs, config) by {
            assert forall|i: int| 0 <= i < cs.len() implies (#[trigger] cs[i]).fits(config)
                && cs[i].balanced(config) by {
                if i == 0 {
                } else {
                    assert(cs[i] == right);
                }
            }
        }
    }

    /// A node without entries and with one child has the map of that child.
    pub proof fn lemma_only_child(&self)
        requires
            self.inv(),
            self.key_values@.len() == 0,
            self.children@.len() > 0,
        ensures
            self.children@.len() == 1,
            self.children@[0].wf(),
            self.entries() == self.children@[0].entries(),
            self.height() == self.children@[0].height() + 1,
    {
        let parts = self.parts();
        assert(run(parts, self.key_values@, 0, 0) =~= Seq::<(K, V)>::empty());
        assert(flatten(parts, self.key_values@) =~= parts[0]);
    }
}

impl<K: Ord + Clone, V: Clone> BTree<K, V> {
    /// The root of the tree, if the map is not empty.
    pub closed spec fn root(&self) -> Option<Arc<Node<K, V>>> {
        self.root
    }

    /// The order of the tree.
    pub closed spec fn config(&self) -> BTreeConfig {
        self.config
    }

    /// The number of levels of the tree: none for an empty map, one for a
    /// root without children.
    pub closed spec fn levels(&self) -> nat {
        match self.root {
            None => 0,
            Some(root) => root.height() + 1,
        }
    }

    /// The tree is well formed: key and value types are lawful, the order is
    /// valid, and the root, where there is one, is a well-formed node with
    /// every node below it of a size that the order allows.
    pub closed spec fn wf(&self) -> bool {
        &&& lawful::<K, V>()
        &&& self.config.valid()
        &&& match self.root {
            None => true,
            Some(root) => {
                &&& root.wf()
                &&& root.balanced(self.config)
                &&& root.key_values.len() <= self.config.node_limit()
                &&& root.count >= 1
            },
        }
    }

    /// What `wf` says, for those who cannot see the fields: the view is the
    /// map of the root, and the root is as `wf` asks.
    pub proof fn lemma_wf(&self)
        requires
            self.wf(),
        ensures
            lawful::<K, V>(),
            self.config().valid(),
            keys_sorted(self@),
            self@.len() <= usize::MAX,
            match self.root() {
                None => self@ == Seq::<(K, V)>::empty(),
                Some(root) => {
                    &&& self@ == root.entries()
                    &&& root.wf()
                    &&& root.count == self@.len()
                    &&& root.balanced(self.config())
                    &&& root.key_values.len() <= self.config().node_limit()
                    &&& self@.len() >= 1
                    &&& self.levels() == root.height() + 1
                },
            },
            self@.len() == 0 <==> self.levels() == 0,
    {
    }

    /// The entries come out by offset in strictly ascending key order.
    pub proof fn lemma_offsets_ascend(&self, i: int, j: int)
        requires
            self.wf(),
            0 <= i < j < self@.len(),
        ensures
            lt(self@[i].0, self@[j].0),
    {
    }

    /// An empty map of the default order: 20, or as many entries as fit
    /// into 4096 bytes where that is more.
    pub fn new() -> (res: Self)
        requires
            lawful::<K, V>(),
            vstd::layout::size_of::<(K, V)>() != 0,
        ensures
            res.wf(),
            res@ == Seq::<(K, V)>::empty(),
            res.config().max_degree == if 4096int / (vstd::layout::size_of::<(K, V)>() as int)
                > 20 {
                4096int / (vstd::layout::size_of::<(K, V)>() as int)
            } else {
                20int
            },
    {
        let fitting = 4096 / std::mem::size_of::<(K, V)>();
        Self::new_with_config(
            BTreeConfig {
                max_degree: if fitting > 20 {
                    fitting
                } else {
                    20
                },
            },
        )
    }

    /// An empty map of the given order.
    pub fn new_with_config(config: BTreeConfig) -> (res: Self)
        requires
            lawful::<K, V>(),
            config.valid(),
        ensures
            res.wf(),
            res@ == Seq::<(K, V)>::empty(),
            res.config() == config,
    {
        Self { root: None, config }
    }

    /// An empty map of the given order, or nothing where the order is too
    /// small for a node to keep an entry.
    pub fn try_new_with_config(config: BTreeConfig) -> (res: Option<Self>)
        requires
            lawful::<K, V>(),
        ensures
            res is Some <==> config.valid(),
            res matches Some(tree) ==> tree.wf() && tree@ == Seq::<(K, V)>::empty()
                && tree.config() == config,
    {
        if config.max_degree >= 3 {
            Some(Self::new_with_config(config))
        } else {
            None
        }
    }

    /// Binds `key` to `value`: the value of a key that the map holds is
    /// replaced, a new key is added.
    pub fn insert(&mut self, key: K, value: V)
        requires
            old(self).wf(),
            old(self)@.len() < usize::MAX,
        ensures
            final(self).wf(),
            final(self)@ == upsert(old(self)@, key, value),
            final(self).config() == old(self).config(),
            old(self).levels() <= final(self).levels() <= old(self).levels() + 1,
            old(self).levels() == 0 ==> final(self).levels() == 1,
            final(self).levels() == old(self).levels() + 1 ==> (final(self).root() matches Some(
                root,
            ) && root.key_values@.len() == 1 && root.children@.len() == (if old(self).levels()
                == 0 {
                0nat
            } else {
                2nat
            })),
    {
        let ghost before = self@;
        let ghost k = key;
        let ghost v = value;
        proof {
            lemma_upsert(before, k, v);
            self.config.lemma_sizes();
        }
        match self.root.take() {
            Some(mut shared) => {
                let ghost old_root = shared;
                let root = arc_make_mut(&mut shared);
                proof {
                    Node::lemma_cloned(&*old_root, &*root);
                    Node::lemma_same_node(&*old_root, &*root);
                    assert(root.balanced(self.config) == old_root.balanced(self.config));
                }
                match root.insert(key, value, &self.config) {
                    InsertResult::Splited { new_k_v, new_l, new_r } => {
                        // the root was split: a new root takes the two halves
                        proof {
                            Node::lemma_new_root(new_l, new_k_v, new_r);
                        }
                        let mut key_values: Vec<(K, V)> = Vec::new();
                        key_values.push(new_k_v);
                        let mut children: Vec<Arc<Node<K, V>>> = Vec::new();
                        children.push(new_l);
                        children.push(new_r);
                        proof {
                            assert(key_values@ =~= seq![new_k_v]);
                            assert(children@ =~= seq![new_l, new_r]);
                        }
                        let new_root = Node::new_with_key_values(key_values, children);
                        self.root = Some(Arc::new(new_root));
                    },
                    InsertResult::NotSplited { is_new: _ } => {
                        self.root = Some(shared);
                    },
                }
            },
            None => {
                let mut key_values: Vec<(K, V)> = Vec::new();
                key_values.push((key, value));
                proof {
                    assert(key_values@ =~= seq![(k, v)]);
                    assert(upsert(before, k, v) =~= seq![(k, v)]);
                }
                let new_root = Node::new_with_key_values(key_values, Vec::new());
                self.root = Some(Arc::new(new_root));
            },
        }
    }

    /// Takes `key` out of the map and hands back its entry, if the map holds
    /// the key.
    pub fn delete_by_key(&mut self, key: &K) -> (res: Option<(K, V)>)
        requires
            old(self).wf(),
        ensures
            final(self).wf(),
            res == find(old(self)@, *key),
            final(self)@ == without(old(self)@, *key),
            final(self).config() == old(self).config(),
            final(self).levels() <= old(self).levels() <= final(self).levels() + 1,
            final(self)@.len() == 0 <==> final(self).levels() == 0,
    {
        proof {
            self.config.lemma_sizes();
        }
        match self.root.take() {
            None => None,
            Some(mut shared) => {
                let ghost old_root = shared;
                let root = arc_make_mut(&mut shared);
                proof {
                    Node::lemma_cloned(&*old_root, &*root);
                    Node::lemma_same_node(&*old_root, &*root);
                    assert(root.balanced(self.config) == old_root.balanced(self.config));
                }
                let delete_result = root.delete_by_key(key, &self.config);

                if root.count == 0 {
                    // nothing is left
                    proof {
                        if root.children@.len() > 0 {
                            let first = root.children@[0];
                            assert(Node::balanced_of(root.children@, self.config));
                            assert(first.fits(self.config));
                            first.lemma_count_invariant();
                            Node::lemma_total_count_grows(
                                first.children@,
                                0,
                                first.children@.len() as int,
                            );
                            lemma_positions(root.parts(), root.key_values@, 0);
                        }
                    }
                } else if root.key_values.len() == 0 {
                    // the root has no entry left: its only child is the new root
                    proof {
                        root.lemma_only_child();
                        assert(Node::balanced_of(root.children@, self.config));
                        assert(root.children@[0].fits(self.config));
                    }
                    let child = root.children.remove(0);
                    self.root = Some(child);
                } else {
                    self.root = Some(shared);
                }
                delete_result
            },
        }
    }

    /// The value of `key`, if the map holds the key.
    pub fn get_by_key(&self, key: &K) -> (res: Option<&V>)
        requires
            self.wf(),
        ensures
            res == match lookup(self@, *key) {
                Some(value) => Some(&value),
                None => None,
            },
    {
        match &self.root {
            None => None,
            Some(root) => root.get_by_key(key),
        }
    }

    /// The entry at `offset` in key order, if the map has that many.
    pub fn get_by_offset(&self, offset: usize) -> (res: Option<&(K, V)>)
        requires
            self.wf(),
        ensures
            res == if offset < self@.len() {
                Some(&self@[offset as int])
            } else {
                None
            },
    {
        match &self.root {
            None => None,
            Some(root) => root.get_by_offset(offset),
        }
    }

    /// The keys of the map that `predicate` matches: whether there are any,
    /// the smallest and the largest of them, and how many they are. The
    /// predicate has to be monotone on the map.
    pub fn find_key_range<P: Fn(&K) -> PredicateResult>(&self, predicate: &P) -> (res:
        KeyRangeResult<'_, K>)
        requires
            self.wf(),
            monotone(predicate, self@),
        ensures
            forall|class: spec_fn(K) -> PredicateResult| #[trigger]
                describes(predicate, class, self@) ==> res@ == range_of(class, self@),
    {
        match &self.root {
            None => KeyRangeResult::Empty,
            Some(root) => root.find_key_range(predicate),
        }
    }
    /// `stack` is a true view of a node of the tree: of its entries, its
    /// depth, whether it is a leaf, and the nodes above it.
    pub open spec fn shows<'a>(&self, stack: &VisitStack<'a, K, V>) -> bool {
        match self.root() {
            Some(root) => root.shows(stack),
            None => false,
        }
    }

    /// Shows `visit_fn` every node of the tree: a node before its children,
    /// the children in order. What it is shown at a node is a true view of
    /// that node and of the nodes above it. The visitor itself is left as it
    /// was. Gives nothing for an empty map.
    pub fn visit(&self, visit_fn: &mut impl FnMut(&VisitStack<'_, K, V>)) -> (res: Option<()>)
        requires
            self.wf(),
            forall|stack: VisitStack<'_, K, V>| #[trigger]
                self.shows(&stack) ==> call_requires(*old(visit_fn), (&stack,)),
        ensures
            res is Some <==> self@.len() > 0,
            *final(visit_fn) == *old(visit_fn),
            self.root() matches Some(root) ==> shown_below(
                &*old(visit_fn),
                &*root,
                Seq::<int>::empty(),
            ),
    {
        match &self.root {
            None => None,
            Some(root) => {
                assert forall|stack: VisitStack<'_, K, V>| #[trigger]
                    root.shows(&stack) implies call_requires(*visit_fn, (&stack,)) by {
                    assert(self.shows(&stack));
                }
                visit_node(root, visit_fn);
                Some(())
            },
        }
    }
}

impl<K: Ord + Clone, V: Clone> Clone for BTree<K, V> {
    /// A snapshot of the map. No node is copied: the snapshot shares the
    /// root with this map.
    fn clone(&self) -> (res: Self)
        ensures
            res@ == self@,
            res.wf() == self.wf(),
            res.config() == self.config(),
            res.root() == self.root(),
    {
        let root = match &self.root {
            None => None,
            Some(shared) => Some(arc_clone(shared)),
        };
        Self { root, config: self.config }
    }
}

} // verus!

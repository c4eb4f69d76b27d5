//! Insertion into a node: descent to the place of the key, and on the way
//! back the splitting of nodes that have grown too large.

use crate::config::BTreeConfig;
use crate::entries::{contains_key, lemma_upsert, rank, upsert};
use crate::keys::{lawful, total_order};
use crate::layout::{lemma_flatten_set_sep, lemma_positions};
use crate::node::{search, Node};
use std::sync::Arc;
use vstd::prelude::*;

verus! {

/// What an insertion did to a node.
pub enum InsertResult<K, V> {
    /// The node grew too large and was split: `new_l` holds the entries
    /// before `new_k_v`, `new_r` those behind it.
    Splited { new_k_v: (K, V), new_l: Arc<Node<K, V>>, new_r: Arc<Node<K, V>> },
    /// The node took the entry. `is_new` says whether the key was new to it.
    NotSplited { is_new: bool },
}

impl<K: Ord, V> Node<K, V> {
    /// Giving the entry `idx` of a node a new value binds its key in the map.
    pub proof fn lemma_separator_set(
        key_values: Seq<(K, V)>,
        children: Seq<Arc<Node<K, V>>>,
        idx: int,
        value: V,
    )
        requires
            total_order::<K>(),
            Self::shape(key_values, children),
            0 <= idx < key_values.len(),
        ensures
            ({
                let key = key_values[idx].0;
                let whole = Self::entries_of(key_values, children);
                let key_values2 = key_values.update(idx, (key, value));
                &&& contains_key(whole, key)
                &&& Self::shape(key_values2, children)
                &&& Self::entries_of(key_values2, children) == upsert(whole, key, value)
                &&& upsert(whole, key, value).len() == whole.len()
            }),
    {
        let key = key_values[idx].0;
        let whole = Self::entries_of(key_values, children);
        lemma_upsert(whole, key, value);
        if children.len() == 0 {
            crate::entries::lemma_rank_of_member(whole, idx);
        } else {
            let parts = Self::parts_of(children);
            lemma_positions(parts, key_values, idx);
            crate::entries::lemma_rank_of_member(
                whole,
                crate::layout::sep_index(parts, key_values, idx),
            );
            lemma_flatten_set_sep(parts, key_values, idx, (key, value));
        }
    }

    /// Binding a key in the child it belongs to binds it in the map of the
    /// node.
    pub proof fn lemma_child_upserted(
        key_values: Seq<(K, V)>,
        children: Seq<Arc<Node<K, V>>>,
        key: K,
        value: V,
        child: Arc<Node<K, V>>,
    )
        requires
            total_order::<K>(),
            Self::shape(key_values, children),
            children.len() > 0,
            !contains_key(key_values, key),
            child.wf(),
            child.entries() == upsert(children[rank(key_values, key)].entries(), key, value),
            child.height() == children[rank(key_values, key)].height(),
        ensures
            ({
                let idx = rank(key_values, key);
                let whole = Self::entries_of(key_values, children);
                let children2 = children.update(idx, child);
                &&& 0 <= idx < children.len()
                &&& contains_key(whole, key) == contains_key(children[idx].entries(), key)
                &&& Self::shape(key_values, children2)
                &&& Self::entries_of(key_values, children2) == upsert(whole, key, value)
                &&& Self::height_of(children2) == Self::height_of(children)
                &&& upsert(whole, key, value).len() == if contains_key(whole, key) {
                    whole.len()
                } else {
                    whole.len() + 1
                }
                &&& forall|config: BTreeConfig| #[trigger]
                    Self::balanced_of(children, config) && child.fits(config) && child.balanced(
                        config,
                    ) ==> Self::balanced_of(children2, config)
            }),
    {
        let idx = rank(key_values, key);
        let whole = Self::entries_of(key_values, children);
        let children2 = children.update(idx, child);
        Self::lemma_descend_of(key_values, children, key);
        Self::lemma_child_replaced(key_values, children, idx, child);
        lemma_upsert(whole, key, value);
        assert(children2[0].height() == children[0].height());
    }

    /// Putting the two halves of a split child and the entry between them in
    /// the place of the child binds the key in the map of the node.
    pub proof fn lemma_child_split_upserted(
        key_values: Seq<(K, V)>,
        children: Seq<Arc<Node<K, V>>>,
        key: K,
        value: V,
        left: Arc<Node<K, V>>,
        mid: (K, V),
        right: Arc<Node<K, V>>,
    )
        requires
            total_order::<K>(),
            Self::shape(key_values, children),
            children.len() > 0,
            !contains_key(key_values, key),
            left.wf(),
            right.wf(),
            left.entries() + seq![mid] + right.entries() == upsert(
                children[rank(key_values, key)].entries(),
                key,
                value,
            ),
            !contains_key(children[rank(key_values, key)].entries(), key),
            left.height() == children[rank(key_values, key)].height(),
            right.height() == children[rank(key_values, key)].height(),
        ensures
            ({
                let idx = rank(key_values, key);
                let whole = Self::entries_of(key_values, children);
                let key_values2 = key_values.insert(idx, mid);
                let children2 = children.update(idx, left).insert(idx + 1, right);
                &&& 0 <= idx < children.len()
                &&& !contains_key(whole, key)
                &&& Self::shape(key_values2, children2)
                &&& Self::entries_of(key_values2, children2) == upsert(whole, key, value)
                &&& Self::height_of(children2) == Self::height_of(children)
                &&& upsert(whole, key, value).len() == whole.len() + 1
                &&& forall|config: BTreeConfig| #[trigger]
                    Self::balanced_of(children, config) && left.fits(config) && left.balanced(
                        config,
                    ) && right.fits(config) && right.balanced(config) ==> Self::balanced_of(
                        children2,
                        config,
                    )
            }),
    {
        let idx = rank(key_values, key);
        let whole = Self::entries_of(key_values, children);
        let children2 = children.update(idx, left).insert(idx + 1, right);
        Self::lemma_descend_of(key_values, children, key);
        Self::lemma_child_split(key_values, children, idx, left, mid, right);
        lemma_upsert(whole, key, value);
        assert(children2[0].height() == children[0].height());
        assert forall|i: int| 0 <= i < children2.len() implies (#[trigger] children2[i]).wf()
            && children2[i].height() == children2[0].height() by {
            if i < idx {
                assert(children2[i] == children[i]);
            } else if i > idx + 1 {
                assert(children2[i] == children[i - 1]);
            }
        }
        assert forall|config: BTreeConfig| #[trigger]
            Self::balanced_of(children, config) && left.fits(config) && left.balanced(config)
                && right.fits(config) && right.balanced(config) implies Self::balanced_of(
            children2,
            config,
        ) by {
            assert forall|i: int| 0 <= i < children2.len() implies (#[trigger] children2[i]).fits(
                config,
            ) && children2[i].balanced(config) by {
                if i < idx {
                    assert(children2[i] == children[i]);
                } else if i > idx + 1 {
                    assert(children2[i] == children[i - 1]);
                }
            }
        }
    }
}

impl<K: Ord + Clone, V: Clone> Node<K, V> {
    /// Binds `key` to `value` in the map of this node.
    ///
    /// Where the node need not be split, it holds the new map afterwards.
    /// Where it must, the new map is handed back as two nodes and the entry
    /// between them, and the node itself is left empty.
    pub fn insert(&mut self, key: K, value: V, config: &BTreeConfig) -> (res: InsertResult<K, V>)
        requires
            lawful::<K, V>(),
            config.valid(),
            old(self).inv(),
            old(self).balanced(*config),
            old(self).key_values.len() <= config.node_limit(),
            old(self).count < usize::MAX,
        ensures
            match res {
                InsertResult::NotSplited { is_new } => {
                    &&& is_new == !contains_key(old(self).entries(), key)
                    &&& final(self).inv()
                    &&& final(self).balanced(*config)
                    &&& final(self).entries() == upsert(old(self).entries(), key, value)
                    &&& final(self).height() == old(self).height()
                    &&& old(self).key_values.len() <= final(self).key_values.len()
                        <= config.node_limit()
                },
                InsertResult::Splited { new_k_v, new_l, new_r } => {
                    &&& !contains_key(old(self).entries(), key)
                    &&& new_l.wf()
                    &&& new_r.wf()
                    &&& new_l.fits(*config)
                    &&& new_r.fits(*config)
                    &&& new_l.balanced(*config)
                    &&& new_r.balanced(*config)
                    &&& new_l.height() == old(self).height()
                    &&& new_r.height() == old(self).height()
                    &&& new_l.entries() + seq![new_k_v] + new_r.entries() == upsert(
                        old(self).entries(),
                        key,
                        value,
                    )
                    &&& new_l.key_values@.len() == (old(self).key_values.len() + 1) / 2
                    &&& new_l.key_values@.len() + new_r.key_values@.len() == old(
                        self,
                    ).key_values.len()
                    &&& final(self).key_values@.len() == 0
                    &&& final(self).children@.len() == 0
                    &&& final(self).count == old(self).count + 1
                },
            },
        decreases old(self).height(),
    {
        let ghost pre = *self;
        let ghost k = key;
        let ghost v = value;
        proof {
            pre.lemma_separators_sorted();
            config.lemma_sizes();
        }
        let is_new = if self.is_leaf() {
            match search(&self.key_values, &key) {
                Ok(idx) => {
                    proof {
                        Self::lemma_separator_set(pre.key_values@, pre.children@, idx as int, v);
                    }
                    self.key_values[idx] = (key, value);
                    return InsertResult::NotSplited { is_new: false };
                },
                Err(idx) => {
                    proof {
                        lemma_upsert(pre.key_values@, k, v);
                    }
                    self.key_values.insert(idx, (key, value));
                    self.count += 1;
                    true
                },
            }
        } else {
            match search(&self.key_values, &key) {
                Ok(idx) => {
                    proof {
                        Self::lemma_separator_set(pre.key_values@, pre.children@, idx as int, v);
                    }
                    self.key_values[idx] = (key, value);
                    return InsertResult::NotSplited { is_new: false };
                },
                Err(idx) => {
                    proof {
                        pre.lemma_descend(k);
                        assert(Self::balanced_of(pre.children@, *config));
                        assert(pre.children@[idx as int].fits(*config));
                        assert(pre.children@[idx as int].balanced(*config));
                        assert(pre.children@[idx as int].height() + 1 == pre.height());
                    }
                    let child = Self::child_mut(&mut self.children, idx);
                    proof {
                        Self::lemma_same_node(&*pre.children@[idx as int], &*child);
                        assert(child.balanced(*config) == pre.children@[idx as int].balanced(
                            *config,
                        ));
                        assert(child.fits(*config) == pre.children@[idx as int].fits(*config));
                    }
                    match child.insert(key, value, config) {
                        InsertResult::NotSplited { is_new } => {
                            if is_new {
                                self.count += 1;
                            }
                            proof {
                                Self::lemma_child_upserted(
                                    pre.key_values@,
                                    pre.children@,
                                    k,
                                    v,
                                    self.children@[idx as int],
                                );
                            }
                            return InsertResult::NotSplited { is_new };
                        },
                        InsertResult::Splited { new_k_v, new_l, new_r } => {
                            proof {
                                Self::lemma_child_split_upserted(
                                    pre.key_values@,
                                    pre.children@,
                                    k,
                                    v,
                                    new_l,
                                    new_k_v,
                                    new_r,
                                );
                            }
                            self.count += 1;
                            self.key_values.insert(idx, new_k_v);
                            self.children[idx] = new_l;
                            self.children.insert(idx + 1, new_r);
                            proof {
                                assert(self.children@ == pre.children@.update(
                                    idx as int,
                                    new_l,
                                ).insert(idx + 1, new_r));
                            }
                            true
                        },
                    }
                },
            }
        };
        if !config.node_should_split(self.key_values.len()) {
            return InsertResult::NotSplited { is_new };
        }
        let (new_k_v, new_l, new_r) = self.split_in_two(config);
        InsertResult::Splited { new_k_v, new_l, new_r }
    }

    /// Splits a node that has grown too large behind the middle of its
    /// entries: the entries before the split point and the children before
    /// them go to a new left node, those behind to a new right node, and the
    /// entry at the split point goes up. The node itself is left empty.
    fn split_in_two(&mut self, config: &BTreeConfig) -> (res: ((K, V), Arc<Self>, Arc<Self>))
        requires
            config.valid(),
            old(self).inv(),
            old(self).balanced(*config),
            config.node_max_key_value() < old(self).key_values.len() <= config.node_limit() + 1,
        ensures
            res.1.wf(),
            res.2.wf(),
            res.1.fits(*config),
            res.2.fits(*config),
            res.1.balanced(*config),
            res.2.balanced(*config),
            res.1.height() == old(self).height(),
            res.2.height() == old(self).height(),
            res.1.entries() + seq![res.0] + res.2.entries() == old(self).entries(),
            res.1.key_values@ == old(self).key_values@.subrange(
                0,
                old(self).key_values.len() as int / 2,
            ),
            res.0 == old(self).key_values@[old(self).key_values.len() as int / 2],
            res.2.key_values@ == old(self).key_values@.subrange(
                old(self).key_values.len() as int / 2 + 1,
                old(self).key_values.len() as int,
            ),
            res.1.children@ == Self::left_children(
                old(self).children@,
                old(self).key_values.len() as int / 2,
            ),
            res.2.children@ == Self::right_children(
                old(self).children@,
                old(self).key_values.len() as int / 2,
            ),
            final(self).key_values@.len() == 0,
            final(self).children@.len() == 0,
            final(self).count == old(self).count,
    {
        let ghost grown = *self;
        proof {
            config.lemma_sizes();
        }
        let split_at = self.key_values.len() / 2;
        let split_off = split_at + 1;

        let mut left_key_values: Vec<(K, V)> = Vec::new();
        std::mem::swap(&mut left_key_values, &mut self.key_values);

        let right_key_values = left_key_values.split_off(split_off);
        let root_key_value = left_key_values.pop().unwrap();

        let (left_children, right_children) = if !self.is_leaf() {
            let mut left_children: Vec<Arc<Self>> = Vec::new();
            std::mem::swap(&mut left_children, &mut self.children);
            let right_children = left_children.split_off(split_off);
            (left_children, right_children)
        } else {
            (Vec::new(), Vec::new())
        };
        proof {
            Self::lemma_cut(grown.key_values@, grown.children@, split_at as int);
            grown.lemma_count_invariant();
            assert(left_key_values@ =~= grown.key_values@.subrange(0, split_at as int));
            assert(right_key_values@ =~= grown.key_values@.subrange(
                split_at + 1,
                grown.key_values.len() as int,
            ));
            assert(left_children@ =~= Self::left_children(grown.children@, split_at as int));
            assert(right_children@ =~= Self::right_children(grown.children@, split_at as int));
            Self::lemma_entries_len(left_key_values@, left_children@);
            Self::lemma_entries_len(right_key_values@, right_children@);
        }
        let new_l = Arc::new(Self::new_with_key_values(left_key_values, left_children));
        let new_r = Arc::new(Self::new_with_key_values(right_key_values, right_children));
        (root_key_value, new_l, new_r)
    }
}

} // verus!

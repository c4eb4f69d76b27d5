//! Deletion from a node: descent to the key, and on the way back the
//! rebalancing of children that have become too small, by merging two
//! siblings or by moving an entry from one to the other.

use crate::config::BTreeConfig;
use crate::entries::{
    contains_key, find, keys_sorted, lemma_rank_of_member, lemma_sorted_pieces, lemma_without,
    rank, without,
};
use crate::keys::{faithful_clone, lawful, total_order};
use crate::layout::{after, lemma_flatten_pair, lemma_positions, run, sep_index};
use crate::node::{clone_children, clone_entries, search, Node};
use crate::sharing::arc_clone;
use std::sync::Arc;
use vstd::prelude::*;

verus! {

impl<K: Ord, V> Node<K, V> {
    /// `key_values` and `children` make a search tree but for child `but`,
    /// which may be left without an entry.
    pub open spec fn settled_but(
        key_values: Seq<(K, V)>,
        children: Seq<Arc<Node<K, V>>>,
        but: int,
    ) -> bool {
        &&& children.len() == key_values.len() + 1
        &&& key_values.len() >= 1
        &&& 0 <= but < children.len()
        &&& forall|i: int| 0 <= i < children.len() && i != but ==> (#[trigger] children[i]).wf()
        &&& children[but].inv()
        &&& forall|i: int|
            0 <= i < children.len() ==> (#[trigger] children[i]).height() == children[0].height()
        &&& keys_sorted(Self::entries_of(key_values, children))
    }

    /// Every node among and below `children` has as many entries as it may
    /// have, but for child `but`, which may have one too few.
    pub open spec fn sized_but(
        children: Seq<Arc<Node<K, V>>>,
        but: int,
        config: BTreeConfig,
    ) -> bool {
        &&& forall|i: int|
            0 <= i < children.len() && i != but ==> (#[trigger] children[i]).fits(config)
        &&& forall|i: int| 0 <= i < children.len() ==> (#[trigger] children[i]).balanced(config)
        &&& config.spec_node_min_key_value() <= children[but].key_values.len() + 1
        &&& children[but].key_values.len() <= config.node_limit()
    }

    /// The state of a node between a removal below child `but` and the
    /// rebalancing that follows it.
    pub open spec fn pending(&self, but: int, config: BTreeConfig) -> bool {
        &&& Self::settled_but(self.key_values@, self.children@, but)
        &&& Self::sized_but(self.children@, but, config)
        &&& self.count == self.entries().len()
    }

    /// `after` is this node with the children `idx` and `idx + 1` and the
    /// entry between them merged into one child.
    pub open spec fn merged_at(&self, after: &Self, idx: int) -> bool {
        let left = self.children@[idx];
        let right = self.children@[idx + 1];
        &&& after.key_values@ == self.key_values@.remove(idx)
        &&& after.children@ == self.children@.update(idx, after.children@[idx]).remove(idx + 1)
        &&& after.children@[idx].key_values@ == left.key_values@ + seq![self.key_values@[idx]]
            + right.key_values@
        &&& after.children@[idx].children@ == left.children@ + right.children@
    }

    /// `after` is this node with the entry `idx` moved to the end of child
    /// `idx` and the first entry of child `idx + 1` in its place; with the
    /// entry goes the first child of child `idx + 1`.
    pub open spec fn rotated_left_at(&self, after: &Self, idx: int) -> bool {
        let left = self.children@[idx];
        let right = self.children@[idx + 1];
        &&& after.key_values@ == self.key_values@.update(idx, right.key_values@[0])
        &&& after.children@ == self.children@.update(idx, after.children@[idx]).update(
            idx + 1,
            after.children@[idx + 1],
        )
        &&& after.children@[idx].key_values@ == left.key_values@.push(self.key_values@[idx])
        &&& after.children@[idx + 1].key_values@ == right.key_values@.drop_first()
        &&& after.children@[idx].children@ == if left.children@.len() == 0 {
            left.children@
        } else {
            left.children@.push(right.children@[0])
        }
        &&& after.children@[idx + 1].children@ == if right.children@.len() == 0 {
            right.children@
        } else {
            right.children@.drop_first()
        }
    }

    /// `after` is this node with the entry `idx` moved to the front of child
    /// `idx + 1` and the last entry of child `idx` in its place; with the
    /// entry goes the last child of child `idx`.
    pub open spec fn rotated_right_at(&self, after: &Self, idx: int) -> bool {
        let left = self.children@[idx];
        let right = self.children@[idx + 1];
        &&& after.key_values@ == self.key_values@.update(idx, left.key_values@.last())
        &&& after.children@ == self.children@.update(idx, after.children@[idx]).update(
            idx + 1,
            after.children@[idx + 1],
        )
        &&& after.children@[idx].key_values@ == left.key_values@.drop_last()
        &&& after.children@[idx + 1].key_values@ == seq![self.key_values@[idx]]
            + right.key_values@
        &&& after.children@[idx].children@ == if left.children@.len() == 0 {
            left.children@
        } else {
            left.children@.drop_last()
        }
        &&& after.children@[idx + 1].children@ == if right.children@.len() == 0 {
            right.children@
        } else {
            seq![left.children@.last()] + right.children@
        }
    }

    /// `after` is what a rebalance makes of this node after a removal below
    /// child `child_idx`. The child and the sibling behind it are looked at,
    /// or for the last child the sibling before it: where neither has an
    /// entry to spare, they are merged; else, where the left has too few, it
    /// gets one from the right; else, where the right has too few, it gets
    /// one from the left; else nothing is done.
    pub open spec fn rebalanced(&self, after: &Self, child_idx: int, config: BTreeConfig) -> bool {
        let idx = if child_idx == self.children@.len() - 1 {
            child_idx - 1
        } else {
            child_idx
        };
        let left = self.children@[idx].key_values@.len();
        let right = self.children@[idx + 1].key_values@.len();
        let min = config.spec_node_min_key_value();
        if left <= min && right <= min {
            self.merged_at(after, idx)
        } else if left < min {
            self.rotated_left_at(after, idx)
        } else if right < min {
            self.rotated_right_at(after, idx)
        } else {
            after.key_values@ == self.key_values@ && after.children@ == self.children@
        }
    }

    /// The map around the entry `idx` of a node: the entries of the two
    /// children beside it, with the entry between them, ascend, and are no
    /// more than the map has.
    pub proof fn lemma_pair(key_values: Seq<(K, V)>, children: Seq<Arc<Node<K, V>>>, idx: int)
        requires
            children.len() == key_values.len() + 1,
            0 <= idx < key_values.len(),
            keys_sorted(Self::entries_of(key_values, children)),
        ensures
            Self::entries_of(key_values, children) == run(
                Self::parts_of(children),
                key_values,
                0,
                idx,
            ) + children[idx].entries() + seq![key_values[idx]] + children[idx + 1].entries()
                + after(Self::parts_of(children), key_values, idx + 1),
            keys_sorted(
                children[idx].entries() + seq![key_values[idx]] + children[idx + 1].entries(),
            ),
            children[idx].entries().len() + 1 + children[idx + 1].entries().len()
                <= Self::entries_of(key_values, children).len(),
    {
        let parts = Self::parts_of(children);
        let front = run(parts, key_values, 0, idx);
        let mid = children[idx].entries() + seq![key_values[idx]] + children[idx + 1].entries();
        let back = after(parts, key_values, idx + 1);
        lemma_flatten_pair(parts, key_values, idx);
        assert(Self::entries_of(key_values, children) =~= front + mid + back);
        lemma_sorted_pieces(front + mid, back);
        lemma_sorted_pieces(front, mid);
    }

    /// Two new children and a new entry between them in the place of the
    /// children `idx` and `idx + 1` and their entry leave a search tree with
    /// the same map, where they hold the same entries in the same order.
    pub proof fn lemma_pair_rebuilt(
        key_values: Seq<(K, V)>,
        children: Seq<Arc<Node<K, V>>>,
        but: int,
        idx: int,
        left: Arc<Node<K, V>>,
        mid: (K, V),
        right: Arc<Node<K, V>>,
    )
        requires
            Self::settled_but(key_values, children, but),
            0 <= idx < key_values.len(),
            but == idx || but == idx + 1,
            left.wf(),
            right.wf(),
            left.height() == children[0].height(),
            right.height() == children[0].height(),
            left.entries() + seq![mid] + right.entries() == children[idx].entries() + seq![
                key_values[idx],
            ] + children[idx + 1].entries(),
        ensures
            ({
                let key_values2 = key_values.update(idx, mid);
                let children2 = children.update(idx, left).update(idx + 1, right);
                &&& Self::shape(key_values2, children2)
                &&& Self::entries_of(key_values2, children2) == Self::entries_of(
                    key_values,
                    children,
                )
                &&& Self::height_of(children2) == Self::height_of(children)
                &&& forall|config: BTreeConfig| #[trigger]
                    Self::sized_but(children, but, config) && left.fits(config) && left.balanced(
                        config,
                    ) && right.fits(config) && right.balanced(config) ==> Self::balanced_of(
                        children2,
                        config,
                    )
            }),
    {
        let children2 = children.update(idx, left).update(idx + 1, right);
        let front = run(Self::parts_of(children), key_values, 0, idx);
        let back = after(Self::parts_of(children), key_values, idx + 1);
        Self::lemma_pair(key_values, children, idx);
        Self::lemma_pair_replaced(key_values, children, idx, left, mid, right);
        assert(front + left.entries() + seq![mid] + right.entries() + back =~= front + (
        left.entries() + seq![mid] + right.entries()) + back);
        assert(front + children[idx].entries() + seq![key_values[idx]] + children[idx
            + 1].entries() + back =~= front + (children[idx].entries() + seq![key_values[idx]]
            + children[idx + 1].entries()) + back);
        assert(Self::entries_of(key_values.update(idx, mid), children2) == Self::entries_of(
            key_values,
            children,
        ));
        assert(children2[0].height() == children[0].height());
        assert forall|i: int| 0 <= i < children2.len() implies (#[trigger] children2[i]).wf()
            && children2[i].height() == children2[0].height() by {
            if i != idx && i != idx + 1 {
                assert(children2[i] == children[i]);
            }
        }
        assert forall|config: BTreeConfig| #[trigger]
            Self::sized_but(children, but, config) && left.fits(config) && left.balanced(config)
                && right.fits(config) && right.balanced(config) implies Self::balanced_of(
            children2,
            config,
        ) by {
            assert forall|i: int| 0 <= i < children2.len() implies (#[trigger] children2[i]).fits(
                config,
            ) && children2[i].balanced(config) by {
                if i != idx && i != idx + 1 {
                    assert(children2[i] == children[i]);
                }
            }
        }
    }

    /// One new child in the place of the children `idx` and `idx + 1` and
    /// their entry leaves a search tree with the same map, where it holds
    /// their entries in the same order.
    pub proof fn lemma_pair_joined(
        key_values: Seq<(K, V)>,
        children: Seq<Arc<Node<K, V>>>,
        but: int,
        idx: int,
        merged: Arc<Node<K, V>>,
    )
        requires
            Self::settled_but(key_values, children, but),
            0 <= idx < key_values.len(),
            but == idx || but == idx + 1,
            merged.wf(),
            merged.height() == children[0].height(),
            merged.entries() == children[idx].entries() + seq![key_values[idx]] + children[idx
                + 1].entries(),
        ensures
            ({
                let key_values2 = key_values.remove(idx);
                let children2 = children.update(idx, merged).remove(idx + 1);
                &&& Self::shape(key_values2, children2)
                &&& Self::entries_of(key_values2, children2) == Self::entries_of(
                    key_values,
                    children,
                )
                &&& Self::height_of(children2) == Self::height_of(children)
                &&& forall|config: BTreeConfig| #[trigger]
                    Self::sized_but(children, but, config) && merged.fits(config)
                        && merged.balanced(config) ==> Self::balanced_of(children2, config)
            }),
    {
        let children2 = children.update(idx, merged).remove(idx + 1);
        let front = run(Self::parts_of(children), key_values, 0, idx);
        let back = after(Self::parts_of(children), key_values, idx + 1);
        Self::lemma_pair(key_values, children, idx);
        Self::lemma_pair_merged(key_values, children, idx, merged);
        assert(front + children[idx].entries() + seq![key_values[idx]] + children[idx
            + 1].entries() + back =~= front + (children[idx].entries() + seq![key_values[idx]]
            + children[idx + 1].entries()) + back);
        assert(Self::entries_of(key_values.remove(idx), children2) == Self::entries_of(
            key_values,
            children,
        ));
        assert(children2[0].height() == children[0].height());
        assert forall|i: int| 0 <= i < children2.len() implies (#[trigger] children2[i]).wf()
            && children2[i].height() == children2[0].height() by {
            if i < idx {
                assert(children2[i] == children[i]);
            } else if i > idx {
                assert(children2[i] == children[i + 1]);
            }
        }
        assert forall|config: BTreeConfig| #[trigger]
            Self::sized_but(children, but, config) && merged.fits(config) && merged.balanced(
                config,
            ) implies Self::balanced_of(children2, config) by {
            assert forall|i: int| 0 <= i < children2.len() implies (#[trigger] children2[i]).fits(
                config,
            ) && children2[i].balanced(config) by {
                if i < idx {
                    assert(children2[i] == children[i]);
                } else if i > idx {
                    assert(children2[i] == children[i + 1]);
                }
            }
        }
    }

    /// Two sibling nodes and the entry between them, taken together and cut
    /// again at the entry `s` of the whole, give two search trees of the
    /// siblings' height that hold the same entries in the same order.
    pub proof fn lemma_recut(left: &Self, mid: (K, V), right: &Self, s: int)
        requires
            left.inv(),
            right.inv(),
            left.height() == right.height(),
            keys_sorted(left.entries() + seq![mid] + right.entries()),
            0 <= s < left.key_values.len() + 1 + right.key_values.len(),
        ensures
            ({
                let jk = left.key_values@ + seq![mid] + right.key_values@;
                let jc = left.children@ + right.children@;
                let lk = jk.subrange(0, s);
                let lc = Self::left_children(jc, s);
                let rk = jk.subrange(s + 1, jk.len() as int);
                let rc = Self::right_children(jc, s);
                &&& Self::shape(lk, lc)
                &&& Self::shape(rk, rc)
                &&& Self::entries_of(lk, lc) + seq![jk[s]] + Self::entries_of(rk, rc)
                    == left.entries() + seq![mid] + right.entries()
                &&& Self::height_of(lc) == left.height()
                &&& Self::height_of(rc) == left.height()
                &&& 0 <= Self::total_count(lc, lc.len() as int)
                &&& 0 <= Self::total_count(rc, rc.len() as int)
                &&& lk.len() + Self::total_count(lc, lc.len() as int) + 1 + rk.len()
                    + Self::total_count(rc, rc.len() as int) == left.count + 1 + right.count
                &&& Self::entries_of(lk, lc).len() == lk.len() + Self::total_count(
                    lc,
                    lc.len() as int,
                )
                &&& Self::entries_of(rk, rc).len() == rk.len() + Self::total_count(
                    rc,
                    rc.len() as int,
                )
                &&& forall|config: BTreeConfig| #[trigger]
                    left.balanced(config) && right.balanced(config) ==> Self::balanced_of(
                        lc,
                        config,
                    ) && Self::balanced_of(rc, config)
            }),
    {
        let jk = left.key_values@ + seq![mid] + right.key_values@;
        let jc = left.children@ + right.children@;
        Self::lemma_join(left.key_values@, left.children@, mid, right.key_values@, right.children@);
        Self::lemma_cut(jk, jc, s);
        left.lemma_count_invariant();
        right.lemma_count_invariant();
        let lk = jk.subrange(0, s);
        let lc = Self::left_children(jc, s);
        let rk = jk.subrange(s + 1, jk.len() as int);
        let rc = Self::right_children(jc, s);
        Self::lemma_entries_len(lk, lc);
        Self::lemma_entries_len(rk, rc);
        assert forall|config: BTreeConfig| #[trigger]
            left.balanced(config) && right.balanced(config) implies Self::balanced_of(lc, config)
            && Self::balanced_of(rc, config) by {
            assert(Self::balanced_of(left.children@, config));
            assert(Self::balanced_of(right.children@, config));
            assert(Self::balanced_of(jc, config));
        }
    }
    /// Two sibling nodes and the entry between them, taken together, give a
    /// search tree of the siblings' height that holds the same entries in the
    /// same order.
    pub proof fn lemma_rejoin(left: &Self, mid: (K, V), right: &Self)
        requires
            left.inv(),
            right.inv(),
            left.height() == right.height(),
            keys_sorted(left.entries() + seq![mid] + right.entries()),
        ensures
            ({
                let jk = left.key_values@ + seq![mid] + right.key_values@;
                let jc = left.children@ + right.children@;
                &&& Self::shape(jk, jc)
                &&& Self::entries_of(jk, jc) == left.entries() + seq![mid] + right.entries()
                &&& Self::height_of(jc) == left.height()
                &&& jk.len() + Self::total_count(jc, jc.len() as int) == left.count + 1
                    + right.count
                &&& Self::entries_of(jk, jc).len() == jk.len() + Self::total_count(
                    jc,
                    jc.len() as int,
                )
                &&& forall|config: BTreeConfig| #[trigger]
                    left.balanced(config) && right.balanced(config) ==> Self::balanced_of(
                        jc,
                        config,
                    )
            }),
    {
        let jk = left.key_values@ + seq![mid] + right.key_values@;
        let jc = left.children@ + right.children@;
        Self::lemma_join(left.key_values@, left.children@, mid, right.key_values@, right.children@);
        left.lemma_count_invariant();
        right.lemma_count_invariant();
        Self::lemma_entries_len(jk, jc);
        assert forall|config: BTreeConfig| #[trigger]
            left.balanced(config) && right.balanced(config) implies Self::balanced_of(
            jc,
            config,
        ) by {
            assert(Self::balanced_of(left.children@, config));
            assert(Self::balanced_of(right.children@, config));
        }
    }
    /// What replacing child `idx` by `child` does to the sizes: the other
    /// children stay as they are.
    pub proof fn lemma_sized_but(
        children: Seq<Arc<Node<K, V>>>,
        idx: int,
        child: Arc<Node<K, V>>,
        config: BTreeConfig,
    )
        requires
            0 <= idx < children.len(),
            Self::balanced_of(children, config),
            child.balanced(config),
            config.spec_node_min_key_value() <= child.key_values.len() + 1,
            child.key_values.len() <= config.node_limit(),
        ensures
            Self::sized_but(children.update(idx, child), idx, config),
    {
        let children2 = children.update(idx, child);
        assert forall|i: int| 0 <= i < children2.len() implies (#[trigger] children2[i]).balanced(
            config,
        ) && (i != idx ==> children2[i].fits(config)) by {
            if i != idx {
                assert(children2[i] == children[i]);
            }
        }
    }

    /// Taking the last entry out of the last child takes the last entry out
    /// of the map.
    pub proof fn lemma_last_child_popped(
        key_values: Seq<(K, V)>,
        children: Seq<Arc<Node<K, V>>>,
        child: Arc<Node<K, V>>,
    )
        requires
            Self::shape(key_values, children),
            children.len() > 0,
            key_values.len() >= 1,
            child.inv(),
            child.height() == children.last().height(),
            children.last().entries().len() >= 1,
            child.entries() == children.last().entries().drop_last(),
        ensures
            ({
                let n = children.len() - 1;
                let whole = Self::entries_of(key_values, children);
                let children2 = children.update(n, child);
                &&& whole.len() >= 1
                &&& whole.last() == children.last().entries().last()
                &&& Self::entries_of(key_values, children2) == whole.drop_last()
                &&& Self::settled_but(key_values, children2, n)
                &&& Self::height_of(children2) == Self::height_of(children)
            }),
    {
        let n = children.len() - 1;
        let whole = Self::entries_of(key_values, children);
        let children2 = children.update(n, child);
        let parts = Self::parts_of(children);
        Self::lemma_child_replaced(key_values, children, n, child);
        crate::layout::lemma_flatten_at(parts, key_values, n);
        let front = run(parts, key_values, 0, n);
        assert(after(parts, key_values, n) =~= Seq::<(K, V)>::empty());
        assert(whole =~= front + children[n].entries());
        assert(Self::entries_of(key_values, children2) =~= whole.drop_last());
        assert(whole =~= whole.drop_last() + seq![whole.last()]);
        lemma_sorted_pieces(whole.drop_last(), seq![whole.last()]);
        assert(children2[0].height() == children[0].height());
        assert forall|i: int| 0 <= i < children2.len() implies (#[trigger] children2[i]).height()
            == children2[0].height() && (i != n ==> children2[i].wf()) by {
            if i != n {
                assert(children2[i] == children[i]);
            }
        }
    }

    /// Moving the last entry of child `idx` into the place of the entry
    /// `idx` takes the key of that entry out of the map.
    pub proof fn lemma_separator_replaced(
        key_values: Seq<(K, V)>,
        children: Seq<Arc<Node<K, V>>>,
        idx: int,
        child: Arc<Node<K, V>>,
    )
        requires
            total_order::<K>(),
            Self::shape(key_values, children),
            children.len() > 0,
            0 <= idx < key_values.len(),
            child.inv(),
            child.height() == children[idx].height(),
            children[idx].entries().len() >= 1,
            child.entries() == children[idx].entries().drop_last(),
        ensures
            ({
                let whole = Self::entries_of(key_values, children);
                let key_values2 = key_values.update(idx, children[idx].entries().last());
                let children2 = children.update(idx, child);
                &&& find(whole, key_values[idx].0) == Some(key_values[idx])
                &&& Self::entries_of(key_values2, children2) == without(whole, key_values[idx].0)
                &&& whole.len() >= 1
                &&& without(whole, key_values[idx].0).len() == whole.len() - 1
                &&& Self::settled_but(key_values2, children2, idx)
                &&& Self::height_of(children2) == Self::height_of(children)
            }),
    {
        let whole = Self::entries_of(key_values, children);
        let moved = children[idx].entries().last();
        let key_values2 = key_values.update(idx, moved);
        let children2 = children.update(idx, child);
        let parts = Self::parts_of(children);
        let front = run(parts, key_values, 0, idx);
        let back = after(parts, key_values, idx + 1);
        lemma_positions(parts, key_values, idx);
        lemma_rank_of_member(whole, sep_index(parts, key_values, idx));
        lemma_without(whole, key_values[idx].0);
        Self::lemma_pair(key_values, children, idx);
        Self::lemma_pair_replaced(key_values, children, idx, child, moved, children[idx + 1]);
        assert(children.update(idx, child).update(idx + 1, children[idx + 1]) =~= children2);
        assert(child.entries() + seq![moved] =~= children[idx].entries());
        assert(Self::entries_of(key_values2, children2) =~= without(whole, key_values[idx].0));
        assert(children2[0].height() == children[0].height());
        assert forall|i: int| 0 <= i < children2.len() implies (#[trigger] children2[i]).height()
            == children2[0].height() && (i != idx ==> children2[i].wf()) by {
            if i != idx {
                assert(children2[i] == children[i]);
            }
        }
    }

    /// Taking a key out of the child it belongs to takes it out of the map.
    pub proof fn lemma_child_deleted(
        key_values: Seq<(K, V)>,
        children: Seq<Arc<Node<K, V>>>,
        key: K,
        child: Arc<Node<K, V>>,
    )
        requires
            total_order::<K>(),
            Self::shape(key_values, children),
            children.len() > 0,
            key_values.len() >= 1,
            !contains_key(key_values, key),
            child.inv(),
            child.height() == children[rank(key_values, key)].height(),
            child.entries() == without(children[rank(key_values, key)].entries(), key),
        ensures
            ({
                let idx = rank(key_values, key);
                let whole = Self::entries_of(key_values, children);
                let children2 = children.update(idx, child);
                &&& 0 <= idx < children.len()
                &&& find(whole, key) == find(children[idx].entries(), key)
                &&& contains_key(whole, key) == contains_key(children[idx].entries(), key)
                &&& Self::entries_of(key_values, children2) == without(whole, key)
                &&& without(whole, key).len() == if contains_key(whole, key) {
                    whole.len() - 1
                } else {
                    whole.len() as int
                }
                &&& Self::settled_but(key_values, children2, idx)
                &&& child.wf() ==> Self::shape(key_values, children2)
                &&& Self::height_of(children2) == Self::height_of(children)
            }),
    {
        let idx = rank(key_values, key);
        let whole = Self::entries_of(key_values, children);
        let children2 = children.update(idx, child);
        Self::lemma_descend_of(key_values, children, key);
        Self::lemma_child_replaced(key_values, children, idx, child);
        lemma_without(whole, key);
        assert(children2[0].height() == children[0].height());
        assert forall|i: int| 0 <= i < children2.len() implies (#[trigger] children2[i]).height()
            == children2[0].height() && (i != idx ==> children2[i].wf()) by {
            if i != idx {
                assert(children2[i] == children[i]);
            }
        }
    }
}

/// A copy of an entry.
fn clone_entry<K: Clone, V: Clone>(entry: &(K, V)) -> (res: (K, V))
    ensures
        faithful_clone::<K>() && faithful_clone::<V>() ==> res == *entry,
{
    let key = entry.0.clone();
    let value = entry.1.clone();
    assert(cloned::<K>(entry.0, key));
    assert(cloned::<V>(entry.1, value));
    (key, value)
}

impl<K: Ord + Clone, V: Clone> Node<K, V> {
    /// Merges the children `key_value_idx` and `key_value_idx + 1` and the
    /// entry between them into one new child.
    #[verifier::rlimit(60)]
    fn merge_children(&mut self, child_idx: usize, key_value_idx: usize, config: &BTreeConfig)
        requires
            lawful::<K, V>(),
            config.valid(),
            old(self).pending(child_idx as int, *config),
            key_value_idx < old(self).key_values.len(),
            child_idx == key_value_idx || child_idx == key_value_idx + 1,
            config.node_at_min_size(old(self).children@[key_value_idx as int].key_values.len()),
            config.node_at_min_size(
                old(self).children@[key_value_idx as int + 1].key_values.len(),
            ),
        ensures
            final(self).inv(),
            final(self).balanced(*config),
            final(self).entries() == old(self).entries(),
            final(self).height() == old(self).height(),
            final(self).count == old(self).count,
            final(self).key_values.len() == old(self).key_values.len() - 1,
            final(self).children.len() == final(self).key_values.len() + 1,
            old(self).merged_at(&*final(self), key_value_idx as int),
    {
        let ghost kvs = self.key_values@;
        let ghost cs = self.children@;
        let ghost idx = key_value_idx as int;
        let left_child = &self.children[key_value_idx];
        let right_child = &self.children[key_value_idx + 1];
        proof {
            config.lemma_sizes();
            Self::lemma_pair(kvs, cs, idx);
            assert(cs[idx].inv() && cs[idx + 1].inv());
            assert(cs[idx].height() == cs[idx + 1].height());
            assert(cs[idx].balanced(*config) && cs[idx + 1].balanced(*config));
            Self::lemma_rejoin(&**left_child, kvs[idx], &**right_child);
        }
        let mut new_child_key_values = clone_entries(
            &left_child.key_values,
            0,
            left_child.key_values.len(),
        );
        let mut right_key_values = clone_entries(
            &right_child.key_values,
            0,
            right_child.key_values.len(),
        );
        let mut new_children = clone_children(&left_child.children, 0, left_child.children.len());
        let mut right_children = clone_children(
            &right_child.children,
            0,
            right_child.children.len(),
        );
        new_children.append(&mut right_children);
        let separator = self.key_values.remove(key_value_idx);
        new_child_key_values.push(separator);
        new_child_key_values.append(&mut right_key_values);
        proof {
            assert(new_child_key_values@ =~= cs[idx].key_values@ + seq![kvs[idx]] + cs[idx
                + 1].key_values@);
            assert(new_children@ =~= cs[idx].children@ + cs[idx + 1].children@);
        }
        // use the new child in the place of the two
        let new_child = Self::new_with_key_values(new_child_key_values, new_children);
        let merged = Arc::new(new_child);
        proof {
            assert(merged.inv());
            assert(merged.fits(*config));
            assert(merged.balanced(*config));
            Self::lemma_pair_joined(kvs, cs, child_idx as int, idx, merged);
        }
        self.children[key_value_idx] = merged;
        self.children.remove(key_value_idx + 1);
    }

    /// Moves an entry from the right one of two siblings to the left one: the
    /// left gains the entry between them, and the first entry of the right
    /// takes its place.
    #[verifier::rlimit(60)]
    fn rotate_left(
        &mut self,
        child_idx: usize,
        key_value_idx: usize,
        child_is_leaf: bool,
        config: &BTreeConfig,
    )
        requires
            lawful::<K, V>(),
            config.valid(),
            old(self).pending(child_idx as int, *config),
            key_value_idx < old(self).key_values.len(),
            child_idx == key_value_idx || child_idx == key_value_idx + 1,
            child_is_leaf == (old(self).children@[child_idx as int].children@.len() == 0),
            config.node_under_size(old(self).children@[key_value_idx as int].key_values.len()),
            !config.node_at_min_size(
                old(self).children@[key_value_idx as int + 1].key_values.len(),
            ),
        ensures
            final(self).inv(),
            final(self).balanced(*config),
            final(self).entries() == old(self).entries(),
            final(self).height() == old(self).height(),
            final(self).count == old(self).count,
            final(self).key_values.len() == old(self).key_values.len(),
            final(self).children.len() == final(self).key_values.len() + 1,
            old(self).rotated_left_at(&*final(self), key_value_idx as int),
    {
        let ghost kvs = self.key_values@;
        let ghost cs = self.children@;
        let ghost idx = key_value_idx as int;
        let left_child = &self.children[key_value_idx];
        let right_child = &self.children[key_value_idx + 1];
        let ghost s = left_child.key_values.len() as int + 1;
        let ghost jk = left_child.key_values@ + seq![kvs[idx]] + right_child.key_values@;
        let ghost jc = left_child.children@ + right_child.children@;
        proof {
            config.lemma_sizes();
            Self::lemma_pair(kvs, cs, idx);
            assert(cs[idx].inv() && cs[idx + 1].inv());
            assert(cs[idx].height() == cs[idx + 1].height());
            assert(cs[child_idx as int].height() == cs[idx].height());
            assert(cs[idx].balanced(*config) && cs[idx + 1].balanced(*config));
            Self::lemma_recut(&**left_child, kvs[idx], &**right_child, s);
        }
        // borrow from the right sibling
        let mut new_left_key_values = clone_entries(
            &left_child.key_values,
            0,
            left_child.key_values.len(),
        );
        new_left_key_values.push(clone_entry(&self.key_values[key_value_idx]));
        let new_right_key_values = clone_entries(
            &right_child.key_values,
            1,
            right_child.key_values.len(),
        );

        let (new_left_children, new_right_children) = if !child_is_leaf {
            let mut new_left_children = clone_children(
                &left_child.children,
                0,
                left_child.children.len(),
            );
            let right_first_child = arc_clone(&right_child.children[0]);
            new_left_children.push(right_first_child);

            let new_right_children = clone_children(
                &right_child.children,
                1,
                right_child.children.len(),
            );

            (new_left_children, new_right_children)
        } else {
            (Vec::new(), Vec::new())
        };
        proof {
            assert(new_left_key_values@ =~= jk.subrange(0, s));
            assert(new_right_key_values@ =~= jk.subrange(s + 1, jk.len() as int));
            assert(new_left_children@ =~= Self::left_children(jc, s));
            assert(new_right_children@ =~= Self::right_children(jc, s));
        }
        let new_left_child = Self::new_with_key_values(new_left_key_values, new_left_children);

        let new_right_child = Self::new_with_key_values(new_right_key_values, new_right_children);

        let key_value = clone_entry(&right_child.key_values[0]);
        let new_left = Arc::new(new_left_child);
        let new_right = Arc::new(new_right_child);
        proof {
            assert(key_value == jk[s]);
            assert(new_left.wf() && new_right.wf());
            assert(new_left.fits(*config) && new_right.fits(*config));
            assert(new_left.balanced(*config) && new_right.balanced(*config));
            Self::lemma_pair_rebuilt(kvs, cs, child_idx as int, idx, new_left, key_value, new_right);
        }
        self.children[key_value_idx] = new_left;
        self.children[key_value_idx + 1] = new_right;
        self.key_values[key_value_idx] = key_value;
        proof {
            let left = cs[idx];
            let right = cs[idx + 1];
            assert(new_left.key_values@ =~= left.key_values@.push(kvs[idx]));
            assert(new_right.key_values@ =~= right.key_values@.drop_first());
            if left.children@.len() > 0 {
                assert(new_left.children@ =~= left.children@.push(right.children@[0]));
                assert(new_right.children@ =~= right.children@.drop_first());
            } else {
                assert(new_left.children@ =~= left.children@);
                assert(new_right.children@ =~= right.children@);
            }
        }
    }

    /// Moves an entry from the left one of two siblings to the right one: the
    /// last entry of the left takes the place of the entry between them,
    /// which becomes the first entry of the right.
    #[verifier::rlimit(60)]
    fn rotate_right(
        &mut self,
        child_idx: usize,
        key_value_idx: usize,
        child_is_leaf: bool,
        config: &BTreeConfig,
    )
        requires
            lawful::<K, V>(),
            config.valid(),
            old(self).pending(child_idx as int, *config),
            key_value_idx < old(self).key_values.len(),
            child_idx == key_value_idx || child_idx == key_value_idx + 1,
            child_is_leaf == (old(self).children@[child_idx as int].children@.len() == 0),
            !config.node_at_min_size(old(self).children@[key_value_idx as int].key_values.len()),
            config.node_under_size(
                old(self).children@[key_value_idx as int + 1].key_values.len(),
            ),
        ensures
            final(self).inv(),
            final(self).balanced(*config),
            final(self).entries() == old(self).entries(),
            final(self).height() == old(self).height(),
            final(self).count == old(self).count,
            final(self).key_values.len() == old(self).key_values.len(),
            final(self).children.len() == final(self).key_values.len() + 1,
            old(self).rotated_right_at(&*final(self), key_value_idx as int),
    {
        let ghost kvs = self.key_values@;
        let ghost cs = self.children@;
        let ghost idx = key_value_idx as int;
        let left_child = &self.children[key_value_idx];
        let right_child = &self.children[key_value_idx + 1];
        let ghost s = left_child.key_values.len() as int - 1;
        let ghost jk = left_child.key_values@ + seq![kvs[idx]] + right_child.key_values@;
        let ghost jc = left_child.children@ + right_child.children@;
        proof {
            config.lemma_sizes();
            Self::lemma_pair(kvs, cs, idx);
            assert(cs[idx].inv() && cs[idx + 1].inv());
            assert(cs[idx].height() == cs[idx + 1].height());
            assert(cs[child_idx as int].height() == cs[idx].height());
            assert(cs[idx].balanced(*config) && cs[idx + 1].balanced(*config));
            Self::lemma_recut(&**left_child, kvs[idx], &**right_child, s);
        }
        // borrow from the left sibling
        let mut new_left_key_values = clone_entries(
            &left_child.key_values,
            0,
            left_child.key_values.len(),
        );
        let new_root_key_value = new_left_key_values.pop().unwrap();
        let mut prev_key_value = new_root_key_value;
        std::mem::swap(&mut self.key_values[key_value_idx], &mut prev_key_value);

        let mut new_right_key_values: Vec<(K, V)> = Vec::new();
        new_right_key_values.push(prev_key_value);
        let mut right_key_values = clone_entries(
            &right_child.key_values,
            0,
            right_child.key_values.len(),
        );
        new_right_key_values.append(&mut right_key_values);

        let (new_left_children, new_right_children) = if !child_is_leaf {
            let new_left_children = clone_children(
                &left_child.children,
                0,
                left_child.children.len() - 1,
            );

            let mut new_right_children: Vec<Arc<Self>> = Vec::new();
            new_right_children.push(
                arc_clone(&left_child.children[left_child.children.len() - 1]),
            );
            let mut right_children = clone_children(
                &right_child.children,
                0,
                right_child.children.len(),
            );
            new_right_children.append(&mut right_children);
            (new_left_children, new_right_children)
        } else {
            (Vec::new(), Vec::new())
        };
        proof {
            assert(new_left_key_values@ =~= jk.subrange(0, s));
            assert(new_right_key_values@ =~= jk.subrange(s + 1, jk.len() as int));
            assert(new_left_children@ =~= Self::left_children(jc, s));
            assert(new_right_children@ =~= Self::right_children(jc, s));
        }
        let new_left = Arc::new(Self::new_with_key_values(new_left_key_values, new_left_children));
        let new_right = Arc::new(
            Self::new_with_key_values(new_right_key_values, new_right_children),
        );
        proof {
            assert(self.key_values@ == kvs.update(idx, jk[s]));
            assert(new_left.wf() && new_right.wf());
            assert(new_left.fits(*config) && new_right.fits(*config));
            assert(new_left.balanced(*config) && new_right.balanced(*config));
            Self::lemma_pair_rebuilt(kvs, cs, child_idx as int, idx, new_left, jk[s], new_right);
        }
        self.children[key_value_idx] = new_left;
        self.children[key_value_idx + 1] = new_right;
        proof {
            let left = cs[idx];
            let right = cs[idx + 1];
            assert(new_left.key_values@ =~= left.key_values@.drop_last());
            assert(new_right.key_values@ =~= seq![kvs[idx]] + right.key_values@);
            if left.children@.len() > 0 {
                assert(new_left.children@ =~= left.children@.drop_last());
                assert(new_right.children@ =~= seq![left.children@.last()] + right.children@);
            } else {
                assert(new_left.children@ =~= left.children@);
                assert(new_right.children@ =~= right.children@);
            }
        }
    }

    /// Restores the sizes of the children after a removal below the child
    /// `child_idx`.
    ///
    /// The child and the sibling behind it are looked at, or for the last
    /// child the sibling before it. Where neither has an entry to spare they
    /// are merged; else, where one has too few, it gets one from the other.
    /// The map of the node stays as it is.
    pub fn rebalance(&mut self, child_idx: usize, config: &BTreeConfig)
        requires
            lawful::<K, V>(),
            config.valid(),
            old(self).pending(child_idx as int, *config),
        ensures
            final(self).inv(),
            final(self).balanced(*config),
            final(self).entries() == old(self).entries(),
            final(self).height() == old(self).height(),
            final(self).count == old(self).count,
            old(self).key_values.len() - 1 <= final(self).key_values.len()
                <= old(self).key_values.len(),
            final(self).children.len() == final(self).key_values.len() + 1,
            old(self).rebalanced(&*final(self), child_idx as int, *config),
    {
        let child_is_leaf = self.children[child_idx].is_leaf();
        let last_child_idx = self.children.len() - 1;

        let key_value_idx = if child_idx == last_child_idx {
            child_idx - 1
        } else {
            child_idx
        };
        let left_len = self.children[key_value_idx].key_values.len();
        let right_len = self.children[key_value_idx + 1].key_values.len();

        if config.node_at_min_size(left_len) && config.node_at_min_size(right_len) {
            self.merge_children(child_idx, key_value_idx, config);
        } else if config.node_under_size(left_len) {
            self.rotate_left(child_idx, key_value_idx, child_is_leaf, config);
        } else if config.node_under_size(right_len) {
            self.rotate_right(child_idx, key_value_idx, child_is_leaf, config);
        } else {
            proof {
                let ghost cs = self.children@;
                assert forall|i: int| 0 <= i < cs.len() implies (#[trigger] cs[i]).wf() && cs[i].fits(
                    *config,
                ) && cs[i].balanced(*config) by {
                    if i == child_idx {
                        config.lemma_sizes();
                    }
                }
            }
        }
    }

    /// Takes the entry with the largest key out of the map of this node and
    /// hands it back.
    pub fn take_right_most(&mut self, config: &BTreeConfig) -> (res: (K, V))
        requires
            lawful::<K, V>(),
            config.valid(),
            old(self).wf(),
            old(self).balanced(*config),
            old(self).key_values.len() >= 1,
        ensures
            old(self).entries().len() >= 1,
            res == old(self).entries().last(),
            final(self).entries() == old(self).entries().drop_last(),
            final(self).inv(),
            final(self).balanced(*config),
            final(self).height() == old(self).height(),
            old(self).key_values.len() - 1 <= final(self).key_values.len()
                <= old(self).key_values.len(),
        decreases old(self).height(),
    {
        let ghost pre = *self;
        if self.is_leaf() {
            // the parent sees to the size of the leaf
            self.count -= 1;
            let entry = self.key_values.pop().unwrap();
            proof {
                let whole = pre.entries();
                assert(whole =~= whole.drop_last() + seq![whole.last()]);
                lemma_sorted_pieces(whole.drop_last(), seq![whole.last()]);
                assert(self.key_values@ =~= whole.drop_last());
            }
            return entry;
        }
        let child_idx = self.children.len() - 1;
        proof {
            config.lemma_sizes();
            assert(Self::balanced_of(pre.children@, *config));
            assert(pre.children@[child_idx as int].wf());
            assert(pre.children@[child_idx as int].fits(*config));
            assert(pre.children@[child_idx as int].balanced(*config));
            assert(pre.children@[child_idx as int].height() + 1 == pre.height());
        }
        let right_most_child = Self::child_mut(&mut self.children, child_idx);
        proof {
            Self::lemma_same_node(&*pre.children@[child_idx as int], &*right_most_child);
            assert(right_most_child.balanced(*config));
        }
        let right_most = right_most_child.take_right_most(config);
        proof {
            Self::lemma_last_child_popped(
                pre.key_values@,
                pre.children@,
                self.children@[child_idx as int],
            );
            Self::lemma_sized_but(
                pre.children@,
                child_idx as int,
                self.children@[child_idx as int],
                *config,
            );
        }
        self.count -= 1;
        self.rebalance(child_idx, config);

        right_most
    }

    /// Takes `key` out of the map of this node and hands back its entry, if
    /// the map holds the key.
    ///
    /// A key found among the entries of a node with children is replaced
    /// there by the largest key below the child before it. The node may be
    /// left with one entry less than before; to see to that is the caller's.
    pub fn delete_by_key(&mut self, key: &K, config: &BTreeConfig) -> (res: Option<(K, V)>)
        requires
            lawful::<K, V>(),
            config.valid(),
            old(self).wf(),
            old(self).balanced(*config),
        ensures
            res == find(old(self).entries(), *key),
            final(self).entries() == without(old(self).entries(), *key),
            final(self).inv(),
            final(self).balanced(*config),
            final(self).height() == old(self).height(),
            old(self).key_values.len() - 1 <= final(self).key_values.len()
                <= old(self).key_values.len(),
            res is None ==> final(self).key_values.len() == old(self).key_values.len(),
        decreases old(self).height(),
    {
        let ghost pre = *self;
        proof {
            pre.lemma_separators_sorted();
            config.lemma_sizes();
        }
        if self.is_leaf() {
            match search(&self.key_values, key) {
                Ok(idx) => {
                    proof {
                        lemma_without(pre.entries(), *key);
                    }
                    self.count -= 1;
                    Some(self.key_values.remove(idx))
                },
                Err(_) => None,
            }
        } else {
            match search(&self.key_values, key) {
                Ok(idx) => {
                    proof {
                        assert(Self::balanced_of(pre.children@, *config));
                        assert(pre.children@[idx as int].wf());
                        assert(pre.children@[idx as int].fits(*config));
                        assert(pre.children@[idx as int].balanced(*config));
                        assert(pre.children@[idx as int].height() + 1 == pre.height());
                    }
                    // the largest key before the one found takes its place
                    let child = Self::child_mut(&mut self.children, idx);
                    proof {
                        Self::lemma_same_node(&*pre.children@[idx as int], &*child);
                        assert(child.balanced(*config));
                    }
                    let mut prev_key_value = child.take_right_most(config);
                    proof {
                        Self::lemma_separator_replaced(
                            pre.key_values@,
                            pre.children@,
                            idx as int,
                            self.children@[idx as int],
                        );
                        Self::lemma_sized_but(
                            pre.children@,
                            idx as int,
                            self.children@[idx as int],
                            *config,
                        );
                    }
                    std::mem::swap(&mut self.key_values[idx], &mut prev_key_value);
                    self.count -= 1;

                    self.rebalance(idx, config);

                    Some(prev_key_value)
                },
                Err(idx) => {
                    proof {
                        pre.lemma_descend(*key);
                        assert(Self::balanced_of(pre.children@, *config));
                        assert(pre.children@[idx as int].fits(*config));
                        assert(pre.children@[idx as int].balanced(*config));
                        assert(pre.children@[idx as int].height() + 1 == pre.height());
                    }
                    let child = Self::child_mut(&mut self.children, idx);
                    proof {
                        Self::lemma_same_node(&*pre.children@[idx as int], &*child);
                        assert(child.balanced(*config));
                    }
                    let deleted = child.delete_by_key(key, config);
                    proof {
                        Self::lemma_child_deleted(
                            pre.key_values@,
                            pre.children@,
                            *key,
                            self.children@[idx as int],
                        );
                        Self::lemma_sized_but(
                            pre.children@,
                            idx as int,
                            self.children@[idx as int],
                            *config,
                        );
                    }
                    match deleted {
                        None => {
                            proof {
                                assert(self.children@[idx as int].wf());
                                assert(Self::balanced_of(self.children@, *config));
                            }
                            None
                        },
                        Some(deleted_k_v) => {
                            self.count -= 1;
                            self.rebalance(idx, config);
                            Some(deleted_k_v)
                        },
                    }
                },
            }
        }
    }
}

} // verus!

//! The node of the tree: its entries, its children, and the number of entries
//! below it; what makes a node well formed; and the lookups.

use crate::config::BTreeConfig;
use crate::entries::{
    contains_key, find, keys_sorted, lemma_enclosed, lemma_rank, lemma_rank_is,
    lemma_rank_of_member, lemma_sorted_pieces, lookup, rank, upsert, without,
};
use crate::keys::{
    compare, faithful_clone, lemma_lt_transitive, lemma_trichotomy, lt, total_order,
    KeyOrder,
};
use crate::layout::{
    after, child_offset, flatten, lemma_flatten_at, lemma_flatten_cut, lemma_flatten_len,
    lemma_flatten_merge, lemma_flatten_rewrite, lemma_flatten_split, lemma_flatten_update,
    lemma_positions, run, sep_index, total_len,
};
use crate::sharing::{arc_clone, arc_make_mut};
use std::sync::Arc;
use vstd::prelude::*;

verus! {

/// A node of the tree. The root, the inner nodes and the leaves are all of
/// this type; a leaf is a node without children.
#[derive(Debug)]
pub struct Node<K, V> {
    /// The entries of the node, in ascending key order.
    pub key_values: Vec<(K, V)>,
    /// The children: none in a leaf, else one more than there are entries.
    pub children: Vec<Arc<Node<K, V>>>,
    /// The number of entries in the node and below it.
    pub count: usize,
}

impl<K: Ord, V> Node<K, V> {
    /// The entries of each of `children`, in order.
    pub open spec fn parts_of(children: Seq<Arc<Node<K, V>>>) -> Seq<Seq<(K, V)>>
        decreases children, 0nat,
    {
        Seq::new(
            children.len(),
            |i: int|
                if 0 <= i < children.len() {
                    children[i].entries()
                } else {
                    Seq::empty()
                },
        )
    }

    /// The sum of the `count`s of the first `n` of `children`.
    pub open spec fn total_count(children: Seq<Arc<Node<K, V>>>, n: int) -> int
        decreases n,
    {
        if n <= 0 {
            0
        } else {
            Self::total_count(children, n - 1) + children[n - 1].count
        }
    }

    /// The entries of a node with the entries `key_values` and the children
    /// `children`, in order.
    pub open spec fn entries_of(key_values: Seq<(K, V)>, children: Seq<Arc<Node<K, V>>>) -> Seq<
        (K, V),
    >
        decreases children, 1nat,
    {
        if children.len() == 0 {
            key_values
        } else {
            flatten(Self::parts_of(children), key_values)
        }
    }

    /// The number of levels below a node with the children `children`.
    pub open spec fn height_of(children: Seq<Arc<Node<K, V>>>) -> nat
        decreases children,
    {
        if children.len() == 0 {
            0
        } else {
            1 + children[0].height()
        }
    }

    /// `key_values` and `children` make a search tree: there are no children,
    /// or one more than entries; the children are well formed and all of one
    /// height; and the keys of all entries ascend.
    pub open spec fn shape(key_values: Seq<(K, V)>, children: Seq<Arc<Node<K, V>>>) -> bool
        decreases children, 0nat,
    {
        &&& children.len() == 0 || children.len() == key_values.len() + 1
        &&& forall|i: int| 0 <= i < children.len() ==> (#[trigger] children[i]).wf()
        &&& forall|i: int|
            0 <= i < children.len() ==> (#[trigger] children[i]).height() == children[0].height()
        &&& keys_sorted(Self::entries_of(key_values, children))
    }

    /// Every node among and below `children` has as many entries as a node
    /// other than the root may have.
    pub open spec fn balanced_of(children: Seq<Arc<Node<K, V>>>, config: BTreeConfig) -> bool
        decreases children,
    {
        forall|i: int|
            0 <= i < children.len() ==> (#[trigger] children[i]).fits(config)
                && children[i].balanced(config)
    }

    /// The entries of each child, in order.
    pub open spec fn parts(&self) -> Seq<Seq<(K, V)>> {
        Self::parts_of(self.children@)
    }

    /// All entries in and below the node, in order: the view of the node as
    /// a map.
    pub open spec fn entries(&self) -> Seq<(K, V)>
        decreases self,
    {
        Self::entries_of(self.key_values@, self.children@)
    }

    /// The number of levels below the node.
    pub open spec fn height(&self) -> nat
        decreases self,
    {
        Self::height_of(self.children@)
    }

    /// The node is a search tree and `count` is the number of entries in and
    /// below it.
    pub open spec fn inv(&self) -> bool
        decreases self, 0nat,
    {
        &&& Self::shape(self.key_values@, self.children@)
        &&& self.count == self.entries().len()
    }

    /// The node is well formed: `inv` holds, and if it has children it has
    /// an entry to part them.
    pub open spec fn wf(&self) -> bool
        decreases self, 1nat,
    {
        &&& self.inv()
        &&& self.children.len() == 0 || self.key_values.len() >= 1
    }

    /// The node has as many entries as a node other than the root may have.
    pub open spec fn fits(&self, config: BTreeConfig) -> bool {
        config.spec_node_min_key_value() <= self.key_values.len() <= config.node_limit()
    }

    /// Every node below this one has as many entries as it may have.
    pub open spec fn balanced(&self, config: BTreeConfig) -> bool
        decreases self,
    {
        Self::balanced_of(self.children@, config)
    }

    /// The sum of the counts grows with the number of children counted.
    pub proof fn lemma_total_count_grows(children: Seq<Arc<Node<K, V>>>, n: int, m: int)
        requires
            0 <= n <= m,
        ensures
            0 <= Self::total_count(children, n) <= Self::total_count(children, m),
        decreases m,
    {
        if n < m {
            Self::lemma_total_count_grows(children, n, m - 1);
        } else if n > 0 {
            Self::lemma_total_count_grows(children, n - 1, n - 1);
        }
    }

    /// Every child of a balanced node has at least the minimum of entries
    /// and at most `node_limit()`, which for an even order is the maximum,
    /// and its own children are balanced in turn.
    pub proof fn lemma_size_invariant(&self, config: BTreeConfig, idx: int)
        requires
            config.valid(),
            self.balanced(config),
            0 <= idx < self.children@.len(),
        ensures
            config.spec_node_min_key_value() <= self.children@[idx].key_values.len()
                <= config.node_limit(),
            config.max_degree % 2 == 0 ==> self.children@[idx].key_values.len()
                <= config.spec_node_max_key_value(),
            self.children@[idx].key_values.len() <= config.spec_node_max_key_value() + 1,
            self.children@[idx].balanced(config),
    {
        config.lemma_sizes();
        assert(self.children@[idx].fits(config));
    }

    /// A well-formed node has at least as many entries as it has levels
    /// below it.
    pub proof fn lemma_height_bound(&self)
        requires
            self.wf(),
        ensures
            self.height() <= self.entries().len(),
            self.height() <= usize::MAX,
        decreases self,
    {
        if self.children@.len() > 0 {
            let first = self.children@[0];
            assert(first.wf());
            first.lemma_height_bound();
            lemma_positions(self.parts(), self.key_values@, 0);
        }
    }

    /// The children of the left half of a node cut at entry `s`.
    pub open spec fn left_children(children: Seq<Arc<Node<K, V>>>, s: int) -> Seq<
        Arc<Node<K, V>>,
    > {
        if children.len() == 0 {
            children
        } else {
            children.subrange(0, s + 1)
        }
    }

    /// The children of the right half of a node cut at entry `s`.
    pub open spec fn right_children(children: Seq<Arc<Node<K, V>>>, s: int) -> Seq<
        Arc<Node<K, V>>,
    > {
        if children.len() == 0 {
            children
        } else {
            children.subrange(s + 1, children.len() as int)
        }
    }

    /// The counts of two stretches of children add up.
    pub proof fn lemma_total_count_concat(a: Seq<Arc<Node<K, V>>>, b: Seq<Arc<Node<K, V>>>, n: int)
        requires
            0 <= n <= b.len(),
        ensures
            Self::total_count(a + b, a.len() + n) == Self::total_count(a, a.len() as int)
                + Self::total_count(b, n),
        decreases a.len() + n,
    {
        if n > 0 {
            Self::lemma_total_count_concat(a, b, n - 1);
            assert((a + b)[a.len() + n - 1] == b[n - 1]);
        } else if a.len() > 0 {
            Self::lemma_total_count_same(a + b, a, a.len() as int);
        }
    }

    /// The sum of the first `n` counts depends on the first `n` children only.
    pub proof fn lemma_total_count_same(a: Seq<Arc<Node<K, V>>>, b: Seq<Arc<Node<K, V>>>, n: int)
        requires
            0 <= n <= a.len(),
            n <= b.len(),
            forall|i: int| 0 <= i < n ==> a[i] == b[i],
        ensures
            Self::total_count(a, n) == Self::total_count(b, n),
        decreases n,
    {
        if n > 0 {
            Self::lemma_total_count_same(a, b, n - 1);
        }
    }

    /// The number of entries of a node is the number of its own entries and
    /// the counts of its children.
    pub proof fn lemma_entries_len(key_values: Seq<(K, V)>, children: Seq<Arc<Node<K, V>>>)
        requires
            children.len() == 0 || children.len() == key_values.len() + 1,
            forall|i: int| 0 <= i < children.len() ==> (#[trigger] children[i]).inv(),
        ensures
            Self::entries_of(key_values, children).len() == key_values.len() + Self::total_count(
                children,
                children.len() as int,
            ),
    {
        if children.len() > 0 {
            lemma_flatten_len(Self::parts_of(children), key_values);
            assert forall|i: int| 0 <= i < children.len() implies (#[trigger] children[i]).count
                == children[i].entries().len() by {
                assert(children[i].inv());
            }
            Self::lemma_total_count(children, children.len() as int);
        }
    }

    /// The entries of a node after child `idx` was replaced.
    pub proof fn lemma_child_replaced(
        key_values: Seq<(K, V)>,
        children: Seq<Arc<Node<K, V>>>,
        idx: int,
        child: Arc<Node<K, V>>,
    )
        requires
            children.len() == key_values.len() + 1,
            0 <= idx < children.len(),
        ensures
            Self::entries_of(key_values, children.update(idx, child)) == run(
                Self::parts_of(children),
                key_values,
                0,
                idx,
            ) + child.entries() + after(Self::parts_of(children), key_values, idx),
    {
        let parts = Self::parts_of(children);
        assert(Self::parts_of(children.update(idx, child)) =~= parts.update(idx, child.entries()));
        lemma_flatten_update(parts, key_values, idx, child.entries());
    }

    /// The entries of a node after child `idx` was replaced by two children
    /// and an entry between them.
    pub proof fn lemma_child_split(
        key_values: Seq<(K, V)>,
        children: Seq<Arc<Node<K, V>>>,
        idx: int,
        left: Arc<Node<K, V>>,
        mid: (K, V),
        right: Arc<Node<K, V>>,
    )
        requires
            children.len() == key_values.len() + 1,
            0 <= idx < children.len(),
        ensures
            Self::entries_of(
                key_values.insert(idx, mid),
                children.update(idx, left).insert(idx + 1, right),
            ) == run(Self::parts_of(children), key_values, 0, idx) + (left.entries() + seq![mid]
                + right.entries()) + after(Self::parts_of(children), key_values, idx),
    {
        let parts = Self::parts_of(children);
        assert(Self::parts_of(children.update(idx, left).insert(idx + 1, right)) =~= parts.update(
            idx,
            left.entries(),
        ).insert(idx + 1, right.entries()));
        lemma_flatten_split(parts, key_values, idx, left.entries(), mid, right.entries());
    }

    /// The entries of a node after the children `idx` and `idx + 1` and the
    /// entry between them were replaced.
    pub proof fn lemma_pair_replaced(
        key_values: Seq<(K, V)>,
        children: Seq<Arc<Node<K, V>>>,
        idx: int,
        left: Arc<Node<K, V>>,
        mid: (K, V),
        right: Arc<Node<K, V>>,
    )
        requires
            children.len() == key_values.len() + 1,
            0 <= idx < key_values.len(),
        ensures
            Self::entries_of(
                key_values.update(idx, mid),
                children.update(idx, left).update(idx + 1, right),
            ) == run(Self::parts_of(children), key_values, 0, idx) + left.entries() + seq![mid]
                + right.entries() + after(Self::parts_of(children), key_values, idx + 1),
    {
        let parts = Self::parts_of(children);
        assert(Self::parts_of(children.update(idx, left).update(idx + 1, right)) =~= parts.update(
            idx,
            left.entries(),
        ).update(idx + 1, right.entries()));
        lemma_flatten_rewrite(parts, key_values, idx, left.entries(), mid, right.entries());
    }

    /// The entries of a node after the children `idx` and `idx + 1` and the
    /// entry between them were replaced by one child.
    pub proof fn lemma_pair_merged(
        key_values: Seq<(K, V)>,
        children: Seq<Arc<Node<K, V>>>,
        idx: int,
        merged: Arc<Node<K, V>>,
    )
        requires
            children.len() == key_values.len() + 1,
            0 <= idx < key_values.len(),
        ensures
            Self::entries_of(key_values.remove(idx), children.update(idx, merged).remove(idx + 1))
                == run(Self::parts_of(children), key_values, 0, idx) + merged.entries() + after(
                Self::parts_of(children),
                key_values,
                idx + 1,
            ),
    {
        let parts = Self::parts_of(children);
        let children2 = children.update(idx, merged).remove(idx + 1);
        assert(Self::parts_of(children2) =~= parts.update(idx, merged.entries()).remove(idx + 1));
        if children2.len() == 1 {
            lemma_flatten_merge(parts, key_values, idx, merged.entries());
        } else {
            lemma_flatten_merge(parts, key_values, idx, merged.entries());
        }
    }

    /// A search tree cut at its entry `s` gives two search trees of the same
    /// height, and its entries are those of the left one, the entry `s`, and
    /// those of the right one.
    pub proof fn lemma_cut(key_values: Seq<(K, V)>, children: Seq<Arc<Node<K, V>>>, s: int)
        requires
            Self::shape(key_values, children),
            0 <= s < key_values.len(),
        ensures
            ({
                let lk = key_values.subrange(0, s);
                let lc = Self::left_children(children, s);
                let rk = key_values.subrange(s + 1, key_values.len() as int);
                let rc = Self::right_children(children, s);
                &&& Self::shape(lk, lc)
                &&& Self::shape(rk, rc)
                &&& Self::entries_of(lk, lc) + seq![key_values[s]] + Self::entries_of(rk, rc)
                    == Self::entries_of(key_values, children)
                &&& Self::height_of(lc) == Self::height_of(children)
                &&& Self::height_of(rc) == Self::height_of(children)
                &&& Self::total_count(lc, lc.len() as int) + Self::total_count(rc, rc.len() as int)
                    == Self::total_count(children, children.len() as int)
                &&& 0 <= Self::total_count(lc, lc.len() as int)
                &&& 0 <= Self::total_count(rc, rc.len() as int)
                &&& forall|config: BTreeConfig| #[trigger]
                    Self::balanced_of(children, config) ==> Self::balanced_of(lc, config)
                        && Self::balanced_of(rc, config)
            }),
    {
        let lk = key_values.subrange(0, s);
        let lc = Self::left_children(children, s);
        let rk = key_values.subrange(s + 1, key_values.len() as int);
        let rc = Self::right_children(children, s);
        let whole = Self::entries_of(key_values, children);
        if children.len() == 0 {
            assert(lk + seq![key_values[s]] + rk =~= key_values);
        } else {
            let parts = Self::parts_of(children);
            lemma_flatten_cut(parts, key_values, s);
            assert(Self::parts_of(lc) =~= parts.subrange(0, s + 1));
            assert(Self::parts_of(rc) =~= parts.subrange(s + 1, parts.len() as int));
            assert(lc[0] == children[0]);
            assert(rc[0] == children[s + 1]);
            assert forall|i: int| 0 <= i < lc.len() implies (#[trigger] lc[i]).wf() && lc[i].height()
                == lc[0].height() by {
                assert(lc[i] == children[i]);
            }
            assert forall|i: int| 0 <= i < rc.len() implies (#[trigger] rc[i]).wf() && rc[i].height()
                == rc[0].height() by {
                assert(rc[i] == children[s + 1 + i]);
            }
            assert(lc + rc =~= children);
            Self::lemma_total_count_concat(lc, rc, rc.len() as int);
            assert forall|config: BTreeConfig| #[trigger]
                Self::balanced_of(children, config) implies Self::balanced_of(lc, config)
                && Self::balanced_of(rc, config) by {
                assert forall|i: int| 0 <= i < lc.len() implies (#[trigger] lc[i]).fits(config)
                    && lc[i].balanced(config) by {
                    assert(lc[i] == children[i]);
                }
                assert forall|i: int| 0 <= i < rc.len() implies (#[trigger] rc[i]).fits(config)
                    && rc[i].balanced(config) by {
                    assert(rc[i] == children[s + 1 + i]);
                }
            }
        }
        Self::lemma_total_count_grows(lc, 0, lc.len() as int);
        Self::lemma_total_count_grows(rc, 0, rc.len() as int);
        lemma_sorted_pieces(
            Self::entries_of(lk, lc) + seq![key_values[s]],
            Self::entries_of(rk, rc),
        );
        lemma_sorted_pieces(Self::entries_of(lk, lc), seq![key_values[s]]);
    }

    /// Two search trees of one height and an entry between them make a
    /// search tree, where the keys of the one, the entry and the other ascend.
    pub proof fn lemma_join(
        lk: Seq<(K, V)>,
        lc: Seq<Arc<Node<K, V>>>,
        mid: (K, V),
        rk: Seq<(K, V)>,
        rc: Seq<Arc<Node<K, V>>>,
    )
        requires
            Self::shape(lk, lc),
            Self::shape(rk, rc),
            Self::height_of(lc) == Self::height_of(rc),
            keys_sorted(Self::entries_of(lk, lc) + seq![mid] + Self::entries_of(rk, rc)),
        ensures
            Self::shape(lk + seq![mid] + rk, lc + rc),
            Self::entries_of(lk + seq![mid] + rk, lc + rc) == Self::entries_of(lk, lc) + seq![mid]
                + Self::entries_of(rk, rc),
            Self::height_of(lc + rc) == Self::height_of(lc),
            Self::total_count(lc + rc, (lc + rc).len() as int) == Self::total_count(
                lc,
                lc.len() as int,
            ) + Self::total_count(rc, rc.len() as int),
            forall|config: BTreeConfig| #[trigger]
                Self::balanced_of(lc, config) && Self::balanced_of(rc, config)
                    ==> Self::balanced_of(lc + rc, config),
    {
        let kvs = lk + seq![mid] + rk;
        let cs = lc + rc;
        let s = lk.len() as int;
        Self::lemma_total_count_concat(lc, rc, rc.len() as int);
        if lc.len() == 0 {
            assert(rc.len() == 0);
            assert(cs =~= lc);
        } else {
            assert(rc.len() > 0);
            let parts = Self::parts_of(cs);
            lemma_flatten_cut(parts, kvs, s);
            assert(parts.subrange(0, s + 1) =~= Self::parts_of(lc));
            assert(parts.subrange(s + 1, parts.len() as int) =~= Self::parts_of(rc));
            assert(kvs.subrange(0, s) =~= lk);
            assert(kvs.subrange(s + 1, kvs.len() as int) =~= rk);
            assert(cs[0] == lc[0]);
            assert forall|i: int| 0 <= i < cs.len() implies (#[trigger] cs[i]).wf() && cs[i].height()
                == cs[0].height() by {
                if i < lc.len() {
                    assert(cs[i] == lc[i]);
                } else {
                    assert(cs[i] == rc[i - lc.len()]);
                    assert(rc[i - lc.len()].height() == rc[0].height());
                }
            }
            assert forall|config: BTreeConfig| #[trigger]
                Self::balanced_of(lc, config) && Self::balanced_of(rc, config)
                implies Self::balanced_of(cs, config) by {
                assert forall|i: int| 0 <= i < cs.len() implies (#[trigger] cs[i]).fits(config)
                    && cs[i].balanced(config) by {
                    if i < lc.len() {
                        assert(cs[i] == lc[i]);
                    } else {
                        assert(cs[i] == rc[i - lc.len()]);
                    }
                }
            }
        }
    }

    /// Where the children's counts are right, their sum is the number of the
    /// children's entries.
    pub proof fn lemma_total_count(children: Seq<Arc<Node<K, V>>>, n: int)
        requires
            0 <= n <= children.len(),
            forall|i: int|
                0 <= i < children.len() ==> (#[trigger] children[i]).count
                    == children[i].entries().len(),
        ensures
            Self::total_count(children, n) == total_len(Self::parts_of(children), n),
        decreases n,
    {
        if n > 0 {
            Self::lemma_total_count(children, n - 1);
            assert(children[n - 1].count == children[n - 1].entries().len());
        }
    }

    /// The count of a node is the number of its entries and the counts of its
    /// children.
    pub proof fn lemma_count_invariant(&self)
        requires
            self.inv(),
        ensures
            self.count == self.key_values.len() + Self::total_count(
                self.children@,
                self.children.len() as int,
            ),
            forall|i: int| 0 <= i < self.children.len() ==> (#[trigger] self.children@[i]).inv(),
    {
        if self.children.len() > 0 {
            lemma_flatten_len(self.parts(), self.key_values@);
            assert forall|i: int| 0 <= i < self.children.len() implies (
            #[trigger] self.children@[i]).count == self.children@[i].entries().len() by {
                assert(self.children@[i].wf());
            }
            Self::lemma_total_count(self.children@, self.children.len() as int);
        }
    }

    /// The own entries of a search tree's root ascend among themselves.
    pub proof fn lemma_separators_sorted_of(
        key_values: Seq<(K, V)>,
        children: Seq<Arc<Node<K, V>>>,
    )
        requires
            Self::shape(key_values, children),
        ensures
            keys_sorted(key_values),
    {
        if children.len() > 0 {
            let parts = Self::parts_of(children);
            let seps = key_values;
            let whole = Self::entries_of(key_values, children);
            assert forall|i: int, j: int| 0 <= i < j < seps.len() implies lt(
                seps[i].0,
                seps[j].0,
            ) by {
                lemma_positions(parts, seps, i);
                lemma_positions(parts, seps, j);
                assert(sep_index(parts, seps, i) < child_offset(parts, seps, j));
                assert(lt(
                    whole[sep_index(parts, seps, i)].0,
                    whole[sep_index(parts, seps, j)].0,
                ));
            }
        }
    }

    /// The own entries of a node ascend among themselves.
    pub proof fn lemma_separators_sorted(&self)
        requires
            self.inv(),
        ensures
            keys_sorted(self.key_values@),
    {
        Self::lemma_separators_sorted_of(self.key_values@, self.children@);
    }

    /// In a node with children, a key that is none of the node's own keys
    /// belongs to the child at the key's rank among them: what the map does
    /// with the key, it does in that child.
    pub proof fn lemma_descend_of(
        key_values: Seq<(K, V)>,
        children: Seq<Arc<Node<K, V>>>,
        key: K,
    )
        requires
            total_order::<K>(),
            Self::shape(key_values, children),
            children.len() > 0,
            !contains_key(key_values, key),
        ensures
            ({
                let idx = rank(key_values, key);
                let whole = Self::entries_of(key_values, children);
                let before = run(Self::parts_of(children), key_values, 0, idx);
                let below = children[idx].entries();
                let behind = after(Self::parts_of(children), key_values, idx);
                &&& 0 <= idx < children.len()
                &&& children[idx].wf()
                &&& whole == before + below + behind
                &&& below.len() <= whole.len()
                &&& rank(whole, key) == before.len() + rank(below, key)
                &&& contains_key(whole, key) == contains_key(below, key)
                &&& find(whole, key) == find(below, key)
                &&& lookup(whole, key) == lookup(below, key)
                &&& without(whole, key) == before + without(below, key) + behind
                &&& forall|value: V| #[trigger]
                    upsert(whole, key, value) == before + upsert(below, key, value) + behind
            }),
    {
        let seps = key_values;
        let parts = Self::parts_of(children);
        let idx = rank(seps, key);
        Self::lemma_separators_sorted_of(key_values, children);
        lemma_rank(seps, key);
        let before = run(parts, seps, 0, idx);
        let below = parts[idx];
        let behind = after(parts, seps, idx);
        lemma_flatten_at(parts, seps, idx);
        if idx > 0 {
            assert(before.last() == seps[idx - 1]);
            assert(lt(seps[idx - 1].0, key));
        }
        if idx < seps.len() {
            assert(behind[0] == seps[idx]);
            assert(!lt(seps[idx].0, key));
            lemma_trichotomy(seps[idx].0, key);
        }
        lemma_enclosed(before, below, behind, key);
    }

    /// `lemma_descend_of` for a node.
    pub proof fn lemma_descend(&self, key: K)
        requires
            total_order::<K>(),
            self.inv(),
            self.children.len() > 0,
            !contains_key(self.key_values@, key),
        ensures
            ({
                let idx = rank(self.key_values@, key);
                let before = run(self.parts(), self.key_values@, 0, idx);
                let below = self.children@[idx].entries();
                let behind = after(self.parts(), self.key_values@, idx);
                &&& 0 <= idx < self.children.len()
                &&& self.children@[idx].wf()
                &&& self.entries() == before + below + behind
                &&& below.len() <= self.entries().len()
                &&& rank(self.entries(), key) == before.len() + rank(below, key)
                &&& contains_key(self.entries(), key) == contains_key(below, key)
                &&& find(self.entries(), key) == find(below, key)
                &&& lookup(self.entries(), key) == lookup(below, key)
                &&& without(self.entries(), key) == before + without(below, key) + behind
                &&& forall|value: V| #[trigger]
                    upsert(self.entries(), key, value) == before + upsert(below, key, value)
                        + behind
            }),
    {
        Self::lemma_descend_of(self.key_values@, self.children@, key);
    }

    /// The entry `idx` of a node stands in the map at its place in the
    /// layout, and the map holds its key.
    pub proof fn lemma_own_entry(&self, idx: int)
        requires
            total_order::<K>(),
            self.inv(),
            0 <= idx < self.key_values.len(),
        ensures
            ({
                let key = self.key_values@[idx].0;
                let at = if self.children.len() == 0 {
                    idx
                } else {
                    sep_index(self.parts(), self.key_values@, idx)
                };
                &&& 0 <= at < self.entries().len()
                &&& self.entries()[at] == self.key_values@[idx]
                &&& rank(self.entries(), key) == at
                &&& contains_key(self.entries(), key)
                &&& find(self.entries(), key) == Some(self.key_values@[idx])
                &&& lookup(self.entries(), key) == Some(self.key_values@[idx].1)
            }),
    {
        if self.children.len() == 0 {
            lemma_rank_of_member(self.entries(), idx);
        } else {
            lemma_positions(self.parts(), self.key_values@, idx);
            lemma_rank_of_member(self.entries(), sep_index(self.parts(), self.key_values@, idx));
        }
    }
}


/// Two nodes with the same entries, the same children and the same count are
/// the same node in every respect that the contracts speak of.
pub open spec fn same_node<K, V>(a: Node<K, V>, b: Node<K, V>) -> bool {
    &&& a.key_values@ == b.key_values@
    &&& a.children@ == b.children@
    &&& a.count == b.count
}

/// A copy of the entries `from..to` of `source`.
pub fn clone_entries<K: Clone, V: Clone>(source: &Vec<(K, V)>, from: usize, to: usize) -> (res:
    Vec<(K, V)>)
    requires
        from <= to <= source.len(),
    ensures
        res.len() == to - from,
        faithful_clone::<K>() && faithful_clone::<V>() ==> res@ == source@.subrange(
            from as int,
            to as int,
        ),
{
    let mut out: Vec<(K, V)> = Vec::new();
    let mut i: usize = from;
    while i < to
        invariant
            from <= i <= to <= source.len(),
            out.len() == i - from,
            faithful_clone::<K>() && faithful_clone::<V>() ==> out@ == source@.subrange(
                from as int,
                i as int,
            ),
        decreases to - i,
    {
        let k = source[i].0.clone();
        let v = source[i].1.clone();
        assert(cloned::<K>(source[i as int].0, k));
        assert(cloned::<V>(source[i as int].1, v));
        out.push((k, v));
        i += 1;
        assert(faithful_clone::<K>() && faithful_clone::<V>() ==> out@ =~= source@.subrange(
            from as int,
            i as int,
        ));
    }
    out
}

/// New handles to the children `from..to` of `source`. No node is copied.
pub fn clone_children<K, V>(source: &Vec<Arc<Node<K, V>>>, from: usize, to: usize) -> (res: Vec<
    Arc<Node<K, V>>,
>)
    requires
        from <= to <= source.len(),
    ensures
        res@ == source@.subrange(from as int, to as int),
{
    let mut out: Vec<Arc<Node<K, V>>> = Vec::new();
    let mut i: usize = from;
    while i < to
        invariant
            from <= i <= to <= source.len(),
            out@ == source@.subrange(from as int, i as int),
        decreases to - i,
    {
        out.push(arc_clone(&source[i]));
        i += 1;
        assert(out@ =~= source@.subrange(from as int, i as int));
    }
    out
}

impl<K: Clone, V: Clone> Clone for Node<K, V> {
    /// A copy of the node alone: its entries are cloned, its children are
    /// shared with the node copied.
    fn clone(&self) -> (res: Self)
        ensures
            faithful_clone::<K>() && faithful_clone::<V>() ==> same_node(*self, res),
    {
        let key_values = clone_entries(&self.key_values, 0, self.key_values.len());
        let children = clone_children(&self.children, 0, self.children.len());
        assert(self.key_values@.subrange(0, self.key_values.len() as int) =~= self.key_values@);
        assert(self.children@.subrange(0, self.children.len() as int) =~= self.children@);
        Self { key_values, children, count: self.count }
    }
}

/// The index of `key` among `entries`, or the index where it belongs.
pub fn search<K: Ord, V>(entries: &Vec<(K, V)>, key: &K) -> (res: Result<usize, usize>)
    requires
        total_order::<K>(),
        keys_sorted(entries@),
    ensures
        match res {
            Ok(idx) => contains_key(entries@, *key) && idx == rank(entries@, *key),
            Err(idx) => !contains_key(entries@, *key) && idx == rank(entries@, *key),
        },
{
    let mut low: usize = 0;
    let mut high: usize = entries.len();
    while low < high
        invariant
            total_order::<K>(),
            keys_sorted(entries@),
            low <= high <= entries.len(),
            forall|j: int| 0 <= j < low ==> lt(#[trigger] entries@[j].0, *key),
            forall|j: int| high <= j < entries.len() ==> lt(*key, #[trigger] entries@[j].0),
        decreases high - low,
    {
        let mid = low + (high - low) / 2;
        match compare(&entries[mid].0, key) {
            KeyOrder::Less => {
                assert forall|j: int| 0 <= j < mid + 1 implies lt(
                    #[trigger] entries@[j].0,
                    *key,
                ) by {
                    if j < mid {
                        assert(lt(entries@[j].0, entries@[mid as int].0));
                        lemma_lt_transitive(entries@[j].0, entries@[mid as int].0, *key);
                    }
                }
                low = mid + 1;
            },
            KeyOrder::Equal => {
                proof {
                    lemma_rank_of_member(entries@, mid as int);
                }
                return Ok(mid);
            },
            KeyOrder::Greater => {
                assert forall|j: int| mid <= j < entries.len() implies lt(
                    *key,
                    #[trigger] entries@[j].0,
                ) by {
                    if mid < j {
                        assert(lt(entries@[mid as int].0, entries@[j].0));
                        lemma_lt_transitive(*key, entries@[mid as int].0, entries@[j].0);
                    }
                }
                high = mid;
            },
        }
    }
    proof {
        assert forall|j: int| low <= j < entries.len() implies !lt(
            #[trigger] entries@[j].0,
            *key,
        ) by {
            lemma_trichotomy(entries@[j].0, *key);
        }
        lemma_rank_is(entries@, *key, low as int);
        if low < entries.len() {
            lemma_trichotomy(entries@[low as int].0, *key);
        }
    }
    Err(low)
}

impl<K: Ord + Clone, V: Clone> Node<K, V> {
    /// What `Arc::make_mut` hands out for a node is the node it was given.
    pub proof fn lemma_cloned(a: &Self, b: &Self)
        requires
            cloned::<Self>(*a, *b),
            faithful_clone::<K>(),
            faithful_clone::<V>(),
        ensures
            same_node(*a, *b),
    {
    }

    /// Nodes that are the same have the same map, height and validity.
    pub proof fn lemma_same_node(a: &Self, b: &Self)
        requires
            same_node(*a, *b),
        ensures
            a.entries() == b.entries(),
            a.parts() == b.parts(),
            a.height() == b.height(),
            a.inv() == b.inv(),
            a.wf() == b.wf(),
            forall|config: BTreeConfig| #[trigger] a.fits(config) == b.fits(config),
            forall|config: BTreeConfig| #[trigger] a.balanced(config) == b.balanced(config),
    {
    }

    /// Exclusive access to child `idx`, which is copied first if another tree
    /// shares it.
    pub fn child_mut(children: &mut Vec<Arc<Self>>, idx: usize) -> (res: &mut Self)
        requires
            idx < old(children).len(),
            faithful_clone::<K>(),
            faithful_clone::<V>(),
        ensures
            same_node(*old(children)@[idx as int], *res),
            final(children)@ == old(children)@.update(idx as int, final(children)@[idx as int]),
            *final(children)@[idx as int] == *final(res),
    {
        let ghost before = children@;
        let child = arc_make_mut(&mut children[idx]);
        proof {
            Self::lemma_cloned(&*before[idx as int], &*child);
        }
        child
    }

    /// An empty leaf.
    pub fn new() -> (res: Self)
        ensures
            res.wf(),
            res.entries() == Seq::<(K, V)>::empty(),
            res.height() == 0,
            res.key_values@.len() == 0,
            res.children@.len() == 0,
            forall|config: BTreeConfig| #[trigger] res.balanced(config),
    {
        Self { key_values: Vec::new(), children: Vec::new(), count: 0 }
    }

    /// A node of the given entries and children, with the count that follows
    /// from them.
    pub fn new_with_key_values(key_values: Vec<(K, V)>, children: Vec<Arc<Self>>) -> (res: Self)
        requires
            key_values.len() + Self::total_count(children@, children.len() as int) <= usize::MAX,
        ensures
            res.key_values@ == key_values@,
            res.children@ == children@,
            res.count == key_values.len() + Self::total_count(children@, children.len() as int),
            Self::shape(key_values@, children@) ==> res.inv(),
    {
        proof {
            if Self::shape(key_values@, children@) {
                Self::lemma_entries_len(key_values@, children@);
            }
        }
        let mut count: usize = key_values.len();
        let mut i: usize = 0;
        while i < children.len()
            invariant
                i <= children.len(),
                count == key_values.len() + Self::total_count(children@, i as int),
                key_values.len() + Self::total_count(children@, children.len() as int)
                    <= usize::MAX,
            decreases children.len() - i,
        {
            proof {
                Self::lemma_total_count_grows(children@, i as int + 1, children.len() as int);
            }
            count = count + children[i].count;
            i += 1;
        }
        Self { key_values, children, count }
    }

    /// Whether the node has no children.
    pub fn is_leaf(&self) -> (res: bool)
        ensures
            res == (self.children@.len() == 0),
    {
        self.children.is_empty()
    }

    /// The value of `key`, if the map holds the key.
    pub fn get_by_key(&self, key: &K) -> (res: Option<&V>)
        requires
            total_order::<K>(),
            self.inv(),
        ensures
            res == match lookup(self.entries(), *key) {
                Some(value) => Some(&value),
                None => None,
            },
        decreases self,
    {
        proof {
            self.lemma_separators_sorted();
        }
        match search(&self.key_values, key) {
            Ok(idx) => {
                proof {
                    self.lemma_own_entry(idx as int);
                }
                Some(&self.key_values[idx].1)
            },
            Err(idx) => {
                if self.is_leaf() {
                    None
                } else {
                    proof {
                        self.lemma_descend(*key);
                    }
                    let child = &self.children[idx];
                    assert(child.wf());
                    child.get_by_key(key)
                }
            },
        }
    }

    /// The entry at `offset` in key order, if there are that many.
    pub fn get_by_offset(&self, offset: usize) -> (res: Option<&(K, V)>)
        requires
            self.inv(),
        ensures
            res == if offset < self.entries().len() {
                Some(&self.entries()[offset as int])
            } else {
                None
            },
        decreases self,
    {
        if self.count <= offset {
            return None;
        }
        if self.is_leaf() {
            Some(&self.key_values[offset])
        } else {
            let ghost parts = self.parts();
            let ghost seps = self.key_values@;
            let mut relative_offset = offset;
            let mut idx: usize = 0;
            while idx < self.key_values.len()
                invariant
                    self.inv(),
                    self.children@.len() > 0,
                    parts == self.parts(),
                    seps == self.key_values@,
                    idx <= self.key_values.len(),
                    offset < self.entries().len(),
                    offset == child_offset(parts, seps, idx as int) + relative_offset,
                decreases self.key_values.len() - idx,
            {
                proof {
                    lemma_positions(parts, seps, idx as int);
                }
                let left_child = &self.children[idx];
                assert(left_child.wf());
                if left_child.count > relative_offset {
                    assert(parts[idx as int][relative_offset as int] == self.entries()[offset as int]);
                    return left_child.get_by_offset(relative_offset);
                }
                relative_offset -= left_child.count;
                if relative_offset == 0 {
                    return Some(&self.key_values[idx]);
                }
                relative_offset -= 1;
                idx += 1;
            }
            proof {
                lemma_positions(parts, seps, idx as int);
                lemma_flatten_at(parts, seps, idx as int);
            }
            let last_child = &self.children[self.children.len() - 1];
            assert(last_child.wf());
            assert(parts[idx as int][relative_offset as int] == self.entries()[offset as int]);
            last_child.get_by_offset(relative_offset)
        }
    }
}

} // verus!

//! The order of the tree and the node sizes that follow from it.

use vstd::prelude::*;

verus! {

/// The order of a tree: the largest number of children a node other than the
/// root may have.
#[derive(Debug, Clone, Copy)]
pub struct BTreeConfig {
    pub max_degree: usize,
}

impl BTreeConfig {
    /// The order is large enough for every node other than the root to keep
    /// at least one entry.
    pub open spec fn valid(self) -> bool {
        self.max_degree >= 3
    }

    pub open spec fn spec_node_max_children(&self) -> usize {
        self.max_degree
    }

    pub open spec fn spec_node_min_children(&self) -> usize {
        (self.max_degree / 2 + self.max_degree % 2) as usize
    }

    pub open spec fn spec_node_max_key_value(&self) -> usize {
        (self.max_degree - 1) as usize
    }

    pub open spec fn spec_node_min_key_value(&self) -> usize {
        (self.max_degree / 2 + self.max_degree % 2 - 1) as usize
    }

    pub open spec fn spec_node_under_size(&self, key_value_count: usize) -> bool {
        key_value_count < self.spec_node_min_key_value()
    }

    pub open spec fn spec_node_at_min_size(&self, key_value_count: usize) -> bool {
        key_value_count <= self.spec_node_min_key_value()
    }

    pub open spec fn spec_node_should_split(&self, key_value_count: usize) -> bool {
        key_value_count > self.spec_node_max_key_value()
    }

    /// The most entries a node can hold between two operations: what a merge
    /// of two nodes at their minimum makes, `2 * min + 1`. For an even order
    /// this is `node_max_key_value()`, for an odd order one more.
    pub open spec fn node_limit(&self) -> int {
        2 * self.spec_node_min_key_value() + 1
    }

    /// `max_degree`, the most children of a node.
    #[verifier::when_used_as_spec(spec_node_max_children)]
    pub fn node_max_children(&self) -> (r: usize)
        ensures
            r == self.max_degree,
            r == self.spec_node_max_children(),
    {
        self.max_degree
    }

    /// `ceil(max_degree / 2)`, the fewest children of a node other than the root.
    #[verifier::when_used_as_spec(spec_node_min_children)]
    pub fn node_min_children(&self) -> (r: usize)
        ensures
            r == self.max_degree / 2 + self.max_degree % 2,
            2 * r == self.max_degree || 2 * r == self.max_degree + 1,
            r == self.spec_node_min_children(),
    {
        self.max_degree / 2 + self.max_degree % 2
    }

    /// `max_degree - 1`, the most entries a node holds without being split.
    #[verifier::when_used_as_spec(spec_node_max_key_value)]
    pub fn node_max_key_value(&self) -> (r: usize)
        requires
            self.max_degree >= 1,
        ensures
            r == self.max_degree - 1,
            r == self.spec_node_max_key_value(),
    {
        self.node_max_children() - 1
    }

    /// `ceil(max_degree / 2) - 1`, the fewest entries of a node other than the root.
    #[verifier::when_used_as_spec(spec_node_min_key_value)]
    pub fn node_min_key_value(&self) -> (r: usize)
        requires
            self.max_degree >= 1,
        ensures
            r == self.max_degree / 2 + self.max_degree % 2 - 1,
            r == self.spec_node_min_key_value(),
    {
        self.node_min_children() - 1
    }

    /// Whether a node with `key_value_count` entries has fewer than the minimum.
    #[verifier::when_used_as_spec(spec_node_under_size)]
    pub fn node_under_size(&self, key_value_count: usize) -> (r: bool)
        requires
            self.max_degree >= 1,
        ensures
            r == (key_value_count < self.node_min_key_value()),
            r == self.spec_node_under_size(key_value_count),
    {
        key_value_count < self.node_min_key_value()
    }

    /// Whether a node with `key_value_count` entries has none to spare: it
    /// cannot lend an entry to a sibling and keep the minimum.
    #[verifier::when_used_as_spec(spec_node_at_min_size)]
    pub fn node_at_min_size(&self, key_value_count: usize) -> (r: bool)
        requires
            self.max_degree >= 1,
        ensures
            r == (key_value_count <= self.node_min_key_value()),
            r == self.spec_node_at_min_size(key_value_count),
    {
        key_value_count <= self.node_min_key_value()
    }

    /// Whether a node with `key_value_count` entries holds more than the
    /// maximum and has to be split.
    #[verifier::when_used_as_spec(spec_node_should_split)]
    pub fn node_should_split(&self, key_value_count: usize) -> (r: bool)
        requires
            self.max_degree >= 1,
        ensures
            r == (key_value_count > self.node_max_key_value()),
            r == self.spec_node_should_split(key_value_count),
    {
        key_value_count > self.node_max_key_value()
    }

    /// What the sizes come to for a valid order: at least one entry per node,
    /// room for two, and a limit of `max_degree - 1` entries for an even order
    /// and `max_degree` for an odd one.
    pub proof fn lemma_sizes(self)
        requires
            self.valid(),
        ensures
            1 <= self.node_min_key_value(),
            2 * self.node_min_key_value() <= self.node_max_key_value(),
            self.max_degree % 2 == 0 ==> self.node_limit() == self.node_max_key_value(),
            self.max_degree % 2 == 1 ==> self.node_limit() == self.node_max_key_value() + 1,
            self.node_max_key_value() <= self.node_limit() <= self.node_max_key_value() + 1,
    {
    }
}

} // verus!

//! A walk over the nodes of a tree for those who want to look at its
//! structure, as for printing it.

use crate::node::Node;
use vstd::prelude::*;

verus! {

/// What a visitor sees of a node: its own entries.
pub struct NodeProxy<'a, K, V> {
    pub key_values: &'a [(K, V)],
}

/// What a visitor is shown at one node.
pub struct VisitStack<'a, K, V> {
    /// The node.
    pub node: NodeProxy<'a, K, V>,
    /// The number of nodes above it.
    pub depth: usize,
    /// Whether it has no children.
    pub is_leaf: bool,
    /// The nodes above it from the root down, each with the index of the
    /// child through which the walk came here.
    pub stacks: Vec<(NodeProxy<'a, K, V>, usize)>,
}

/// The child indices along a chain of ancestors.
pub open spec fn path_of<'a, K, V>(stacks: Seq<(NodeProxy<'a, K, V>, usize)>) -> Seq<int> {
    Seq::new(stacks.len(), |i: int| stacks[i].1 as int)
}

impl<K, V> Node<K, V> {
    /// The node reached from this one by going down through the children
    /// with the indices `path`, if there is such a node.
    pub open spec fn descendant(&self, path: Seq<int>) -> Option<&Node<K, V>>
        decreases path.len(),
    {
        if path.len() == 0 {
            Some(self)
        } else if 0 <= path[0] < self.children@.len() {
            self.children@[path[0]].descendant(path.drop_first())
        } else {
            None
        }
    }

    /// The chain `stacks` leads from this node down to a node of the tree,
    /// and shows the entries of each node on the way.
    pub open spec fn leads<'a>(&self, stacks: Seq<(NodeProxy<'a, K, V>, usize)>) -> bool {
        &&& self.descendant(path_of(stacks)) is Some
        &&& forall|i: int|
            0 <= i < stacks.len() ==> ((#[trigger] self.descendant(path_of(stacks).take(i)))
                matches Some(above) && stacks[i].0.key_values@ == above.key_values@)
    }

    /// `stack` is a true view of a node of the tree below this node: of its
    /// entries, its depth, whether it is a leaf, and the nodes above it.
    pub open spec fn shows<'a>(&self, stack: &VisitStack<'a, K, V>) -> bool {
        &&& stack.depth == stack.stacks@.len()
        &&& self.leads(stack.stacks@)
        &&& self.descendant(path_of(stack.stacks@)) matches Some(node)
            && stack.node.key_values@ == node.key_values@ && stack.is_leaf == (
        node.children@.len() == 0)
    }

    /// Going down one more child.
    pub proof fn lemma_descendant_step(&self, path: Seq<int>, idx: int)
        requires
            self.descendant(path) is Some,
            0 <= idx < self.descendant(path).unwrap().children@.len(),
        ensures
            self.descendant(path.push(idx)) == Some(
                &*self.descendant(path).unwrap().children@[idx],
            ),
        decreases path.len(),
    {
        if path.len() == 0 {
            assert(path.push(idx).drop_first() =~= Seq::<int>::empty());
            assert(self.children@[idx].descendant(Seq::<int>::empty()) == Some(
                &*self.children@[idx],
            ));
        } else {
            assert(path.push(idx).drop_first() =~= path.drop_first().push(idx));
            self.children@[path[0]].lemma_descendant_step(path.drop_first(), idx);
        }
    }
}

/// `visit_fn` has been shown the node that `path` leads to from `root`: it
/// was called with a true view of that node, and came back from the call.
pub open spec fn shown_to<K, V, F: FnMut(&VisitStack<'_, K, V>)>(
    visit_fn: &F,
    root: &Node<K, V>,
    path: Seq<int>,
) -> bool {
    exists|stack: VisitStack<'_, K, V>|
        #![trigger root.shows(&stack)]
        root.shows(&stack) && path_of(stack.stacks@) == path && call_ensures(
            *visit_fn,
            (&stack,),
            (),
        )
}

/// `visit_fn` has been shown every node in and below the node that `above`
/// leads to from `root`.
pub open spec fn shown_below<K, V, F: FnMut(&VisitStack<'_, K, V>)>(
    visit_fn: &F,
    root: &Node<K, V>,
    above: Seq<int>,
) -> bool {
    forall|path: Seq<int>|
        root.descendant(above) is Some && (#[trigger] root.descendant(above).unwrap().descendant(
            path,
        )) is Some ==> shown_to(visit_fn, root, above + path)
}

/// Shows `visit_fn` every node in and below `node`: a node before its
/// children, the children in order. The visitor itself is left as it was.
pub fn visit_node<K: Ord + Clone, V: Clone, F: FnMut(&VisitStack<'_, K, V>)>(node: &Node<K, V>, visit_fn: &mut F)
    requires
        node.wf(),
        forall|stack: VisitStack<'_, K, V>| #[trigger]
            node.shows(&stack) ==> call_requires(*old(visit_fn), (&stack,)),
    ensures
        *final(visit_fn) == *old(visit_fn),
        shown_below(&*old(visit_fn), node, Seq::<int>::empty()),
{
    proof {
        node.lemma_height_bound();
        assert(path_of(Seq::<(NodeProxy<'_, K, V>, usize)>::empty()) =~= Seq::<int>::empty());
    }
    visit_node_inner(node, visit_fn, 0, Vec::new(), Ghost(node));
}

fn visit_node_inner<'a, K: Ord + Clone, V: Clone, F: FnMut(&VisitStack<'_, K, V>)>(
    node: &'a Node<K, V>,
    visit_fn: &mut F,
    depth: usize,
    stacks: Vec<(NodeProxy<'a, K, V>, usize)>,
    Ghost(root): Ghost<&Node<K, V>>,
) -> (res: Vec<(NodeProxy<'a, K, V>, usize)>)
    requires
        node.wf(),
        depth == stacks@.len(),
        depth + node.height() <= usize::MAX,
        root.leads(stacks@),
        root.descendant(path_of(stacks@)) == Some(node),
        forall|stack: VisitStack<'_, K, V>| #[trigger]
            root.shows(&stack) ==> call_requires(*old(visit_fn), (&stack,)),
    ensures
        res@ == stacks@,
        *final(visit_fn) == *old(visit_fn),
        shown_below(&*old(visit_fn), root, path_of(stacks@)),
    decreases node,
{
    let ghost above = stacks@;
    let ghost here = path_of(above);
    let proxy = NodeProxy { key_values: node.key_values.as_slice() };
    let visit_stack = VisitStack { node: proxy, depth, is_leaf: node.is_leaf(), stacks };
    assert(root.shows(&visit_stack));
    visit_fn(&visit_stack);
    proof {
        assert(root.shows(&visit_stack) && path_of(visit_stack.stacks@) == here && call_ensures(
            *visit_fn,
            (&visit_stack,),
            (),
        ));
        assert(shown_to(&*visit_fn, root, here));
    }

    let VisitStack { node: mut node_proxy, mut stacks, .. } = visit_stack;
    let mut idx: usize = 0;
    while idx < node.children.len()
        invariant
            node.wf(),
            idx <= node.children@.len(),
            stacks@ == above,
            depth == above.len(),
            depth + node.height() <= usize::MAX,
            node_proxy.key_values@ == node.key_values@,
            root.leads(above),
            root.descendant(path_of(above)) == Some(node),
            forall|stack: VisitStack<'_, K, V>| #[trigger]
                root.shows(&stack) ==> call_requires(*visit_fn, (&stack,)),
            *visit_fn == *old(visit_fn),
            here == path_of(above),
            shown_to(&*visit_fn, root, here),
            forall|path: Seq<int>|
                (#[trigger] node.descendant(path)) is Some && path.len() > 0 && path[0] < idx
                    ==> shown_to(&*visit_fn, root, here + path),
        decreases node.children@.len() - idx,
    {
        let child = &node.children[idx];
        stacks.push((node_proxy, idx));
        proof {
            let below = stacks@;
            assert(path_of(below) =~= path_of(above).push(idx as int));
            root.lemma_descendant_step(path_of(above), idx as int);
            assert forall|i: int| 0 <= i < below.len() implies ((#[trigger] root.descendant(
                path_of(below).take(i),
            )) matches Some(up) && below[i].0.key_values@ == up.key_values@) by {
                if i < above.len() {
                    assert(path_of(below).take(i) =~= path_of(above).take(i));
                } else {
                    assert(path_of(below).take(i) =~= path_of(above));
                }
            }
            assert(node.children@[idx as int].wf());
            assert(node.children@[idx as int].height() + 1 == node.height());
        }
        let ghost below = path_of(stacks@);
        stacks = visit_node_inner(child, visit_fn, depth + 1, stacks, Ghost(root));
        node_proxy = stacks.pop().unwrap().0;
        proof {
            assert(stacks@ =~= above);
            assert forall|path: Seq<int>|
                (#[trigger] node.descendant(path)) is Some && path.len() > 0 && path[0] < idx
                    + 1 implies shown_to(&*visit_fn, root, here + path) by {
                if path[0] == idx {
                    assert(child.descendant(path.drop_first()) is Some);
                    assert(below + path.drop_first() =~= here + path);
                }
            }
        }
        idx += 1;
    }
    proof {
        assert forall|path: Seq<int>|
            (#[trigger] node.descendant(path)) is Some implies shown_to(
            &*visit_fn,
            root,
            here + path,
        ) by {
            if path.len() == 0 {
                assert(here + path =~= here);
            }
        }
    }
    stacks
}

} // verus!

//! Depth-first traversal of a tree with an explicit stack, without recursion.
use crate::node::Node;
use vstd::prelude::*;

verus! {

/// The children of a node: those of an element, none for text or a comment.
pub open spec fn children_of(n: Node) -> Seq<Node> {
    match n {
        Node::Element(e) => e.children@,
        _ => Seq::empty(),
    }
}

/// `n`, then the nodes below it, in pre-order.
pub open spec fn preorder(n: Node) -> Seq<Node>
    decreases n, 1int, 0int,
{
    seq![n] + below_from(n, 0)
}

/// The nodes below the children of `n` from the `i`-th on, each child
/// followed by the nodes below it, in pre-order.
pub open spec fn below_from(n: Node, i: int) -> Seq<Node>
    decreases n, 0int, children_of(n).len() - i,
{
    if 0 <= i < children_of(n).len() {
        preorder(children_of(n)[i]) + below_from(n, i + 1)
    } else {
        Seq::empty()
    }
}

/// The nodes below `n`, in pre-order: `n` itself left out.
pub open spec fn descendants(n: Node) -> Seq<Node> {
    below_from(n, 0)
}

/// The nodes that a sequence of references points at.
pub open spec fn derefs(v: Seq<&Node>) -> Seq<Node> {
    v.map_values(|x: &Node| *x)
}

/// Iterates over the nodes below a node, in pre-order.
pub struct NodeIntoIterator<'a> {
    node: &'a Node,
    // the frames from the root down: which child of each parent is on the
    // path to `node`
    index: Vec<(usize, &'a Node)>,
}

/// What the frames from `k` on still have to give: for each frame, the
/// nodes below the later children of its parent.
pub open spec fn frames_rest(frames: Seq<(usize, &Node)>, k: int) -> Seq<Node>
    decreases frames.len() - k,
{
    if 0 <= k < frames.len() {
        frames_rest(frames, k + 1) + below_from(*frames[k].1, frames[k].0 + 1)
    } else {
        Seq::empty()
    }
}

impl<'a> NodeIntoIterator<'a> {
    /// Each frame names the child of its parent that is the next frame's
    /// parent, or, for the last frame, the current node.
    pub closed spec fn wf(&self) -> bool {
        chain(self.index@, *self.node)
    }

    /// The nodes that the iterator has still to give, in order.
    pub closed spec fn rest(&self) -> Seq<Node> {
        descendants(*self.node) + frames_rest(self.index@, 0)
    }

    /// The next node in pre-order, or `None` once every node was given.
    pub fn next(&mut self) -> (r: Option<&'a Node>)
        requires
            old(self).wf(),
        ensures
            final(self).wf(),
            r is Some ==> old(self).rest() == seq![*r->0] + final(self).rest(),
            r is None ==> old(self).rest().len() == 0 && final(self).rest().len() == 0,
    {
        proof {
            reveal_with_fuel(below_from, 2);
        }
        let first = match self.node {
            Node::Element(e) => if e.children.len() > 0 {
                Some(&e.children[0])
            } else {
                None
            },
            _ => None,
        };
        if let Some(child) = first {
            let ghost old_index = self.index@;
            self.index.push((0, self.node));
            self.node = child;
            proof {
                assert(self.index@ == old_index.push((0usize, old(self).node)));
                lemma_frames_rest_push(old_index, (0usize, old(self).node), 0);
                assert forall|k: int| 0 <= k < self.index@.len() implies link(
                    self.index@,
                    *self.node,
                    k,
                ) by {
                    if k + 1 < self.index@.len() {
                        assert(link(old_index, *old(self).node, k));
                        assert(self.index@[k] == old_index[k]);
                    }
                }
                assert(preorder(*child) == seq![*child] + descendants(*child));
                assert(old(self).rest() =~= seq![*child] + self.rest());
            }
            return Some(child);
        }
        assert(descendants(*self.node) =~= Seq::<Node>::empty());
        let ghost mut cur: Node = *self.node;
        loop
            invariant
                chain(self.index@, cur),
                frames_rest(self.index@, 0) == old(self).rest(),
                descendants(*self.node) =~= Seq::<Node>::empty(),
            decreases self.index@.len(),
        {
            let ghost before = self.index@;
            match self.index.pop() {
                None => {
                    return None;
                },
                Some((i, parent)) => {
                    proof {
                        assert(before == self.index@.push((i, parent)));
                        lemma_frames_rest_push(self.index@, (i, parent), 0);
                        assert(before[before.len() - 1] == (i, parent));
                        assert(link(before, cur, before.len() - 1));
                        assert(i < children_of(*parent).len());
                    }
                    let sibling = match parent {
                        Node::Element(e) => if e.children.len() - i > 1 {
                            Some(&e.children[i + 1])
                        } else {
                            None
                        },
                        _ => None,
                    };
                    if let Some(s) = sibling {
                        let ghost mid = self.index@;
                        self.index.push((i + 1, parent));
                        self.node = s;
                        proof {
                            lemma_frames_rest_push(mid, ((i + 1) as usize, parent), 0);
                            assert(below_from(*parent, i + 1) == preorder(*s) + below_from(
                                *parent,
                                i + 2,
                            ));
                            assert(preorder(*s) == seq![*s] + descendants(*s));
                            assert forall|k: int| 0 <= k < self.index@.len() implies link(
                                self.index@,
                                *self.node,
                                k,
                            ) by {
                                if k + 1 < self.index@.len() {
                                    assert(link(before, cur, k));
                                    assert(self.index@[k] == before[k]);
                                    assert(self.index@[k + 1].1 == before[k + 1].1);
                                }
                            }
                            assert(old(self).rest() =~= seq![*s] + self.rest());
                        }
                        return Some(s);
                    }
                    proof {
                        assert(below_from(*parent, i + 1) =~= Seq::<Node>::empty());
                        assert forall|k: int| 0 <= k < self.index@.len() implies link(
                            self.index@,
                            *parent,
                            k,
                        ) by {
                            assert(link(before, cur, k));
                            assert(self.index@[k] == before[k]);
                            if k + 1 < self.index@.len() {
                                assert(self.index@[k + 1] == before[k + 1]);
                            } else {
                                assert(before[k + 1] == (i, parent));
                            }
                        }
                        cur = *parent;
                    }
                },
            }
        }
    }
}

/// Frame `k` names the child of its parent that is the next frame's parent,
/// or `last` for the last frame.
pub open spec fn link(frames: Seq<(usize, &Node)>, last: Node, k: int) -> bool {
    &&& frames[k].0 < children_of(*frames[k].1).len()
    &&& children_of(*frames[k].1)[frames[k].0 as int] == if k + 1 < frames.len() {
        *frames[k + 1].1
    } else {
        last
    }
}

/// Every frame is linked, the last one to `last`.
pub open spec fn chain(frames: Seq<(usize, &Node)>, last: Node) -> bool {
    forall|k: int| 0 <= k < frames.len() ==> #[trigger] link(frames, last, k)
}

/// Pushing a frame puts what it still has to give before what the others
/// have.
pub proof fn lemma_frames_rest_push(frames: Seq<(usize, &Node)>, f: (usize, &Node), k: int)
    requires
        0 <= k <= frames.len(),
    ensures
        frames_rest(frames.push(f), k) == below_from(*f.1, f.0 + 1) + frames_rest(frames, k),
    decreases frames.len() - k,
{
    let p = frames.push(f);
    if k == frames.len() {
        assert(frames_rest(p, k + 1) =~= Seq::<Node>::empty());
        assert(frames_rest(p, k) =~= below_from(*f.1, f.0 + 1) + frames_rest(frames, k));
    } else {
        lemma_frames_rest_push(frames, f, k + 1);
        assert(p[k] == frames[k]);
        assert(frames_rest(p, k) =~= below_from(*f.1, f.0 + 1) + frames_rest(frames, k));
    }
}

impl Node {
    /// An iterator over the nodes below this one, in pre-order.
    pub fn into_iter(&self) -> (r: NodeIntoIterator<'_>)
        ensures
            r.wf(),
            r.rest() == descendants(*self),
    {
        let r = NodeIntoIterator { node: self, index: Vec::new() };
        assert(r.rest() =~= descendants(*self));
        r
    }

    /// Every node below this one, each once, in pre-order: what its iterator
    /// gives before it ends.
    pub fn descendants(&self) -> (r: Vec<&Node>)
        ensures
            derefs(r@) == descendants(*self),
    {
        let mut it = self.into_iter();
        let mut out: Vec<&Node> = Vec::new();
        loop
            invariant
                it.wf(),
                derefs(out@) + it.rest() == descendants(*self),
            decreases it.rest().len(),
        {
            let ghost before = it.rest();
            match it.next() {
                Some(n) => {
                    assert(derefs(out@.push(n)) == derefs(out@).push(*n));
                    out.push(n);
                    assert(derefs(out@) + it.rest() =~= descendants(*self));
                },
                None => {
                    assert(derefs(out@) =~= descendants(*self));
                    return out;
                },
            }
        }
    }
}

} // verus!

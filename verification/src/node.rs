//! The node tree underneath a text value.
//!
//! A tree is either a leaf, a contiguous block of characters, or a
//! composite holding two subtrees and a cached total length. Children are
//! held through `Rc`, so a subtree may belong to many trees at once and
//! an operation that keeps a side unchanged shares it instead of copying.

use std::rc::Rc;
use vstd::arithmetic::div_mod::lemma_fundamental_div_mod;
use vstd::arithmetic::div_mod::lemma_mod_bound;
use vstd::arithmetic::power::lemma_pow_positive;
use vstd::arithmetic::power::pow;
use vstd::pervasive::unreached;
use vstd::prelude::*;
use vstd::std_specs::vec::axiom_spec_len;

verus! {

/// Largest number of characters a leaf is given when trees are combined
/// or a flat block is split on block boundaries.
pub const BLOCK_SIZE: usize = 64;

/// A node of the tree: a primitive block of characters, or an inner node
/// with a head and a tail subtree and the cached sum of their lengths.
pub enum Node {
    Leaf(Vec<char>),
    Composite { count: usize, head: Rc<Node>, tail: Rc<Node> },
}

impl Node {
    /// The character sequence a node stands for.
    pub open spec fn content(self) -> Seq<char>
        decreases self,
    {
        match self {
            Node::Leaf(data) => data@,
            Node::Composite { head, tail, .. } => head.content() + tail.content(),
        }
    }

    /// Structural soundness: every cached count is the sum of the
    /// children's lengths, and no composite has an empty child.
    pub open spec fn wf(self) -> bool
        decreases self,
    {
        match self {
            Node::Leaf(_) => true,
            Node::Composite { count, head, tail } => {
                &&& count == head.content().len() + tail.content().len()
                &&& head.content().len() >= 1
                &&& tail.content().len() >= 1
                &&& head.wf()
                &&& tail.wf()
            },
        }
    }

    /// Length of the longest path from this node down to a leaf.
    pub open spec fn depth(self) -> nat
        decreases self,
    {
        match self {
            Node::Leaf(_) => 0,
            Node::Composite { head, tail, .. } => 1 + if head.depth() >= tail.depth() {
                head.depth()
            } else {
                tail.depth()
            },
        }
    }

    /// Whether the node is an inner node rather than a leaf.
    pub open spec fn is_composite(self) -> bool {
        self matches Node::Composite { .. }
    }

    /// The head child of an inner node.
    pub open spec fn spec_head(self) -> Rc<Node>
        recommends
            self is Composite,
    {
        self->Composite_head
    }

    /// The tail child of an inner node.
    pub open spec fn spec_tail(self) -> Rc<Node>
        recommends
            self is Composite,
    {
        self->Composite_tail
    }

    /// Exactly what rotating right returns: when the head of `self` is
    /// itself a composite `(A B)` and the tail is `C`, `r` is the
    /// restructured `A (B C)`; for any other shape `r` is `self`,
    /// unchanged.
    pub open spec fn rotated_right(self, r: Node) -> bool {
        if self.is_composite() && self.spec_head().is_composite() {
            &&& r.is_composite()
            &&& r.spec_head() == self.spec_head().spec_head()
            &&& r.spec_tail().is_composite()
            &&& r.spec_tail().spec_head() == self.spec_head().spec_tail()
            &&& r.spec_tail().spec_tail() == self.spec_tail()
        } else {
            r == self
        }
    }

    /// Exactly what rotating left returns: when the head of `self` is
    /// `A` and its tail is itself a composite `(B C)`, `r` is the
    /// restructured `(A B) C`; for any other shape `r` is `self`,
    /// unchanged.
    pub open spec fn rotated_left(self, r: Node) -> bool {
        if self.is_composite() && self.spec_tail().is_composite() {
            &&& r.is_composite()
            &&& r.spec_head().is_composite()
            &&& r.spec_head().spec_head() == self.spec_head()
            &&& r.spec_head().spec_tail() == self.spec_tail().spec_head()
            &&& r.spec_tail() == self.spec_tail().spec_tail()
        } else {
            r == self
        }
    }

    /// Every leaf under the node holds at most `BLOCK_SIZE` characters.
    pub open spec fn chunked(self) -> bool
        decreases self,
    {
        match self {
            Node::Leaf(data) => data@.len() <= BLOCK_SIZE,
            Node::Composite { head, tail, .. } => head.chunked() && tail.chunked(),
        }
    }

    /// The soft balance bound: at every composite, neither child is as
    /// long as twice the other.
    pub open spec fn balanced(self) -> bool
        decreases self,
    {
        match self {
            Node::Leaf(_) => true,
            Node::Composite { head, tail, .. } => {
                &&& tail.content().len() < 2 * head.content().len()
                &&& head.content().len() < 2 * tail.content().len()
                &&& head.balanced()
                &&& tail.balanced()
            },
        }
    }
}

/// Number of characters under the node. Cached in composites, so this
/// never descends more than one level.
pub(crate) fn length(node: &Node) -> (n: usize)
    requires
        node.wf(),
    ensures
        n == node.content().len(),
{
    match node {
        Node::Leaf(data) => data.len(),
        Node::Composite { count, .. } => *count,
    }
}

/// The character at `index`, found by descending towards the owning
/// leaf: left when the index falls in the head, right with the index
/// shifted down otherwise.
pub(crate) fn char_at(node: &Node, index: usize) -> (c: char)
    requires
        node.wf(),
        index < node.content().len(),
    ensures
        c == node.content()[index as int],
    decreases *node,
{
    match node {
        Node::Leaf(data) => data[index],
        Node::Composite { head, tail, .. } => {
            let head_len = length(head);
            if index < head_len {
                char_at(head, index)
            } else {
                char_at(tail, index - head_len)
            }
        },
    }
}

/// Whether the node is an inner node, decided at run time.
pub(crate) fn runtime_is_composite(node: &Node) -> (b: bool)
    ensures
        b == node.is_composite(),
{
    matches!(node, Node::Composite { .. })
}

/// Appends the characters `[start, start + count)` of the node to `out`.
/// A request inside one child is handed down whole; one that straddles
/// the boundary is served as the head-resident prefix, then the rest
/// from the start of the tail.
pub(crate) fn push_range(node: &Node, start: usize, count: usize, out: &mut Vec<char>)
    requires
        node.wf(),
        start + count <= node.content().len(),
    ensures
        final(out)@ == old(out)@ + node.content().subrange(start as int, (start + count) as int),
    decreases *node,
{
    match node {
        Node::Leaf(data) => {
            proof {
                axiom_spec_len(data);
            }
            let mut i: usize = 0;
            while i < count
                invariant
                    i <= count,
                    start + count <= data@.len() <= usize::MAX,
                    out@ == old(out)@ + data@.subrange(start as int, (start + i) as int),
                decreases count - i,
            {
                out.push(data[start + i]);
                proof {
                    assert(out@ =~= old(out)@ + data@.subrange(start as int, (start + i + 1) as int));
                }
                i = i + 1;
            }
        },
        Node::Composite { head, tail, .. } => {
            let cesure = length(head);
            if start + count <= cesure {
                push_range(head, start, count, out);
                proof {
                    assert(head.content().subrange(start as int, (start + count) as int)
                        =~= node.content().subrange(start as int, (start + count) as int));
                }
            } else if start >= cesure {
                push_range(tail, start - cesure, count, out);
                proof {
                    assert(tail.content().subrange(
                        start - cesure,
                        start + count - cesure,
                    ) =~= node.content().subrange(start as int, (start + count) as int));
                }
            } else {
                let head_chunk = cesure - start;
                push_range(head, start, head_chunk, out);
                push_range(tail, 0, count - head_chunk, out);
                proof {
                    assert(out@ =~= old(out)@ + node.content().subrange(
                        start as int,
                        (start + count) as int,
                    ));
                }
            }
        },
    }
}

/// The subtree standing for the characters `[start, end)` of the node.
/// A whole-range request shares the node itself; a request inside one
/// child is delegated; one that straddles the boundary joins the two
/// parts with the balancing concatenation.
pub(crate) fn sub_node(node: &Rc<Node>, start: usize, end: usize) -> (r: Rc<Node>)
    requires
        node.wf(),
        start < end,
        end <= node.content().len(),
    ensures
        r.wf(),
        r.content() == node.content().subrange(start as int, end as int),
    decreases **node,
{
    match &**node {
        Node::Leaf(data) => {
            if start == 0 && end == data.len() {
                let r = node.clone();
                proof {
                    assert(r.content().subrange(start as int, end as int) =~= r.content());
                }
                r
            } else {
                let mut v: Vec<char> = Vec::new();
                let mut j: usize = start;
                while j < end
                    invariant
                        start <= j <= end,
                        end <= data@.len(),
                        v@ == data@.subrange(start as int, j as int),
                    decreases end - j,
                {
                    v.push(data[j]);
                    proof {
                        assert(v@ =~= data@.subrange(start as int, (j + 1) as int));
                    }
                    j = j + 1;
                }
                Rc::new(Node::Leaf(v))
            }
        },
        Node::Composite { count, head, tail } => {
            let cesure = length(head);
            if end <= cesure {
                let r = sub_node(head, start, end);
                proof {
                    assert(head.content().subrange(start as int, end as int)
                        =~= node.content().subrange(start as int, end as int));
                }
                r
            } else if start >= cesure {
                let r = sub_node(tail, start - cesure, end - cesure);
                proof {
                    assert(tail.content().subrange(start - cesure, end - cesure)
                        =~= node.content().subrange(start as int, end as int));
                }
                r
            } else if start == 0 && end == *count {
                let r = node.clone();
                proof {
                    assert(r.content().subrange(start as int, end as int) =~= r.content());
                }
                r
            } else {
                let left = sub_node(head, start, cesure);
                let right = sub_node(tail, 0, end - cesure);
                let r = concat_nodes(&left, &right);
                proof {
                    assert(left.content() + right.content()
                        =~= node.content().subrange(start as int, end as int));
                }
                r
            }
        },
    }
}

/// A new composite over the two given subtrees, with the cached count.
fn compose(head: Rc<Node>, tail: Rc<Node>) -> (r: Rc<Node>)
    requires
        head.wf(),
        tail.wf(),
        head.content().len() >= 1,
        tail.content().len() >= 1,
        head.content().len() + tail.content().len() <= usize::MAX,
    ensures
        r.wf(),
        r.is_composite(),
        r.spec_head() == head,
        r.spec_tail() == tail,
        r.content() == head.content() + tail.content(),
        head.chunked() && tail.chunked() ==> r.chunked(),
{
    let count = length(&head) + length(&tail);
    Rc::new(Node::Composite { count, head, tail })
}

/// The length of a well-formed node's content fits the machine's size
/// type: a leaf is a vector, and a composite caches the sum as one value.
proof fn lemma_wf_len_fits(node: &Node)
    requires
        node.wf(),
    ensures
        node.content().len() <= usize::MAX,
{
    match node {
        Node::Leaf(data) => {
            axiom_spec_len(data);
        },
        Node::Composite { .. } => {},
    }
}

/// Rotates the tree right: `(A B) C` becomes `A (B C)`. The node is
/// returned unchanged when its head is a leaf. Total length and in-order
/// content are kept exactly.
fn rotate_right(node: &Rc<Node>) -> (r: Rc<Node>)
    requires
        node.wf(),
    ensures
        r.wf(),
        r.content() == node.content(),
        node.is_composite() ==> r.is_composite(),
        node.rotated_right(*r),
        node.chunked() ==> r.chunked(),
{
    match &**node {
        Node::Composite { head, tail, .. } => {
            match &**head {
                Node::Composite { head: a, tail: b, .. } => {
                    proof {
                        assert(head.wf());
                        assert(a.wf() && b.wf());
                    }
                    let tail_count = length(b) + length(tail);
                    let new_tail = Rc::new(Node::Composite {
                        count: tail_count,
                        head: b.clone(),
                        tail: tail.clone(),
                    });
                    let r = compose(a.clone(), new_tail);
                    proof {
                        assert(a.content() + (b.content() + tail.content())
                            =~= node.content());
                        assert(node.chunked() ==> head.chunked() && tail.chunked());
                        assert(head.chunked() ==> a.chunked() && b.chunked());
                    }
                    r
                },
                Node::Leaf(_) => node.clone(),
            }
        },
        Node::Leaf(_) => node.clone(),
    }
}

/// Rotates the tree left: `A (B C)` becomes `(A B) C`. The node is
/// returned unchanged when its tail is a leaf. Total length and in-order
/// content are kept exactly.
fn rotate_left(node: &Rc<Node>) -> (r: Rc<Node>)
    requires
        node.wf(),
    ensures
        r.wf(),
        r.content() == node.content(),
        node.is_composite() ==> r.is_composite(),
        node.rotated_left(*r),
        node.chunked() ==> r.chunked(),
{
    match &**node {
        Node::Composite { head, tail, .. } => {
            match &**tail {
                Node::Composite { head: b, tail: c, .. } => {
                    proof {
                        assert(tail.wf());
                        assert(b.wf() && c.wf());
                    }
                    let head_count = length(head) + length(b);
                    let new_head = Rc::new(Node::Composite {
                        count: head_count,
                        head: head.clone(),
                        tail: b.clone(),
                    });
                    let r = compose(new_head, c.clone());
                    proof {
                        assert((head.content() + b.content()) + c.content()
                            =~= node.content());
                        assert(node.chunked() ==> head.chunked() && tail.chunked());
                        assert(tail.chunked() ==> b.chunked() && c.chunked());
                    }
                    r
                },
                Node::Leaf(_) => node.clone(),
            }
        },
        Node::Leaf(_) => node.clone(),
    }
}

/// Joins two trees into one holding the characters of the first followed
/// by those of the second. A result short enough for one block is merged
/// into a single leaf. Otherwise, when one side is less than half as long
/// as the other and the long side is a composite, the short side is first
/// joined with the nearer half of the long one — after a rotation when
/// the farther half is the smaller — so that repeated edits keep the tree
/// shallow; the two halves are then composed.
pub(crate) fn concat_nodes(node1: &Rc<Node>, node2: &Rc<Node>) -> (r: Rc<Node>)
    requires
        node1.wf(),
        node2.wf(),
        node1.content().len() >= 1,
        node2.content().len() >= 1,
        node1.content().len() + node2.content().len() <= usize::MAX,
    ensures
        r.wf(),
        r.content() == node1.content() + node2.content(),
        node1.chunked() && node2.chunked() ==> r.chunked(),
    decreases node1.content().len() + node2.content().len(),
{
    let len1 = length(node1);
    let len2 = length(node2);
    let total = len1 + len2;
    if total <= BLOCK_SIZE {
        let mut merged: Vec<char> = Vec::new();
        push_range(node1, 0, len1, &mut merged);
        push_range(node2, 0, len2, &mut merged);
        proof {
            assert(merged@ =~= node1.content() + node2.content());
        }
        Rc::new(Node::Leaf(merged))
        // The comparisons below are widened so that doubling cannot overflow.
    } else if 2 * (len1 as u128) < (len2 as u128) && runtime_is_composite(node2) {
        // The head side is too small: join it with the nearer half of the tail.
        let t = if composite_head_longer(node2) {
            rotate_right(node2)
        } else {
            node2.clone()
        };
        match &*t {
            Node::Composite { head: t_head, tail: t_tail, .. } => {
                let new_head = concat_nodes(node1, t_head);
                let r = compose(new_head, t_tail.clone());
                proof {
                    assert((node1.content() + t_head.content()) + t_tail.content()
                        =~= node1.content() + node2.content());
                }
                r
            },
            Node::Leaf(_) => {
                proof {
                    assert(false);
                }
                unreached()
            },
        }
    } else if 2 * (len2 as u128) < (len1 as u128) && runtime_is_composite(node1) {
        // The tail side is too small: join it with the nearer half of the head.
        let h = if composite_tail_longer(node1) {
            rotate_left(node1)
        } else {
            node1.clone()
        };
        match &*h {
            Node::Composite { head: h_head, tail: h_tail, .. } => {
                let new_tail = concat_nodes(h_tail, node2);
                let r = compose(h_head.clone(), new_tail);
                proof {
                    assert(h_head.content() + (h_tail.content() + node2.content())
                        =~= node1.content() + node2.content());
                }
                r
            },
            Node::Leaf(_) => {
                proof {
                    assert(false);
                }
                unreached()
            },
        }
    } else {
        compose(node1.clone(), node2.clone())
    }
}

/// Whether the node is a composite whose head is strictly longer than
/// its tail.
fn composite_head_longer(node: &Node) -> (b: bool)
    requires
        node.wf(),
    ensures
        b == (node matches Node::Composite { head, tail, .. }
            && head.content().len() > tail.content().len()),
{
    match node {
        Node::Composite { head, tail, .. } => length(head) > length(tail),
        Node::Leaf(_) => false,
    }
}

/// Whether the node is a composite whose tail is strictly longer than
/// its head.
fn composite_tail_longer(node: &Node) -> (b: bool)
    requires
        node.wf(),
    ensures
        b == (node matches Node::Composite { head, tail, .. }
            && tail.content().len() > head.content().len()),
{
    match node {
        Node::Composite { head, tail, .. } => length(tail) > length(head),
        Node::Leaf(_) => false,
    }
}

/// Under a well-formed node, no leaf is longer than the node itself:
/// a node short enough for one block therefore has only block-sized
/// leaves.
proof fn lemma_small_is_chunked(node: &Node)
    requires
        node.wf(),
        node.content().len() <= BLOCK_SIZE,
    ensures
        node.chunked(),
    decreases *node,
{
    match node {
        Node::Leaf(_) => {},
        Node::Composite { head, tail, .. } => {
            lemma_small_is_chunked(&**head);
            lemma_small_is_chunked(&**tail);
        },
    }
}

/// Forces the characters `[offset, offset + count)` of a flat node into
/// a tree aligned on block boundaries: a range short enough for one
/// block is cut out directly, a longer one is split near its middle on a
/// block boundary and the halves are composed.
pub(crate) fn node_of(node: &Rc<Node>, offset: usize, count: usize) -> (r: Rc<Node>)
    requires
        node.wf(),
        count >= 1,
        offset + count <= node.content().len(),
    ensures
        r.wf(),
        r.content() == node.content().subrange(offset as int, (offset + count) as int),
        count > BLOCK_SIZE ==> r.is_composite(),
        r.chunked(),
    decreases count,
{
    proof {
        lemma_wf_len_fits(&**node);
    }
    if count <= BLOCK_SIZE {
        let r = sub_node(node, offset, offset + count);
        proof {
            lemma_small_is_chunked(&*r);
        }
        r
    } else {
        // Half the length, rounded down to a block boundary.
        let rough: usize = count / 2 + BLOCK_SIZE / 2;
        proof {
            lemma_fundamental_div_mod(rough as int, BLOCK_SIZE as int);
            lemma_mod_bound(rough as int, BLOCK_SIZE as int);
        }
        let half: usize = rough / BLOCK_SIZE * BLOCK_SIZE;
        assert(BLOCK_SIZE <= half < count);
        let head = node_of(node, offset, half);
        let tail = node_of(node, offset + half, count - half);
        let r = compose(head, tail);
        proof {
            assert(node.content().subrange(offset as int, (offset + half) as int)
                + node.content().subrange((offset + half) as int, (offset + count) as int)
                =~= node.content().subrange(offset as int, (offset + count) as int));
        }
        r
    }
}

/// The depth of a well-formed tree never exceeds its length: both
/// children of a composite hold at least one character.
proof fn lemma_depth_le_len(node: &Node)
    requires
        node.wf(),
    ensures
        node.depth() <= node.content().len(),
    decreases *node,
{
    match node {
        Node::Leaf(_) => {},
        Node::Composite { head, tail, .. } => {
            lemma_depth_le_len(&**head);
            lemma_depth_le_len(&**tail);
        },
    }
}

/// The length of the longest path from the node down to a leaf,
/// measured at run time.
pub(crate) fn depth(node: &Node) -> (d: usize)
    requires
        node.wf(),
    ensures
        d == node.depth(),
    decreases *node,
{
    match node {
        Node::Leaf(_) => 0,
        Node::Composite { head, tail, .. } => {
            proof {
                lemma_depth_le_len(&**head);
                lemma_depth_le_len(&**tail);
            }
            let dh = depth(head);
            let dt = depth(tail);
            if dh >= dt {
                dh + 1
            } else {
                dt + 1
            }
        },
    }
}

/// The content length of the node behind a reference; lets proof code
/// read the length without taking the node itself.
spec fn len_of(node: &Node) -> int {
    node.content().len() as int
}

/// The depth of the node behind a reference; lets proof code read the
/// depth without taking the node itself.
spec fn depth_of(node: &Node) -> nat {
    node.depth()
}

/// A nonempty node that satisfies the balance bound everywhere is
/// shallow: its depth `d` and its length `n` are related by
/// `3^d <= 2^d * n`, so the depth grows at most logarithmically in the
/// length. Under the bound, each child holds less than two thirds of a
/// composite's characters, which gives the step of the induction.
pub proof fn lemma_balanced_depth(node: &Node)
    requires
        node.balanced(),
        node.content().len() >= 1,
    ensures
        pow(3, node.depth()) <= pow(2, node.depth()) * node.content().len(),
    decreases *node,
{
    reveal(pow);
    match node {
        Node::Leaf(_) => {
            assert(node.depth() == 0);
            assert(pow(3, 0) == 1 && pow(2, 0) == 1);
        },
        Node::Composite { head, tail, .. } => {
            let ghost h: int = len_of(&**head);
            let ghost t: int = len_of(&**tail);
            let ghost dh: nat = depth_of(&**head);
            let ghost dt: nat = depth_of(&**tail);
            assert(h >= 1 && t >= 1);
            if dh >= dt {
                lemma_balanced_depth(&**head);
                lemma_pow_positive(2, dh);
                assert(node.depth() == dh + 1);
                assert(pow(3, node.depth()) == 3 * pow(3, dh));
                assert(pow(2, node.depth()) == 2 * pow(2, dh));
                assert(3 * h <= 2 * (h + t));
                assert(3 * (pow(2, dh) * h) <= 2 * pow(2, dh) * (h + t))
                    by (nonlinear_arith)
                    requires
                        pow(2, dh) >= 1,
                        3 * h <= 2 * (h + t),
                ;
            } else {
                lemma_balanced_depth(&**tail);
                lemma_pow_positive(2, dt);
                assert(node.depth() == dt + 1);
                assert(pow(3, node.depth()) == 3 * pow(3, dt));
                assert(pow(2, node.depth()) == 2 * pow(2, dt));
                assert(3 * t <= 2 * (h + t));
                assert(3 * (pow(2, dt) * t) <= 2 * pow(2, dt) * (h + t))
                    by (nonlinear_arith)
                    requires
                        pow(2, dt) >= 1,
                        3 * t <= 2 * (h + t),
                ;
            }
        },
    }
}

} // verus!

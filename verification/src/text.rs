//! The public text value.

use std::rc::Rc;
use vstd::prelude::*;

use crate::node::Node;

verus! {

/// Why a text operation was refused.
#[derive(Clone, Copy, Debug, PartialEq, Eq, Structural)]
pub enum TextError {
    /// An index, offset or count reaches past the end of the text.
    IndexOutOfRange,
    /// A range whose start lies after its end. Ranges are given here as a
    /// start and an unsigned count, so no public operation can form one.
    InvalidRange,
}

/// An immutable text: a handle on one root node. Every operation leaves
/// the receiver untouched and returns a new value that shares all
/// unaffected subtrees with it.
pub struct Text {
    root: Rc<Node>,
}

impl View for Text {
    type V = Seq<char>;

    closed spec fn view(&self) -> Seq<char> {
        self.root.content()
    }
}

impl Text {
    #[verifier::type_invariant]
    spec fn wf(self) -> bool {
        self.root.wf()
    }

    /// The empty text: a zero-length leaf.
    pub fn empty() -> (t: Text)
        ensures
            t@ == Seq::<char>::empty(),
    {
        let v: Vec<char> = Vec::new();
        assert(v@ =~= Seq::<char>::empty());
        Text { root: Rc::new(Node::Leaf(v)) }
    }

    /// A text holding exactly the given characters, as one leaf.
    pub fn create(chars: Vec<char>) -> (t: Text)
        ensures
            t@ == chars@,
    {
        Text { root: Rc::new(Node::Leaf(chars)) }
    }

    /// Number of characters in the text.
    pub fn length(&self) -> (n: usize)
        ensures
            n == self@.len(),
    {
        proof {
            use_type_invariant(self);
        }
        crate::node::length(&self.root)
    }

    /// The character at `index`, or `IndexOutOfRange` when `index` does
    /// not fall within the text.
    pub fn char_at(&self, index: usize) -> (r: Result<char, TextError>)
        ensures
            match r {
                Ok(c) => index < self@.len() && c == self@[index as int],
                Err(e) => index >= self@.len() && e == TextError::IndexOutOfRange,
            },
    {
        proof {
            use_type_invariant(self);
        }
        if index < self.length() {
            Ok(crate::node::char_at(&self.root, index))
        } else {
            Err(TextError::IndexOutOfRange)
        }
    }

    /// Another handle on the same tree.
    fn share(&self) -> (t: Text)
        ensures
            t == *self,
    {
        proof {
            use_type_invariant(self);
        }
        Text { root: self.root.clone() }
    }

    /// Whether the tree behind the text is an inner node rather than one
    /// flat block.
    spec fn tree_is_composite(self) -> bool {
        self.root.is_composite()
    }

    /// A text whose root, when it is one flat block longer than
    /// `BLOCK_SIZE`, is split into a tree aligned on block boundaries;
    /// any other text is handed back as it stands. Run before a
    /// concatenation so that rebalancing has structure to work against.
    fn ensure_chunked(&self) -> (t: Text)
        ensures
            t@ == self@,
            self@.len() > crate::node::BLOCK_SIZE ==> t.tree_is_composite(),
            self@.len() <= crate::node::BLOCK_SIZE || self.tree_is_composite() ==> t == *self,
    {
        proof {
            use_type_invariant(self);
        }
        let len = self.length();
        if len > crate::node::BLOCK_SIZE && !crate::node::runtime_is_composite(&self.root) {
            let root = crate::node::node_of(&self.root, 0, len);
            proof {
                assert(self.root.content().subrange(0, len as int) =~= self@);
            }
            Text { root }
        } else {
            self.share()
        }
    }

    /// The text holding the characters of `self` followed by those of
    /// `other`. When either side is empty the other is returned as it
    /// stands, sharing its tree; otherwise the two trees are joined by
    /// the balancing concatenation, sharing every subtree the join does
    /// not touch.
    pub fn concat(&self, other: &Text) -> (r: Text)
        requires
            self@.len() + other@.len() <= usize::MAX,
        ensures
            r@ == self@ + other@,
            r@.len() == self@.len() + other@.len(),
            other@.len() == 0 ==> r == *self,
            self@.len() == 0 && other@.len() > 0 ==> r == *other,
    {
        proof {
            use_type_invariant(self);
            use_type_invariant(other);
        }
        if other.length() == 0 {
            let r = self.share();
            proof {
                assert(self@ + other@ =~= self@);
            }
            r
        } else if self.length() == 0 {
            let r = other.share();
            proof {
                assert(self@ + other@ =~= other@);
            }
            r
        } else {
            let a = self.ensure_chunked();
            let b = other.ensure_chunked();
            proof {
                use_type_invariant(&a);
                use_type_invariant(&b);
            }
            Text { root: crate::node::concat_nodes(&a.root, &b.root) }
        }
    }

    /// The text holding the `count` characters of `self` that start at
    /// `start`, or `IndexOutOfRange` when that range reaches past the
    /// end. A whole-range request shares the text itself; a zero-width
    /// one returns the canonical empty text.
    pub fn slice(&self, start: usize, count: usize) -> (r: Result<Text, TextError>)
        ensures
            match r {
                Ok(t) => start + count <= self@.len() && t@ == self@.subrange(
                    start as int,
                    (start + count) as int,
                ),
                Err(e) => start + count > self@.len() && e == TextError::IndexOutOfRange,
            },
            start == 0 && count == self@.len() ==> r == Ok::<Text, TextError>(*self),
    {
        proof {
            use_type_invariant(self);
        }
        let len = self.length();
        if start > len || count > len - start {
            return Err(TextError::IndexOutOfRange);
        }
        let end = start + count;
        if start == 0 && end == len {
            let t = self.share();
            proof {
                assert(self@.subrange(0, len as int) =~= self@);
            }
            Ok(t)
        } else if count == 0 {
            let t = Text::empty();
            proof {
                assert(self@.subrange(start as int, start as int) =~= Seq::<char>::empty());
            }
            Ok(t)
        } else {
            Ok(Text { root: crate::node::sub_node(&self.root, start, end) })
        }
    }

    /// The text from `start` to the end of `self`, or `IndexOutOfRange`
    /// when `start` lies past the end.
    pub fn sub_text(&self, start: usize) -> (r: Result<Text, TextError>)
        ensures
            match r {
                Ok(t) => start <= self@.len() && t@ == self@.subrange(
                    start as int,
                    self@.len() as int,
                ),
                Err(e) => start > self@.len() && e == TextError::IndexOutOfRange,
            },
    {
        let len = self.length();
        if start > len {
            return Err(TextError::IndexOutOfRange);
        }
        self.slice(start, len - start)
    }

    /// The text of `self` with the characters of `other` inserted ahead
    /// of position `index`, or `IndexOutOfRange` when `index` lies past
    /// the end. `self` and `other` are left untouched.
    pub fn insert(&self, index: usize, other: &Text) -> (r: Result<Text, TextError>)
        requires
            self@.len() + other@.len() <= usize::MAX,
        ensures
            match r {
                Ok(t) => index <= self@.len() && t@ == self@.subrange(0, index as int) + other@
                    + self@.subrange(index as int, self@.len() as int),
                Err(e) => index > self@.len() && e == TextError::IndexOutOfRange,
            },
    {
        let len = self.length();
        if index > len {
            return Err(TextError::IndexOutOfRange);
        }
        let front = match self.slice(0, index) {
            Ok(t) => t,
            Err(_) => { return Err(TextError::IndexOutOfRange); },
        };
        let back = match self.sub_text(index) {
            Ok(t) => t,
            Err(_) => { return Err(TextError::IndexOutOfRange); },
        };
        Ok(front.concat(other).concat(&back))
    }

    /// The text of `self` without the `count` characters that start at
    /// `start`, or `IndexOutOfRange` when that range reaches past the
    /// end. `self` is left untouched.
    pub fn remove(&self, start: usize, count: usize) -> (r: Result<Text, TextError>)
        ensures
            match r {
                Ok(t) => start + count <= self@.len() && t@ == self@.subrange(0, start as int)
                    + self@.subrange((start + count) as int, self@.len() as int),
                Err(e) => start + count > self@.len() && e == TextError::IndexOutOfRange,
            },
            count == 0 && start <= self@.len() ==> r == Ok::<Text, TextError>(*self),
    {
        proof {
            use_type_invariant(self);
        }
        let len = self.length();
        if start > len || count > len - start {
            return Err(TextError::IndexOutOfRange);
        }
        if count == 0 {
            let t = self.share();
            proof {
                assert(self@.subrange(0, start as int) + self@.subrange(start as int, len as int)
                    =~= self@);
            }
            return Ok(t);
        }
        let end = start + count;
        let chunked = self.ensure_chunked();
        let front = match chunked.slice(0, start) {
            Ok(t) => t,
            Err(_) => { return Err(TextError::IndexOutOfRange); },
        };
        let back = match self.sub_text(end) {
            Ok(t) => t,
            Err(_) => { return Err(TextError::IndexOutOfRange); },
        };
        Ok(front.concat(&back))
    }

    /// The length of the longest path from the root of the tree behind
    /// this text down to a leaf. Structural operations cost one descent,
    /// so this is the measure the balancing in `concat` keeps low.
    pub fn depth(&self) -> (d: usize)
        ensures
            d == self.tree_depth(),
    {
        proof {
            use_type_invariant(self);
        }
        crate::node::depth(&self.root)
    }

    /// The depth of the tree behind the text.
    pub closed spec fn tree_depth(self) -> nat {
        self.root.depth()
    }

    /// Inserting a text of length `n` ahead of a valid position `i` and
    /// then removing the `n` characters that start at `i` gives back the
    /// original content. `u` below is what `insert` returns by its
    /// contract, and the conclusion is what `remove` returns by its
    /// contract applied to `u`.
    pub proof fn lemma_insert_remove_round_trip(t: Seq<char>, s: Seq<char>, i: int)
        requires
            0 <= i <= t.len(),
        ensures
            ({
                let u = t.subrange(0, i) + s + t.subrange(i, t.len() as int);
                u.subrange(0, i) + u.subrange(i + s.len(), u.len() as int) == t
            }),
    {
        let u = t.subrange(0, i) + s + t.subrange(i, t.len() as int);
        assert(u.subrange(0, i) =~= t.subrange(0, i));
        assert(u.subrange(i + s.len(), u.len() as int) =~= t.subrange(i, t.len() as int));
        assert(u.subrange(0, i) + u.subrange(i + s.len(), u.len() as int) =~= t);
    }

    /// The whole text flattened into one contiguous character vector.
    /// This is the only operation whose cost is linear in the length.
    pub fn materialize(&self) -> (v: Vec<char>)
        ensures
            v@ == self@,
    {
        proof {
            use_type_invariant(self);
        }
        let len = self.length();
        let mut out: Vec<char> = Vec::new();
        crate::node::push_range(&self.root, 0, len, &mut out);
        proof {
            assert(out@ =~= self@);
        }
        out
    }
}

} // verus!

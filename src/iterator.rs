//! Lazy, left-to-right iteration over the characters of a rope, driven by an
//! explicit stack of pending subtrees and a cursor into the open leaf.

use vstd::prelude::*;
use vstd::utf8::*;

use crate::rope::RopeNode;
use crate::text::{byte_len, char_len, lemma_before_from, lemma_ends, lemma_step_char, text_from};

verus! {

broadcast use vstd::utf8::encode_utf8_valid_utf8, vstd::utf8::encode_utf8_decode_utf8,
    crate::text::lemma_encode_concat;

/// The text of a stack of pending subtrees: the top (the end of the
/// sequence) first.
pub open spec fn stack_text(nodes: Seq<&RopeNode>) -> Seq<char>
    decreases nodes.len(),
{
    if nodes.len() == 0 {
        Seq::empty()
    } else {
        nodes.last().text() + stack_text(nodes.drop_last())
    }
}

/// The number of nodes in a stack of pending subtrees.
pub open spec fn stack_size(nodes: Seq<&RopeNode>) -> nat
    decreases nodes.len(),
{
    if nodes.len() == 0 {
        0
    } else {
        nodes.last().size() + stack_size(nodes.drop_last())
    }
}

/// An iterator over the characters of a rope. It borrows the rope, walks it
/// once, and cannot be restarted.
pub struct RopeIterator<'a> {
    nodes: Vec<&'a RopeNode>,
    leaf_pos: usize,
    current_leaf: Option<&'a str>,
}

impl<'a> RopeIterator<'a> {
    /// The cursor stands between two characters of the open leaf, and the
    /// pending subtrees are well formed.
    pub closed spec fn wf(&self) -> bool {
        &&& match self.current_leaf {
            Some(s) => {
                &&& self.leaf_pos <= byte_len(s@) <= usize::MAX
                &&& is_char_boundary(encode_utf8(s@), self.leaf_pos as int)
            },
            None => true,
        }
        &&& forall|k: int| 0 <= k < self.nodes@.len() ==> (#[trigger] self.nodes@[k]).wf()
    }

    /// The characters still to come, in order.
    pub closed spec fn remaining(&self) -> Seq<char> {
        let in_leaf = match self.current_leaf {
            Some(s) => text_from(s@, self.leaf_pos as int),
            None => Seq::empty(),
        };
        in_leaf + stack_text(self.nodes@)
    }

    /// An iterator over the text under `root`, or over nothing.
    pub(crate) fn start(root: Option<&'a RopeNode>) -> (it: Self)
        requires
            root matches Some(node) ==> node.wf(),
        ensures
            it.wf(),
            it.remaining() == match root {
                Some(node) => node.text(),
                None => Seq::<char>::empty(),
            },
    {
        match root {
            Some(node) => {
                let it = RopeIterator { nodes: vec![node], leaf_pos: 0, current_leaf: None };
                assert(it.nodes@.drop_last() =~= Seq::<&RopeNode>::empty());
                assert(stack_text(Seq::<&RopeNode>::empty()) == Seq::<char>::empty());
                assert(it.remaining() =~= node.text());
                it
            },
            None => {
                let it = RopeIterator { nodes: Vec::new(), leaf_pos: 0, current_leaf: None };
                assert(stack_text(it.nodes@) == Seq::<char>::empty());
                assert(it.remaining() =~= Seq::<char>::empty());
                it
            },
        }
    }

    /// Returns the next character, or `None` once every character has come.
    pub fn next(&mut self) -> (r: Option<char>)
        requires
            old(self).wf(),
        ensures
            final(self).wf(),
            old(self).remaining().len() == 0 ==> r is None && final(self).remaining().len() == 0,
            old(self).remaining().len() > 0 ==> r == Some(old(self).remaining()[0])
                && final(self).remaining() == old(self).remaining().drop_first(),
    {
        loop
            invariant
                self.wf(),
                self.remaining() == old(self).remaining(),
            decreases stack_size(self.nodes@),
        {
            if let Some(leaf_str) = self.current_leaf {
                if self.leaf_pos < leaf_str.len() {
                    let ghost pos = self.leaf_pos as int;
                    let (_, rest) = leaf_str.split_at(self.leaf_pos);
                    proof {
                        lemma_before_from(leaf_str@, pos);
                        lemma_step_char(leaf_str@, pos);
                        assert(rest@ == decode_utf8(encode_utf8(rest@)));
                    }
                    let c = rest.get_char(0);
                    self.leaf_pos = self.leaf_pos + char_len(c);
                    assert(self.remaining() =~= old(self).remaining().drop_first());
                    return Some(c);
                }
                proof {
                    lemma_ends(leaf_str@);
                }
            }
            self.current_leaf = None;
            let ghost pending = self.nodes@;
            assert(self.remaining() =~= stack_text(pending));
            let next_node = match self.nodes.pop() {
                Some(node) => node,
                None => {
                    return None;
                },
            };
            let ghost below = self.nodes@;
            assert(pending.drop_last() == below);
            match next_node {
                RopeNode::Leaf(text) => {
                    self.leaf_pos = 0;
                    self.current_leaf = Some(text.as_str());
                    proof {
                        lemma_ends(text@);
                    }
                },
                RopeNode::Branch(left, right, _) => {
                    let ghost l: &RopeNode = &**left;
                    let ghost r: &RopeNode = &**right;
                    self.nodes.push(&**right);
                    self.nodes.push(&**left);
                    proof {
                        let pushed = below.push(r);
                        assert(self.nodes@ == pushed.push(l));
                        assert(pushed.push(l).drop_last() =~= pushed);
                        assert(pushed.drop_last() =~= below);
                        assert(stack_text(pushed) == r.text() + stack_text(below));
                        assert(stack_text(self.nodes@) == l.text() + stack_text(pushed));
                        assert(stack_text(self.nodes@) =~= next_node.text() + stack_text(below));
                        assert(stack_size(pushed) == r.size() + stack_size(below));
                        assert(stack_size(self.nodes@) == l.size() + stack_size(pushed));
                    }
                },
            }
        }
    }
}

} // verus!

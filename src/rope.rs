//! The rope: a binary tree whose leaves hold runs of text and whose branches
//! cache the byte length of their left subtree.
//!
//! Structural operations (`len`, `insert`, `delete`, `split`) take byte
//! offsets into the UTF-8 encoding of the text; `index` routes a byte offset
//! through the branches and then counts characters inside the leaf it reaches;
//! iteration yields characters.

use vstd::prelude::*;
use vstd::utf8::*;

use crate::iterator::RopeIterator;
use crate::text::{
    byte_len, count_newlines, lemma_len_le_byte_len, lemma_chars_on_line_concat, lemma_chars_on_line_past, lemma_push_char, line_of, clamp_offset, lemma_before_from, lemma_boundary_within_four, lemma_encode_concat,
    lemma_boundary_concat, lemma_ends, lemma_insert_in_left, lemma_insert_in_right, lemma_insert_len, lemma_split_in_left, lemma_split_in_right, splits_cleanly, text_before, text_from,
};

verus! {

broadcast use vstd::utf8::encode_utf8_valid_utf8, vstd::utf8::encode_utf8_decode_utf8,
    vstd::utf8::is_char_boundary_start_end_of_seq, crate::text::lemma_encode_concat;

/// The most bytes that bulk construction puts in one leaf.
const MAX_LEAF_SIZE: usize = 8;

/// A node of the tree.
#[derive(Debug)]
pub enum RopeNode {
    /// A run of text.
    Leaf(String),
    /// Left child, right child, and the byte length of the left child's text.
    Branch(Box<RopeNode>, Box<RopeNode>, usize),
}

impl RopeNode {
    /// The text under this node: its leaves, left to right.
    pub open spec fn text(self) -> Seq<char>
        decreases self,
    {
        match self {
            RopeNode::Leaf(s) => s@,
            RopeNode::Branch(l, r, _) => l.text() + r.text(),
        }
    }

    /// The byte length of the text under this node.
    pub open spec fn byte_len(self) -> int {
        byte_len(self.text())
    }

    /// Every branch caches the byte length of its left child's text, and no
    /// subtree's text is longer than `usize` can count.
    pub open spec fn wf(self) -> bool
        decreases self,
    {
        &&& self.byte_len() <= usize::MAX
        &&& match self {
            RopeNode::Leaf(_) => true,
            RopeNode::Branch(l, r, left_len) => {
                &&& l.wf()
                &&& r.wf()
                &&& left_len == l.byte_len()
            },
        }
    }

    /// The character that `index` finds: the byte offset `i` chooses a side at
    /// each branch (left when it is below the left text's byte length, else
    /// right, less that length), and in the leaf it reaches the rest of `i`
    /// counts characters.
    pub open spec fn char_at(self, i: int) -> Option<char>
        decreases self,
    {
        match self {
            RopeNode::Leaf(s) => if 0 <= i < s@.len() {
                Some(s@[i])
            } else {
                None
            },
            RopeNode::Branch(l, r, _) => if i < l.byte_len() {
                l.char_at(i)
            } else {
                r.char_at(i - l.byte_len())
            },
        }
    }

    /// The number of branches on the longest path from this node to a leaf.
    pub open spec fn height(self) -> nat
        decreases self,
    {
        match self {
            RopeNode::Leaf(_) => 0,
            RopeNode::Branch(l, r, _) => 1 + if l.height() >= r.height() {
                l.height()
            } else {
                r.height()
            },
        }
    }

    /// The number of nodes in this subtree.
    pub open spec fn size(self) -> nat
        decreases self,
    {
        match self {
            RopeNode::Leaf(_) => 1,
            RopeNode::Branch(l, r, _) => 1 + l.size() + r.size(),
        }
    }
}

/// The texts of a sequence of nodes, one after another.
pub open spec fn texts_of(nodes: Seq<RopeNode>) -> Seq<char>
    decreases nodes.len(),
{
    if nodes.len() == 0 {
        Seq::empty()
    } else {
        texts_of(nodes.drop_last()) + nodes.last().text()
    }
}

/// The greatest height among a sequence of nodes; 0 when there are none.
pub open spec fn max_height(nodes: Seq<RopeNode>) -> nat
    decreases nodes.len(),
{
    if nodes.len() == 0 {
        0
    } else if nodes.last().height() >= max_height(nodes.drop_last()) {
        nodes.last().height()
    } else {
        max_height(nodes.drop_last())
    }
}

/// The least `d` with `n <= 2^d`: the depth a balanced fold of `n` nodes adds.
pub open spec fn ceil_log2(n: nat) -> nat
    decreases n,
{
    if n <= 1 {
        0
    } else {
        1 + ceil_log2(((n + 1) / 2) as nat)
    }
}

/// `ceil_log2` does not decrease.
pub proof fn lemma_ceil_log2_monotone(a: nat, b: nat)
    requires
        a <= b,
    ensures
        ceil_log2(a) <= ceil_log2(b),
    decreases b,
{
    if a > 1 {
        lemma_ceil_log2_monotone(((a + 1) / 2) as nat, ((b + 1) / 2) as nat);
    }
}

/// The greatest height of two sequences of nodes, one after the other.
pub proof fn lemma_max_height_concat(a: Seq<RopeNode>, b: Seq<RopeNode>)
    ensures
        max_height(a + b) == if max_height(a) >= max_height(b) {
            max_height(a)
        } else {
            max_height(b)
        },
    decreases b.len(),
{
    if b.len() == 0 {
        assert(a + b =~= a);
    } else {
        assert((a + b).drop_last() =~= a + b.drop_last());
        lemma_max_height_concat(a, b.drop_last());
    }
}

/// Leaf `k` of `nodes`, cut from `s`, is as long as it can be: text remains
/// more than `MAX_LEAF_SIZE` bytes past its start, and no character boundary
/// lies after its end up to `MAX_LEAF_SIZE` bytes past its start.
spec fn is_longest_cut(s: Seq<char>, nodes: Seq<RopeNode>, k: int) -> bool {
    let start = byte_len(texts_of(nodes.take(k)));
    &&& start + MAX_LEAF_SIZE < byte_len(s)
    &&& forall|j: int|
        start + nodes[k].byte_len() < j <= start + MAX_LEAF_SIZE ==> !is_char_boundary(
            #[trigger] encode_utf8(s),
            j,
        )
}

/// The texts of two sequences of nodes, one after the other.
pub proof fn lemma_texts_of_concat(a: Seq<RopeNode>, b: Seq<RopeNode>)
    ensures
        texts_of(a + b) == texts_of(a) + texts_of(b),
    decreases b.len(),
{
    if b.len() == 0 {
        assert(a + b =~= a);
        assert(texts_of(a) + texts_of(b) =~= texts_of(a));
    } else {
        assert((a + b).drop_last() =~= a + b.drop_last());
        lemma_texts_of_concat(a, b.drop_last());
        assert(texts_of(a + b) =~= texts_of(a) + texts_of(b));
    }
}

/// A text buffer. An empty rope has no root; every read treats that as the
/// empty text.
#[derive(Debug)]
pub struct Rope {
    root: Option<RopeNode>,
}

impl View for Rope {
    type V = Seq<char>;

    /// The text held by the rope.
    closed spec fn view(&self) -> Seq<char> {
        match self.root {
            Some(node) => node.text(),
            None => Seq::empty(),
        }
    }
}

impl Rope {
    #[verifier::type_invariant]
    spec fn inv(self) -> bool {
        match self.root {
            Some(node) => node.wf(),
            None => true,
        }
    }

    /// The byte length of the rope's text.
    pub open spec fn byte_len(&self) -> int {
        byte_len(self@)
    }

    /// The rope has a root; only a rope made empty by `new` (or `default`) has
    /// none.
    pub closed spec fn has_root(&self) -> bool {
        self.root is Some
    }

    /// What `index(i)` returns: see `RopeNode::char_at`.
    pub closed spec fn char_at(&self, i: int) -> Option<char> {
        match self.root {
            Some(node) => node.char_at(i),
            None => None,
        }
    }

    /// Returns an empty rope.
    pub fn new() -> (r: Self)
        ensures
            r@ == Seq::<char>::empty(),
            !r.has_root(),
    {
        Rope { root: None }
    }

    /// Recursively get the byte length of a node's text.
    fn traverse_and_get_len(node: &RopeNode) -> (r: usize)
        requires
            node.byte_len() <= usize::MAX,
        ensures
            r == node.byte_len(),
        decreases node,
    {
        match node {
            RopeNode::Leaf(s) => s.as_str().len(),
            RopeNode::Branch(left, right, _) => {
                Self::traverse_and_get_len(left) + Self::traverse_and_get_len(right)
            },
        }
    }

    /// Returns the byte length of the rope's text.
    pub fn len(&self) -> (r: usize)
        ensures
            r == self.byte_len(),
    {
        proof {
            use_type_invariant(self);
        }
        match &self.root {
            Some(node) => Self::traverse_and_get_len(node),
            None => 0,
        }
    }

    /// Appends the text under `node` to `out`.
    fn traverse_and_collect_text(node: &RopeNode, out: &mut String)
        ensures
            final(out)@ == old(out)@ + node.text(),
        decreases node,
    {
        match node {
            RopeNode::Leaf(s) => out.append(s.as_str()),
            RopeNode::Branch(left, right, _) => {
                Self::traverse_and_collect_text(left, out);
                Self::traverse_and_collect_text(right, out);
                assert(final(out)@ =~= old(out)@ + node.text());
            },
        }
    }

    /// Returns the rope's text. It is always present; an empty rope gives the
    /// empty string.
    pub fn to_string(&self) -> (r: Option<String>)
        ensures
            r is Some,
            r->0@ == self@,
    {
        let mut out = String::new();
        if let Some(node) = &self.root {
            Self::traverse_and_collect_text(node, &mut out);
        }
        Some(out)
    }
    /// Creates a rope from a string slice.
    pub fn from_str(s: &str) -> (r: Self)
        ensures
            r@ == s@,
            r.has_root(),
    {
        let nodes = Self::split_string_to_nodes(s);
        let root = Self::build_tree_from_nodes(nodes);
        Rope { root: Some(root) }
    }

    /// Cuts `s` into leaves of at most `MAX_LEAF_SIZE` bytes each. A cut
    /// falls only between two characters, so a character whose encoding would
    /// straddle the limit goes whole into the next leaf.
    fn split_string_to_nodes(s: &str) -> (nodes: Vec<RopeNode>)
        ensures
            texts_of(nodes@) == s@,
            byte_len(texts_of(nodes@)) <= usize::MAX,
            forall|k: int| 0 <= k < nodes@.len() ==> (#[trigger] nodes@[k]).wf(),
            forall|k: int|
                0 <= k < nodes@.len() ==> (#[trigger] nodes@[k] is Leaf) && 0
                    < nodes@[k].byte_len() <= MAX_LEAF_SIZE,
            forall|k: int| 0 <= k < nodes@.len() - 1 ==> #[trigger] is_longest_cut(s@, nodes@, k),
    {
        // the byte slice's length is a `usize`, which bounds the text's
        let total = s.as_bytes().len();
        assert(total == byte_len(s@));
        let mut nodes: Vec<RopeNode> = Vec::new();
        let mut rest: &str = s;
        assert(texts_of(nodes@) + rest@ =~= s@);
        while rest.len() > MAX_LEAF_SIZE
            invariant
                texts_of(nodes@) + rest@ == s@,
                byte_len(s@) <= usize::MAX,
                forall|k: int| 0 <= k < nodes@.len() ==> (#[trigger] nodes@[k]).wf(),
                forall|k: int|
                    0 <= k < nodes@.len() ==> (#[trigger] nodes@[k] is Leaf) && 0
                        < nodes@[k].byte_len() <= MAX_LEAF_SIZE,
                forall|k: int| 0 <= k < nodes@.len() ==> #[trigger] is_longest_cut(s@, nodes@, k),
            decreases byte_len(rest@),
        {
            let ghost bytes = encode_utf8(rest@);
            proof {
                lemma_encode_concat(texts_of(nodes@), rest@);
                lemma_boundary_within_four(bytes, MAX_LEAF_SIZE as int);
            }
            let mut k: usize = MAX_LEAF_SIZE;
            while !rest.is_char_boundary(k)
                invariant
                    4 < k <= MAX_LEAF_SIZE < bytes.len(),
                    bytes == encode_utf8(rest@),
                    exists|j: int| 4 < j <= k && is_char_boundary(bytes, j),
                    forall|j: int| k < j <= MAX_LEAF_SIZE ==> !is_char_boundary(bytes, j),
                decreases k,
            {
                k = k - 1;
            }
            let (head, tail) = rest.split_at(k);
            proof {
                lemma_before_from(rest@, k as int);
                assert(encode_utf8(head@) == bytes.take(k as int));
                assert(encode_utf8(tail@) == bytes.skip(k as int));
                assert(head@ == decode_utf8(encode_utf8(head@)));
                assert(tail@ == decode_utf8(encode_utf8(tail@)));
            }
            let leaf = RopeNode::Leaf(head.to_string());
            proof {
                let grown = nodes@.push(leaf);
                let n = nodes@.len() as int;
                assert(grown.drop_last() =~= nodes@);
                assert(texts_of(grown) + tail@ =~= texts_of(nodes@) + rest@);
                assert forall|i: int| 0 <= i < n implies #[trigger] is_longest_cut(s@, grown, i) by {
                    assert(grown.take(i) =~= nodes@.take(i));
                    assert(is_longest_cut(s@, nodes@, i));
                }
                let x = encode_utf8(texts_of(nodes@));
                assert(grown.take(n) =~= nodes@);
                assert forall|j: int|
                    x.len() + k < j <= x.len() + MAX_LEAF_SIZE implies !is_char_boundary(
                    #[trigger] encode_utf8(s@),
                    j,
                ) by {
                    lemma_boundary_concat(x, bytes, j);
                }
                assert(is_longest_cut(s@, grown, n));
            }
            nodes.push(leaf);
            rest = tail;
        }
        proof {
            lemma_encode_concat(texts_of(nodes@), rest@);
        }
        if rest.len() > 0 {
            let leaf = RopeNode::Leaf(rest.to_string());
            proof {
                let grown = nodes@.push(leaf);
                assert(grown.drop_last() =~= nodes@);
                assert forall|i: int| 0 <= i < nodes@.len() implies #[trigger] is_longest_cut(
                    s@,
                    grown,
                    i,
                ) by {
                    assert(grown.take(i) =~= nodes@.take(i));
                    assert(is_longest_cut(s@, nodes@, i));
                }
            }
            nodes.push(leaf);
        } else {
            assert(rest@.len() == 0);
            assert(texts_of(nodes@) + rest@ =~= texts_of(nodes@));
        }
        nodes
    }

    /// Folds a sequence of nodes into a balanced tree: the first half goes
    /// left, the rest right. No nodes give one empty leaf, and a single node
    /// comes back as it is, so the tree grows by `ceil_log2` of the count.
    fn build_tree_from_nodes(nodes: Vec<RopeNode>) -> (r: RopeNode)
        requires
            forall|k: int| 0 <= k < nodes@.len() ==> (#[trigger] nodes@[k]).wf(),
            byte_len(texts_of(nodes@)) <= usize::MAX,
        ensures
            r.wf(),
            r.text() == texts_of(nodes@),
            nodes@.len() == 0 ==> (r matches RopeNode::Leaf(s) && s@.len() == 0),
            nodes@.len() == 1 ==> r == nodes@[0],
            nodes@.len() >= 2 ==> (match r {
                RopeNode::Branch(left, right, _) => {
                    &&& left.text() == texts_of(nodes@.take((nodes@.len() / 2) as int))
                    &&& right.text() == texts_of(nodes@.skip((nodes@.len() / 2) as int))
                },
                RopeNode::Leaf(_) => false,
            }),
            r.height() <= max_height(nodes@) + ceil_log2(nodes@.len()),
        decreases nodes@.len(),
    {
        let mut nodes = nodes;
        let count = nodes.len();
        if count == 0 {
            RopeNode::Leaf(String::new())
        } else if count == 1 {
            proof {
                assert(nodes@.drop_last() =~= Seq::<RopeNode>::empty());
                assert(texts_of(Seq::<RopeNode>::empty()) == Seq::<char>::empty());
                assert(texts_of(nodes@) =~= nodes@[0].text());
                assert(max_height(Seq::<RopeNode>::empty()) == 0);
            }
            nodes.pop().unwrap()
        } else {
            let ghost all = nodes@;
            let mid = count / 2;
            let right = nodes.split_off(mid);
            proof {
                assert(all =~= nodes@ + right@);
                assert(nodes@ == all.take(mid as int));
                assert(right@ == all.skip(mid as int));
                lemma_texts_of_concat(nodes@, right@);
                lemma_max_height_concat(nodes@, right@);
                lemma_encode_concat(texts_of(nodes@), texts_of(right@));
                assert(byte_len(texts_of(nodes@)) <= usize::MAX);
                assert(byte_len(texts_of(right@)) <= usize::MAX);
                assert(forall|k: int| 0 <= k < right@.len() ==> right@[k] == all[k + mid]);
                assert((count + 1) / 2 == count - mid);
                lemma_ceil_log2_monotone(mid as nat, (count - mid) as nat);
            }
            let left_node = Self::build_tree_from_nodes(nodes);
            let right_node = Self::build_tree_from_nodes(right);
            let left_length = Self::traverse_and_get_len(&left_node);
            let r = RopeNode::Branch(Box::new(left_node), Box::new(right_node), left_length);
            assert(r.text() == texts_of(all));
            r
        }
    }

    /// Finds the character that `node.char_at(idx)` describes.
    fn traverse_and_find_nth(node: &RopeNode, idx: usize) -> (r: Option<char>)
        requires
            node.wf(),
        ensures
            r == node.char_at(idx as int),
        decreases node,
    {
        match node {
            RopeNode::Leaf(s) => {
                let text = s.as_str();
                if idx < text.unicode_len() {
                    Some(text.get_char(idx))
                } else {
                    None
                }
            },
            RopeNode::Branch(left, right, left_length) => {
                if idx < *left_length {
                    Self::traverse_and_find_nth(left, idx)
                } else {
                    Self::traverse_and_find_nth(right, idx - *left_length)
                }
            },
        }
    }

    /// Returns the character that byte offset `idx` leads to: `idx` picks a
    /// leaf as a byte offset, then counts characters within that leaf. On text
    /// that is all ASCII this is the character at `idx`.
    pub fn index(&self, idx: usize) -> (r: Option<char>)
        ensures
            r == self.char_at(idx as int),
            idx >= self.byte_len() ==> r is None,
            r matches Some(c) ==> self@.contains(c),
    {
        proof {
            use_type_invariant(self);
            if self.root is Some {
                lemma_node_char_at_found(self.root->0, idx as int);
            }
        }
        match &self.root {
            Some(node) => Self::traverse_and_find_nth(node, idx),
            None => None,
        }
    }
    /// Inserts `text` at byte offset `idx` of the text under `node`; an
    /// offset past the end inserts at the end.
    fn traverse_and_insert(node: RopeNode, idx: usize, text: &str) -> (r: RopeNode)
        requires
            node.wf(),
            splits_cleanly(node.text(), idx as int),
            node.byte_len() + byte_len(text@) <= usize::MAX,
        ensures
            r.wf(),
            r.text() == text_before(node.text(), clamp_offset(node.text(), idx as int)) + text@
                + text_from(node.text(), clamp_offset(node.text(), idx as int)),
            r.byte_len() == node.byte_len() + byte_len(text@),
        decreases node,
    {
        let ghost whole = node.text();
        let ghost c = clamp_offset(whole, idx as int);
        proof {
            lemma_insert_len(whole, text@, c);
        }
        match node {
            RopeNode::Leaf(s) => {
                if idx >= s.as_str().len() {
                    // insert at the end
                    proof {
                        lemma_ends(whole);
                        assert(whole + text@ =~= whole + text@ + Seq::<char>::empty());
                    }
                    RopeNode::Leaf(s.concat(text))
                } else {
                    // insert in the middle
                    let (start, end) = s.as_str().split_at(idx);
                    proof {
                        lemma_before_from(whole, c);
                        assert(start@ == decode_utf8(encode_utf8(start@)));
                        assert(end@ == decode_utf8(encode_utf8(end@)));
                    }
                    let new_text = start.to_string().concat(text).concat(end);
                    RopeNode::Leaf(new_text)
                }
            },
            RopeNode::Branch(left, right, left_length) => {
                if idx < left_length {
                    proof {
                        lemma_insert_in_left(left.text(), right.text(), text@, idx as int);
                    }
                    let new_left = Box::new(Self::traverse_and_insert(*left, idx, text));
                    RopeNode::Branch(new_left, right, left_length + text.len())
                } else {
                    proof {
                        lemma_insert_in_right(left.text(), right.text(), text@, idx as int);
                    }
                    let new_right = Box::new(
                        Self::traverse_and_insert(*right, idx - left_length, text),
                    );
                    RopeNode::Branch(left, new_right, left_length)
                }
            },
        }
    }

    /// Inserts `text` at byte offset `idx`; an offset past the end inserts at
    /// the end. An empty rope becomes a single leaf holding `text`.
    pub fn insert(&mut self, idx: usize, text: &str)
        requires
            splits_cleanly(old(self)@, idx as int),
            old(self).byte_len() + byte_len(text@) <= usize::MAX,
        ensures
            final(self)@ == text_before(old(self)@, clamp_offset(old(self)@, idx as int)) + text@
                + text_from(old(self)@, clamp_offset(old(self)@, idx as int)),
            final(self).has_root(),
    {
        proof {
            use_type_invariant(&*self);
            lemma_ends(old(self)@);
        }
        let mut root = None;
        std::mem::swap(&mut root, &mut self.root);
        if let Some(node) = root {
            self.root = Some(Self::traverse_and_insert(node, idx, text));
        } else {
            self.root = Some(RopeNode::Leaf(text.to_string()));
            assert(Seq::<char>::empty() + text@ + Seq::<char>::empty() =~= text@);
        }
    }

    /// Appends `text` at the end of the rope.
    pub fn append(&mut self, text: &str)
        requires
            old(self).byte_len() + byte_len(text@) <= usize::MAX,
        ensures
            final(self)@ == old(self)@ + text@,
            final(self).has_root(),
    {
        let idx = self.len();
        proof {
            lemma_ends(self@);
        }
        self.insert(idx, text);
        assert(old(self)@ + text@ + Seq::<char>::empty() =~= old(self)@ + text@);
    }

    /// Concatenates two ropes. If either is empty the other comes back as it
    /// is; else a new branch joins the two roots. No rebalancing is done.
    pub fn concat(rope1: Rope, rope2: Rope) -> (r: Rope)
        requires
            rope1.byte_len() + rope2.byte_len() <= usize::MAX,
        ensures
            r@ == rope1@ + rope2@,
            !rope1.has_root() ==> r == rope2,
            !rope2.has_root() ==> r == rope1,
            r.has_root() == (rope1.has_root() || rope2.has_root()),
    {
        proof {
            use_type_invariant(&rope1);
            use_type_invariant(&rope2);
            assert(rope1@ + Seq::<char>::empty() =~= rope1@);
            assert(Seq::<char>::empty() + rope2@ =~= rope2@);
        }
        match (rope1.root, rope2.root) {
            (None, None) => Rope::new(),
            (Some(node), None) => Rope { root: Some(node) },
            (None, Some(node)) => Rope { root: Some(node) },
            (Some(left), Some(right)) => {
                let left_length = Self::traverse_and_get_len(&left);
                Rope { root: Some(RopeNode::Branch(Box::new(left), Box::new(right), left_length)) }
            },
        }
    }

    /// Splits the text under `node` at byte offset `idx`.
    fn split_at_node(node: RopeNode, idx: usize) -> (r: (RopeNode, RopeNode))
        requires
            node.wf(),
            idx <= node.byte_len(),
            is_char_boundary(encode_utf8(node.text()), idx as int),
        ensures
            r.0.wf(),
            r.1.wf(),
            r.0.text() == text_before(node.text(), idx as int),
            r.1.text() == text_from(node.text(), idx as int),
        decreases node,
    {
        let ghost whole = node.text();
        proof {
            lemma_before_from(whole, idx as int);
        }
        match node {
            RopeNode::Leaf(s) => {
                let (left, right) = s.as_str().split_at(idx);
                proof {
                    assert(left@ == decode_utf8(encode_utf8(left@)));
                    assert(right@ == decode_utf8(encode_utf8(right@)));
                }
                (RopeNode::Leaf(left.to_string()), RopeNode::Leaf(right.to_string()))
            },
            RopeNode::Branch(left, right, left_length) => {
                let ghost l = left.text();
                let ghost r = right.text();
                if idx <= left_length {
                    proof {
                        lemma_split_in_left(l, r, idx as int);
                        lemma_before_from(l, idx as int);
                        lemma_encode_concat(text_from(l, idx as int), r);
                    }
                    let (new_left, split_off) = Self::split_at_node(*left, idx);
                    (new_left, RopeNode::Branch(Box::new(split_off), right, left_length - idx))
                } else {
                    proof {
                        lemma_split_in_right(l, r, idx as int);
                        lemma_before_from(r, idx - left_length);
                        lemma_encode_concat(l, text_before(r, idx - left_length));
                    }
                    let (split_off, new_right) = Self::split_at_node(*right, idx - left_length);
                    (RopeNode::Branch(left, Box::new(split_off), left_length), new_right)
                }
            },
        }
    }

    /// Splits the rope at byte offset `idx`, clamped to the length, into the
    /// text before it and the text from it on.
    pub fn split(self, idx: usize) -> (r: (Rope, Rope))
        requires
            splits_cleanly(self@, idx as int),
        ensures
            r.0@ == text_before(self@, clamp_offset(self@, idx as int)),
            r.1@ == text_from(self@, clamp_offset(self@, idx as int)),
            r.0.has_root() == self.has_root(),
            r.1.has_root() == self.has_root(),
    {
        proof {
            use_type_invariant(&self);
            lemma_ends(self@);
        }
        let mut idx = idx;
        let len = self.len();
        if len < idx {
            idx = len;
        }
        match self.root {
            None => (Rope::new(), Rope::new()),
            Some(node) => {
                let (left_node, right_node) = Self::split_at_node(node, idx);
                (Rope { root: Some(left_node) }, Rope { root: Some(right_node) })
            },
        }
    }

    /// Deletes the bytes from `start` to `end`, both included. Nothing happens
    /// when `start > end`; an `end` at or past the end deletes to the end.
    pub fn delete(&mut self, start: usize, end: usize)
        requires
            start <= end ==> splits_cleanly(old(self)@, start as int) && splits_cleanly(
                old(self)@,
                end + 1,
            ),
        ensures
            start > end ==> final(self)@ == old(self)@,
            start <= end ==> final(self)@ == text_before(
                old(self)@,
                clamp_offset(old(self)@, start as int),
            ) + text_from(old(self)@, clamp_offset(old(self)@, end + 1)),
    {
        if start > end {
            return;
        }
        proof {
            use_type_invariant(&*self);
        }
        let ghost t = self@;
        let len = self.len();
        let end = if end < len {
            end + 1
        } else {
            len
        };
        let mut root = None;
        std::mem::swap(&mut root, &mut self.root);
        let whole = Rope { root };
        let (pre, suf) = whole.split(end);
        let ghost s = clamp_offset(t, start as int);
        proof {
            lemma_before_from(t, end as int);
            lemma_split_in_left(pre@, suf@, s);
            lemma_before_from(pre@, s);
        }
        let (pre, _) = pre.split(start);
        *self = Rope::concat(pre, suf);
    }
    /// Returns an iterator over the rope's characters, in order.
    pub fn iter<'a>(&'a self) -> (it: RopeIterator<'a>)
        ensures
            it.wf(),
            it.remaining() == self@,
    {
        proof {
            use_type_invariant(self);
        }
        match &self.root {
            Some(node) => RopeIterator::start(Some(node)),
            None => RopeIterator::start(None),
        }
    }

    /// Returns line `n`, counting from 1, with the newline that ends it if
    /// there is one. It is empty when `n` is 0 or past the last line.
    pub fn line(&self, n: usize) -> (r: Vec<char>)
        ensures
            r@ == line_of(self@, n as int),
    {
        let mut line: Vec<char> = Vec::new();
        if n == 0 {
            proof {
                lemma_chars_on_line_past(self@, 0, 1);
            }
            return line;
        }
        let mut chars = self.iter();
        let mut current: usize = 1;
        let ghost mut seen: Seq<char> = Seq::empty();
        assert(seen + chars.remaining() =~= self@);
        loop
            invariant_except_break
                chars.wf(),
                seen + chars.remaining() == self@,
                1 <= current <= n,
                current == 1 + count_newlines(seen),
                line@ == line_of(seen, n as int),
            ensures
                line@ == line_of(self@, n as int),
            decreases chars.remaining().len(),
        {
            let ghost rest = chars.remaining();
            match chars.next() {
                None => {
                    assert(seen =~= self@);
                    break;
                },
                Some(c) => {
                    proof {
                        lemma_push_char(seen, c, n as int);
                        assert(seen.push(c) + chars.remaining() =~= seen + rest);
                        seen = seen.push(c);
                    }
                    if current == n {
                        line.push(c);
                    }
                    if c == '\n' {
                        if current == n {
                            proof {
                                lemma_chars_on_line_concat(seen, chars.remaining(), n as int, 1);
                                lemma_chars_on_line_past(
                                    chars.remaining(),
                                    n as int,
                                    1 + count_newlines(seen) as int,
                                );
                                assert(line_of(self@, n as int) =~= line@);
                            }
                            break;
                        }
                        current = current + 1;
                    }
                },
            }
        }
        line
    }

    /// Returns the number of lines: one more than the number of newlines, so
    /// an empty rope has one line. The count stops at `usize::MAX`.
    pub fn line_count(&self) -> (r: usize)
        ensures
            r == if count_newlines(self@) < usize::MAX {
                count_newlines(self@) + 1
            } else {
                usize::MAX as nat
            },
    {
        let mut chars = self.iter();
        let mut lines: usize = 1;
        let ghost mut seen: Seq<char> = Seq::empty();
        assert(seen + chars.remaining() =~= self@);
        loop
            invariant_except_break
                chars.wf(),
                seen + chars.remaining() == self@,
                lines == if count_newlines(seen) < usize::MAX {
                    count_newlines(seen) + 1
                } else {
                    usize::MAX as nat
                },
            ensures
                lines == if count_newlines(self@) < usize::MAX {
                    count_newlines(self@) + 1
                } else {
                    usize::MAX as nat
                },
            decreases chars.remaining().len(),
        {
            let ghost rest = chars.remaining();
            match chars.next() {
                None => {
                    assert(seen =~= self@);
                    break;
                },
                Some(c) => {
                    proof {
                        lemma_push_char(seen, c, 1);
                        assert(seen.push(c) + chars.remaining() =~= seen + rest);
                        seen = seen.push(c);
                    }
                    if c == '\n' && lines < usize::MAX {
                        lines = lines + 1;
                    }
                },
            }
        }
        lines
    }
}

/// A copy of `node`, equal to it.
fn clone_node(node: &RopeNode) -> (r: RopeNode)
    ensures
        r == *node,
    decreases node,
{
    match node {
        RopeNode::Leaf(s) => RopeNode::Leaf(s.clone()),
        RopeNode::Branch(left, right, left_length) => RopeNode::Branch(
            Box::new(clone_node(left)),
            Box::new(clone_node(right)),
            *left_length,
        ),
    }
}

impl Clone for RopeNode {
    /// A deep copy, equal to `self`.
    fn clone(&self) -> (r: Self)
        ensures
            r == *self,
    {
        clone_node(self)
    }
}

impl Clone for Rope {
    /// A deep copy, equal to `self`.
    fn clone(&self) -> (r: Self)
        ensures
            r == *self,
    {
        proof {
            use_type_invariant(self);
        }
        match &self.root {
            Some(node) => Rope { root: Some(clone_node(node)) },
            None => Rope::new(),
        }
    }
}

impl Default for Rope {
    /// An empty rope.
    fn default() -> (r: Self)
        ensures
            r@ == Seq::<char>::empty(),
            !r.has_root(),
    {
        Rope::new()
    }
}

/// `char_at` finds nothing at or past the end of the node's bytes, and what
/// it finds is a character of the node's text.
proof fn lemma_node_char_at_found(node: RopeNode, i: int)
    ensures
        i >= node.byte_len() ==> node.char_at(i) is None,
        node.char_at(i) matches Some(c) ==> node.text().contains(c),
    decreases node,
{
    match node {
        RopeNode::Leaf(s) => {
            lemma_len_le_byte_len(s@);
            if let Some(c) = node.char_at(i) {
                assert(s@[i] == c);
            }
        },
        RopeNode::Branch(l, r, _) => {
            if i < l.byte_len() {
                lemma_node_char_at_found(*l, i);
                if let Some(c) = node.char_at(i) {
                    let k = choose|k: int| 0 <= k < l.text().len() && l.text()[k] == c;
                    assert(node.text()[k] == c);
                }
            } else {
                lemma_node_char_at_found(*r, i - l.byte_len());
                if let Some(c) = node.char_at(i) {
                    let k = choose|k: int| 0 <= k < r.text().len() && r.text()[k] == c;
                    assert(node.text()[k + l.text().len()] == c);
                }
            }
        },
    }
}

/// On text that is all ASCII, a node's `char_at(i)` is its `i`-th character.
proof fn lemma_node_char_at_ascii(node: RopeNode, i: int)
    requires
        is_ascii_chars(node.text()),
        0 <= i,
    ensures
        node.char_at(i) == if i < node.text().len() {
            Some(node.text()[i])
        } else {
            None
        },
    decreases node,
{
    match node {
        RopeNode::Leaf(_) => {},
        RopeNode::Branch(l, r, _) => {
            is_ascii_chars_concat(node.text(), l.text(), r.text());
            is_ascii_chars_encode_utf8(l.text());
            if i < l.byte_len() {
                lemma_node_char_at_ascii(*l, i);
            } else {
                lemma_node_char_at_ascii(*r, i - l.byte_len());
            }
        },
    }
}

/// Splitting a rope at a byte offset that falls between two characters and
/// concatenating the two halves gives back the rope's text: `split` yields
/// the text before the offset and the text from it on, `concat` joins them,
/// and their byte lengths add up to the rope's, so `concat` accepts them.
pub proof fn lemma_split_then_concat(r: Rope, idx: int)
    requires
        0 <= idx <= r.byte_len(),
        splits_cleanly(r@, idx),
    ensures
        clamp_offset(r@, idx) == idx,
        text_before(r@, idx) + text_from(r@, idx) == r@,
        byte_len(text_before(r@, idx)) + byte_len(text_from(r@, idx)) == r.byte_len(),
{
    lemma_before_from(r@, idx);
}

/// Inserting `t` into the text `s` at a byte offset `i` that falls between
/// two characters gives, in bytes, the bytes of `s` before `i`, then those of
/// `t`, then those of `s` from `i` on.
pub proof fn lemma_insert_bytes(s: Seq<char>, t: Seq<char>, i: int)
    requires
        0 <= i <= byte_len(s),
        splits_cleanly(s, i),
    ensures
        encode_utf8(text_before(s, clamp_offset(s, i)) + t + text_from(s, clamp_offset(s, i)))
            == encode_utf8(s).take(i) + encode_utf8(t) + encode_utf8(s).skip(i),
{
    lemma_before_from(s, i);
    lemma_encode_concat(text_before(s, i), t);
    lemma_encode_concat(text_before(s, i) + t, text_from(s, i));
}

/// Deleting the bytes `start..=end` of the text `s`, with both ends falling
/// between two characters, leaves the bytes of `s` before `start` and those
/// after `end`; an `end` at or past the end deletes to the end.
pub proof fn lemma_delete_bytes(s: Seq<char>, start: int, end: int)
    requires
        0 <= start <= end,
        splits_cleanly(s, start),
        splits_cleanly(s, end + 1),
    ensures
        encode_utf8(
            text_before(s, clamp_offset(s, start)) + text_from(s, clamp_offset(s, end + 1)),
        ) == encode_utf8(s).take(clamp_offset(s, start)) + encode_utf8(s).skip(
            clamp_offset(s, end + 1),
        ),
{
    lemma_before_from(s, clamp_offset(s, start));
    lemma_before_from(s, clamp_offset(s, end + 1));
    lemma_encode_concat(
        text_before(s, clamp_offset(s, start)),
        text_from(s, clamp_offset(s, end + 1)),
    );
}

/// On a rope whose text is all ASCII, `index(i)` is the `i`-th character of
/// the text, and absent for `i` past the end.
pub proof fn lemma_index_ascii(r: Rope, i: int)
    requires
        is_ascii_chars(r@),
        0 <= i,
    ensures
        r.char_at(i) == if i < r@.len() {
            Some(r@[i])
        } else {
            None
        },
{
    match r.root {
        Some(node) => lemma_node_char_at_ascii(node, i),
        None => {},
    }
}

} // verus!

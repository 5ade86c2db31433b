//! Text as the rope sees it: a sequence of characters whose structural
//! operations are addressed by byte offsets into its UTF-8 encoding.
//!
//! This module names the texts on either side of a byte offset, the
//! characters of a numbered line, and the newline count, and proves the
//! UTF-8 facts that the rope's proofs rest on.

use vstd::prelude::*;
use vstd::utf8::*;

verus! {

broadcast use vstd::utf8::encode_utf8_valid_utf8, vstd::utf8::encode_utf8_decode_utf8;

/// The number of bytes in the UTF-8 encoding of `t`.
pub open spec fn byte_len(t: Seq<char>) -> int {
    encode_utf8(t).len() as int
}

/// The byte offset `i`, brought into `0..=byte_len(t)`.
pub open spec fn clamp_offset(t: Seq<char>, i: int) -> int {
    if i < 0 {
        0
    } else if i < byte_len(t) {
        i
    } else {
        byte_len(t)
    }
}

/// Once clamped, the byte offset `i` does not fall inside the encoding of a
/// character of `t`.
pub open spec fn splits_cleanly(t: Seq<char>, i: int) -> bool {
    is_char_boundary(encode_utf8(t), clamp_offset(t, i))
}

/// The characters of `t` whose encoding lies before byte offset `i`.
pub open spec fn text_before(t: Seq<char>, i: int) -> Seq<char> {
    decode_utf8(encode_utf8(t).take(i))
}

/// The characters of `t` whose encoding lies at or after byte offset `i`.
pub open spec fn text_from(t: Seq<char>, i: int) -> Seq<char> {
    decode_utf8(encode_utf8(t).skip(i))
}

/// The number of newline characters in `t`.
pub open spec fn count_newlines(t: Seq<char>) -> nat
    decreases t.len(),
{
    if t.len() == 0 {
        0
    } else {
        (if t[0] == '\n' { 1nat } else { 0nat }) + count_newlines(t.drop_first())
    }
}

/// The characters of `t` that stand on line `n`, when the first character of
/// `t` stands on line `first`: a character's line is `first` plus the number
/// of newlines before it, so each newline ends the line it stands on.
pub open spec fn chars_on_line(t: Seq<char>, n: int, first: int) -> Seq<char>
    decreases t.len(),
{
    if t.len() == 0 {
        Seq::empty()
    } else {
        let next = if t[0] == '\n' { first + 1 } else { first };
        (if first == n { seq![t[0]] } else { Seq::empty() }) + chars_on_line(t.drop_first(), n, next)
    }
}

/// Line `n` of `t`, counting from 1, with its closing newline if it has one.
/// It is empty when `t` has fewer than `n` lines, and for `n == 0`.
pub open spec fn line_of(t: Seq<char>, n: int) -> Seq<char> {
    chars_on_line(t, n, 1)
}

/// The UTF-8 encoding of a concatenation is the concatenation of the encodings.
pub broadcast proof fn lemma_encode_concat(a: Seq<char>, b: Seq<char>)
    ensures
        #[trigger] encode_utf8(a + b) == encode_utf8(a) + encode_utf8(b),
    decreases a.len(),
{
    if a.len() == 0 {
        assert(a + b =~= b);
        assert(encode_utf8(a) + encode_utf8(b) =~= encode_utf8(b));
    } else {
        assert((a + b).drop_first() =~= a.drop_first() + b);
        lemma_encode_concat(a.drop_first(), b);
        assert(encode_utf8(a + b) =~= encode_utf8(a) + encode_utf8(b));
    }
}

/// Decoding two valid encodings one after the other gives the two texts one
/// after the other.
pub proof fn lemma_decode_concat(x: Seq<u8>, y: Seq<u8>)
    requires
        valid_utf8(x),
        valid_utf8(y),
    ensures
        decode_utf8(x + y) == decode_utf8(x) + decode_utf8(y),
{
    let z = decode_utf8(x) + decode_utf8(y);
    decode_utf8_encode_utf8(x);
    decode_utf8_encode_utf8(y);
    lemma_encode_concat(decode_utf8(x), decode_utf8(y));
    assert(encode_utf8(z) == x + y);
}

/// In a concatenation of two valid encodings, the character boundaries are
/// those of the first part and those of the second part, shifted.
pub proof fn lemma_boundary_concat(x: Seq<u8>, y: Seq<u8>, i: int)
    requires
        valid_utf8(x),
        valid_utf8(y),
    ensures
        is_char_boundary(x + y, i) <==> ((0 <= i <= x.len() && is_char_boundary(x, i)) || (x.len()
            <= i && is_char_boundary(y, i - x.len()))),
    decreases x.len(),
{
    valid_utf8_concat(x, y);
    is_char_boundary_start_end_of_seq(x);
    is_char_boundary_start_end_of_seq(y);
    if x.len() == 0 {
        assert(x + y =~= y);
    } else if i <= 0 || i > x.len() + y.len() {
    } else {
        let w = length_of_first_scalar(x);
        assert((x + y)[0] == x[0]);
        assert(length_of_first_scalar(x + y) == w);
        assert(pop_first_scalar(x + y) =~= pop_first_scalar(x) + y);
        assert(valid_utf8(pop_first_scalar(x)));
        lemma_boundary_concat(pop_first_scalar(x), y, i - w);
        assert(is_char_boundary(x + y, i) == is_char_boundary(pop_first_scalar(x) + y, i - w));
        if i <= x.len() {
            assert(is_char_boundary(x, i) == is_char_boundary(pop_first_scalar(x), i - w));
        }
    }
}

/// Every window of four consecutive offsets that ends inside a valid encoding
/// holds a character boundary, since no character takes more than four bytes.
pub proof fn lemma_boundary_within_four(b: Seq<u8>, i: int)
    requires
        valid_utf8(b),
        0 <= i <= b.len(),
    ensures
        exists|j: int| i - 4 < j <= i && is_char_boundary(b, j),
    decreases b.len(),
{
    if i == 0 || b.len() == 0 {
        assert(is_char_boundary(b, 0));
    } else {
        let w = length_of_first_scalar(b);
        if i < w {
            assert(is_char_boundary(b, 0));
        } else {
            lemma_boundary_within_four(pop_first_scalar(b), i - w);
            let j0 = choose|j: int| i - w - 4 < j <= i - w && is_char_boundary(pop_first_scalar(b), j);
            assert(is_char_boundary(b, j0 + w));
        }
    }
}

/// A text has no more characters than its encoding has bytes.
pub proof fn lemma_len_le_byte_len(t: Seq<char>)
    ensures
        t.len() <= byte_len(t),
    decreases t.len(),
{
    if t.len() > 0 {
        lemma_len_le_byte_len(t.drop_first());
    }
}

/// What lies before and from a clean offset, put back together, is the text.
pub proof fn lemma_before_from(t: Seq<char>, i: int)
    requires
        0 <= i <= byte_len(t),
        is_char_boundary(encode_utf8(t), i),
    ensures
        text_before(t, i) + text_from(t, i) == t,
        encode_utf8(text_before(t, i)) == encode_utf8(t).take(i),
        encode_utf8(text_from(t, i)) == encode_utf8(t).skip(i),
{
    let b = encode_utf8(t);
    valid_utf8_split(b, i);
    decode_utf8_split(b, i);
    decode_utf8_encode_utf8(b.take(i));
    decode_utf8_encode_utf8(b.skip(i));
    assert(b.subrange(0, i) == b.take(i));
    assert(b.subrange(i, b.len() as int) == b.skip(i));
}

/// Offset zero leaves everything after it; the end offset everything before.
pub proof fn lemma_ends(t: Seq<char>)
    ensures
        text_before(t, 0) == Seq::<char>::empty(),
        text_from(t, 0) == t,
        text_before(t, byte_len(t)) == t,
        text_from(t, byte_len(t)) == Seq::<char>::empty(),
{
    let b = encode_utf8(t);
    assert(b.take(0) =~= Seq::<u8>::empty());
    assert(b.skip(0) =~= b);
    assert(b.take(b.len() as int) =~= b);
    assert(b.skip(b.len() as int) =~= Seq::<u8>::empty());
    assert(decode_utf8(Seq::<u8>::empty()) =~= Seq::<char>::empty());
}

/// Offsets into `a + b` that fall within `a`.
pub proof fn lemma_split_in_left(a: Seq<char>, b: Seq<char>, i: int)
    requires
        0 <= i <= byte_len(a),
        is_char_boundary(encode_utf8(a + b), i),
    ensures
        is_char_boundary(encode_utf8(a), i),
        text_before(a + b, i) == text_before(a, i),
        text_from(a + b, i) == text_from(a, i) + b,
{
    let x = encode_utf8(a);
    let y = encode_utf8(b);
    lemma_encode_concat(a, b);
    lemma_boundary_concat(x, y, i);
    is_char_boundary_start_end_of_seq(x);
    assert((x + y).take(i) =~= x.take(i));
    assert((x + y).skip(i) =~= x.skip(i) + y);
    valid_utf8_split(x, i);
    assert(x.subrange(i, x.len() as int) == x.skip(i));
    lemma_decode_concat(x.skip(i), y);
}

/// Offsets into `a + b` that fall within `b`.
pub proof fn lemma_split_in_right(a: Seq<char>, b: Seq<char>, i: int)
    requires
        byte_len(a) <= i <= byte_len(a) + byte_len(b),
        is_char_boundary(encode_utf8(a + b), i),
    ensures
        is_char_boundary(encode_utf8(b), i - byte_len(a)),
        text_before(a + b, i) == a + text_before(b, i - byte_len(a)),
        text_from(a + b, i) == text_from(b, i - byte_len(a)),
{
    let x = encode_utf8(a);
    let y = encode_utf8(b);
    let j = i - x.len();
    lemma_encode_concat(a, b);
    lemma_boundary_concat(x, y, i);
    assert((x + y).take(i) =~= x + y.take(j));
    assert((x + y).skip(i) =~= y.skip(j));
    valid_utf8_split(y, j);
    assert(y.subrange(0, j) == y.take(j));
    lemma_decode_concat(x, y.take(j));
}

/// Inserting `t` at a clean offset of `w` adds `t`'s bytes to `w`'s.
pub proof fn lemma_insert_len(w: Seq<char>, t: Seq<char>, c: int)
    requires
        0 <= c <= byte_len(w),
        is_char_boundary(encode_utf8(w), c),
    ensures
        byte_len(text_before(w, c) + t + text_from(w, c)) == byte_len(w) + byte_len(t),
{
    lemma_before_from(w, c);
    lemma_encode_concat(text_before(w, c), t);
    lemma_encode_concat(text_before(w, c) + t, text_from(w, c));
}

/// Inserting into `a + b` at an offset inside `a` is inserting into `a`.
pub proof fn lemma_insert_in_left(a: Seq<char>, b: Seq<char>, t: Seq<char>, i: int)
    requires
        0 <= i < byte_len(a),
        splits_cleanly(a + b, i),
    ensures
        clamp_offset(a, i) == i,
        clamp_offset(a + b, i) == i,
        splits_cleanly(a, i),
        (text_before(a, i) + t + text_from(a, i)) + b == text_before(a + b, i) + t + text_from(
            a + b,
            i,
        ),
{
    lemma_encode_concat(a, b);
    lemma_split_in_left(a, b, i);
    assert((text_before(a, i) + t + text_from(a, i)) + b =~= text_before(a, i) + t + (text_from(
        a,
        i,
    ) + b));
}

/// Inserting into `a + b` at an offset at or past the end of `a` is
/// inserting into `b`.
pub proof fn lemma_insert_in_right(a: Seq<char>, b: Seq<char>, t: Seq<char>, i: int)
    requires
        byte_len(a) <= i,
        splits_cleanly(a + b, i),
    ensures
        splits_cleanly(b, i - byte_len(a)),
        clamp_offset(a + b, i) == byte_len(a) + clamp_offset(b, i - byte_len(a)),
        a + (text_before(b, clamp_offset(b, i - byte_len(a))) + t + text_from(
            b,
            clamp_offset(b, i - byte_len(a)),
        )) == text_before(a + b, clamp_offset(a + b, i)) + t + text_from(
            a + b,
            clamp_offset(a + b, i),
        ),
{
    lemma_encode_concat(a, b);
    let c = clamp_offset(a + b, i);
    lemma_split_in_right(a, b, c);
    let cb = clamp_offset(b, i - byte_len(a));
    assert(a + (text_before(b, cb) + t + text_from(b, cb)) =~= (a + text_before(b, cb)) + t
        + text_from(b, cb));
}

/// Between two texts put together there is a character boundary, and the
/// texts on either side of it are the two parts.
pub proof fn lemma_boundary_between(a: Seq<char>, b: Seq<char>)
    ensures
        is_char_boundary(encode_utf8(a + b), byte_len(a)),
        text_before(a + b, byte_len(a)) == a,
        text_from(a + b, byte_len(a)) == b,
{
    let x = encode_utf8(a);
    let y = encode_utf8(b);
    lemma_encode_concat(a, b);
    is_char_boundary_start_end_of_seq(x);
    lemma_boundary_concat(x, y, x.len() as int);
    assert((x + y).take(x.len() as int) =~= x);
    assert((x + y).skip(x.len() as int) =~= y);
}

/// At a clean offset before the end there is a next character; stepping over
/// its encoding reaches the next clean offset.
pub proof fn lemma_step_char(t: Seq<char>, pos: int)
    requires
        0 <= pos < byte_len(t),
        is_char_boundary(encode_utf8(t), pos),
    ensures
        text_from(t, pos).len() > 0,
        pos + byte_len(seq![text_from(t, pos)[0]]) <= byte_len(t),
        is_char_boundary(encode_utf8(t), pos + byte_len(seq![text_from(t, pos)[0]])),
        text_from(t, pos + byte_len(seq![text_from(t, pos)[0]])) == text_from(t, pos).drop_first(),
{
    lemma_before_from(t, pos);
    let rest = text_from(t, pos);
    assert(encode_utf8(rest).len() > 0);
    if rest.len() == 0 {
        assert(encode_utf8(rest) =~= Seq::<u8>::empty());
    }
    let c = rest[0];
    let before = text_before(t, pos);
    assert(rest =~= seq![c] + rest.drop_first());
    assert(t =~= (before + seq![c]) + rest.drop_first());
    lemma_encode_concat(before, seq![c]);
    lemma_encode_concat(before + seq![c], rest.drop_first());
    lemma_boundary_between(before + seq![c], rest.drop_first());
}

/// The number of bytes in the UTF-8 encoding of `c`.
pub fn char_len(c: char) -> (r: usize)
    ensures
        r == byte_len(seq![c]),
{
    proof {
        char_is_scalar(c);
        assert(seq![c].drop_first() =~= Seq::<char>::empty());
        assert(encode_utf8(seq![c]) == encode_scalar(c as u32) + encode_utf8(Seq::<char>::empty()));
    }
    let v = c as u32;
    if v < 0x80 {
        1
    } else if v < 0x800 {
        2
    } else if v < 0x10000 {
        3
    } else {
        4
    }
}

/// The newline count of a concatenation is the sum of the counts.
pub proof fn lemma_count_newlines_concat(a: Seq<char>, b: Seq<char>)
    ensures
        count_newlines(a + b) == count_newlines(a) + count_newlines(b),
    decreases a.len(),
{
    if a.len() == 0 {
        assert(a + b =~= b);
    } else {
        assert((a + b).drop_first() =~= a.drop_first() + b);
        lemma_count_newlines_concat(a.drop_first(), b);
    }
}

/// The characters on a line, gathered over a concatenation: the second part
/// starts on the line that the first part ends on.
pub proof fn lemma_chars_on_line_concat(a: Seq<char>, b: Seq<char>, n: int, first: int)
    ensures
        chars_on_line(a + b, n, first) == chars_on_line(a, n, first) + chars_on_line(
            b,
            n,
            first + count_newlines(a),
        ),
    decreases a.len(),
{
    if a.len() == 0 {
        assert(a + b =~= b);
        assert(chars_on_line(a, n, first) + chars_on_line(b, n, first) =~= chars_on_line(
            b,
            n,
            first,
        ));
    } else {
        let next = if a[0] == '\n' { first + 1 } else { first };
        assert((a + b).drop_first() =~= a.drop_first() + b);
        lemma_chars_on_line_concat(a.drop_first(), b, n, next);
        let head: Seq<char> = if first == n { seq![a[0]] } else { Seq::empty() };
        assert(head + (chars_on_line(a.drop_first(), n, next) + chars_on_line(
            b,
            n,
            next + count_newlines(a.drop_first()),
        )) =~= (head + chars_on_line(a.drop_first(), n, next)) + chars_on_line(
            b,
            n,
            next + count_newlines(a.drop_first()),
        ));
    }
}

/// Nothing of a text that starts past line `n` stands on line `n`.
pub proof fn lemma_chars_on_line_past(t: Seq<char>, n: int, first: int)
    requires
        first > n,
    ensures
        chars_on_line(t, n, first) == Seq::<char>::empty(),
    decreases t.len(),
{
    if t.len() > 0 {
        let next = if t[0] == '\n' { first + 1 } else { first };
        lemma_chars_on_line_past(t.drop_first(), n, next);
        assert(chars_on_line(t, n, first) =~= Seq::<char>::empty());
    }
}

/// One character more: the newline count and the line's characters grow by
/// what that character adds.
pub proof fn lemma_push_char(t: Seq<char>, c: char, n: int)
    ensures
        count_newlines(t.push(c)) == count_newlines(t) + (if c == '\n' { 1nat } else { 0nat }),
        chars_on_line(t.push(c), n, 1) == chars_on_line(t, n, 1) + (if 1 + count_newlines(t) == n {
            seq![c]
        } else {
            Seq::<char>::empty()
        }),
{
    let one = seq![c];
    assert(t.push(c) =~= t + one);
    assert(one.drop_first() =~= Seq::<char>::empty());
    assert(count_newlines(one.drop_first()) == 0);
    assert(chars_on_line(one.drop_first(), n, 2 + count_newlines(t) as int) =~= Seq::<char>::empty());
    assert(chars_on_line(one.drop_first(), n, 1 + count_newlines(t) as int) =~= Seq::<char>::empty());
    lemma_count_newlines_concat(t, one);
    lemma_chars_on_line_concat(t, one, n, 1);
    let first = 1 + count_newlines(t) as int;
    let head: Seq<char> = if first == n { seq![c] } else { Seq::empty() };
    assert(chars_on_line(one, n, first) =~= head + Seq::<char>::empty());
}

} // verus!

//! Lines of bytes, and the text they encode.

use vstd::prelude::*;
use vstd::slice::{slice_subrange, slice_to_vec};
use vstd::utf8::*;

verus! {

/// The byte that ends a line.
pub const NEWLINE: u8 = 10;

/// The position of the first line end in `b`, or the length of `b`.
pub open spec fn first_newline(b: Seq<u8>) -> nat
    decreases b.len(),
{
    if b.len() == 0 || b[0] == NEWLINE {
        0
    } else {
        1 + first_newline(b.skip(1))
    }
}

/// The lines of `b`: what stands between line ends. There is always one line
/// more than there are line ends, so the last line of `b` is empty where `b` ends
/// with a line end.
pub open spec fn byte_lines(b: Seq<u8>) -> Seq<Seq<u8>>
    decreases b.len(),
{
    let i = first_newline(b) as int;
    if i >= b.len() {
        seq![b]
    } else {
        seq![b.take(i)] + byte_lines(b.skip(i + 1))
    }
}

/// Whether the bytes are whole lines: nothing stands after the last line end.
pub open spec fn terminated(b: Seq<u8>) -> bool {
    b.len() == 0 || b.last() == NEWLINE
}

/// The lines of `b` that have their line end.
pub open spec fn whole_lines(b: Seq<u8>) -> Seq<Seq<u8>> {
    byte_lines(b).drop_last()
}

/// What stands after the last line end of `b`.
pub open spec fn unfinished(b: Seq<u8>) -> Seq<u8> {
    byte_lines(b).last()
}

/// `first_newline` is the first line end's position.
pub proof fn lemma_first_newline_at(b: Seq<u8>, i: int)
    requires
        0 <= i <= b.len(),
        forall|j: int| 0 <= j < i ==> b[j] != NEWLINE,
        i < b.len() ==> b[i] == NEWLINE,
    ensures
        first_newline(b) == i,
    decreases i,
{
    if i > 0 {
        lemma_first_newline_at(b.skip(1), i - 1);
    }
}

/// No line end stands before `first_newline`.
pub proof fn lemma_first_newline_before(b: Seq<u8>)
    ensures
        first_newline(b) <= b.len(),
        forall|j: int| 0 <= j < first_newline(b) ==> b[j] != NEWLINE,
        first_newline(b) < b.len() ==> b[first_newline(b) as int] == NEWLINE,
    decreases b.len(),
{
    if b.len() > 0 && b[0] != NEWLINE {
        lemma_first_newline_before(b.skip(1));
        assert forall|j: int| 0 <= j < first_newline(b) implies b[j] != NEWLINE by {
            if j > 0 {
                assert(b[j] == b.skip(1)[j - 1]);
            }
        }
    }
}

/// A line end parts the lines before it from the lines after it.
pub proof fn lemma_byte_lines_joined(a: Seq<u8>, b: Seq<u8>)
    ensures
        byte_lines(a + seq![NEWLINE] + b) == byte_lines(a) + byte_lines(b),
    decreases a.len(),
{
    let s = a + seq![NEWLINE] + b;
    lemma_first_newline_before(a);
    let i = first_newline(a) as int;
    lemma_first_newline_at(s, i);
    assert(s.take(i) =~= a.take(i));
    if i < a.len() {
        let rest = a.skip(i + 1);
        assert(s.skip(i + 1) =~= rest + seq![NEWLINE] + b);
        lemma_byte_lines_joined(rest, b);
        assert(byte_lines(s) =~= byte_lines(a) + byte_lines(b));
    } else {
        assert(a.take(i) =~= a);
        assert(s.skip(i + 1) =~= b);
    }
}

/// There is at least one line, and no line holds a line end.
pub proof fn lemma_byte_lines(b: Seq<u8>)
    ensures
        byte_lines(b).len() >= 1,
        forall|i: int|
            0 <= i < byte_lines(b).len() ==> !(#[trigger] byte_lines(b)[i]).contains(NEWLINE),
    decreases b.len(),
{
    lemma_first_newline_before(b);
    let i = first_newline(b) as int;
    let head = b.take(i);
    if head.contains(NEWLINE) {
        let j = head.index_of(NEWLINE);
        assert(b[j] == NEWLINE);
    }
    if i < b.len() {
        let rest = b.skip(i + 1);
        lemma_byte_lines(rest);
        assert forall|k: int| 0 <= k < byte_lines(b).len() implies !(#[trigger] byte_lines(
            b,
        )[k]).contains(NEWLINE) by {
            if k > 0 {
                assert(byte_lines(b)[k] == byte_lines(rest)[k - 1]);
            }
        }
    } else {
        assert(head =~= b);
    }
}

/// The position of the first line end at or after `from`, or the length.
pub fn newline_from(b: &[u8], from: usize) -> (r: usize)
    requires
        from <= b@.len(),
    ensures
        r == from + first_newline(b@.skip(from as int)),
        from <= r <= b@.len(),
{
    let mut i: usize = from;
    while i < b.len() && b[i] != NEWLINE
        invariant
            from <= i <= b@.len(),
            forall|j: int| from <= j < i ==> b@[j] != NEWLINE,
        decreases b@.len() - i,
    {
        i = i + 1;
    }
    proof {
        lemma_first_newline_at(b@.skip(from as int), i - from);
    }
    i
}

/// The views of a row of byte strings.
pub open spec fn byte_views(rows: Seq<Vec<u8>>) -> Seq<Seq<u8>> {
    Seq::new(rows.len(), |i: int| rows[i]@)
}

/// The lines of `b`.
pub fn split_lines(b: &[u8]) -> (r: Vec<Vec<u8>>)
    ensures
        byte_views(r@) == byte_lines(b@),
{
    let mut out: Vec<Vec<u8>> = Vec::new();
    let mut from: usize = 0;
    proof {
        assert(b@.skip(0) =~= b@);
        assert(byte_views(out@) + byte_lines(b@) =~= byte_lines(b@));
    }
    loop
        invariant
            from <= b@.len(),
            byte_views(out@) + byte_lines(b@.skip(from as int)) == byte_lines(b@),
        decreases b@.len() - from,
    {
        let ghost before = out@;
        let ghost rest = b@.skip(from as int);
        let end: usize = newline_from(b, from);
        let line: Vec<u8> = slice_to_vec(slice_subrange(b, from, end));
        out.push(line);
        proof {
            assert(byte_views(out@) =~= byte_views(before).push(line@));
        }
        if end == b.len() {
            proof {
                assert(line@ =~= rest);
                assert(byte_views(out@) =~= byte_views(before) + byte_lines(rest));
            }
            return out;
        }
        proof {
            assert(line@ =~= rest.take(end - from));
            assert(rest.skip(end - from + 1) =~= b@.skip(end + 1));
            assert(byte_views(out@) + byte_lines(b@.skip(end + 1)) =~= byte_views(before)
                + byte_lines(rest));
        }
        from = end + 1;
    }
}

/// What `String::from_utf8_lossy` makes of bytes that are not valid UTF-8.
pub uninterp spec fn lossy_utf8(bytes: Seq<u8>) -> Seq<char>;

/// The text for bytes: what they encode, or, where they are not valid UTF-8, the
/// text with replacement characters.
pub open spec fn text_of(bytes: Seq<u8>) -> Seq<char> {
    if valid_utf8(bytes) {
        decode_utf8(bytes)
    } else {
        lossy_utf8(bytes)
    }
}

/// Calls `String::from_utf8_lossy`. Valid UTF-8 gives the text that it encodes.
/// Other bytes give a function of the bytes alone, named `lossy_utf8`: invalid
/// sequences are replaced by U+FFFD and the rest is kept. So bytes with a line end
/// at most at the end give text with a line feed at most at the end.
#[verifier::external_body]
fn std_from_utf8_lossy(bytes: &[u8]) -> (r: String)
    ensures
        valid_utf8(bytes@) ==> r@ == decode_utf8(bytes@),
        !valid_utf8(bytes@) ==> r@ == lossy_utf8(bytes@),
        bytes@.len() > 0 && !bytes@.drop_last().contains(NEWLINE) ==> !r@.drop_last().contains(
            '\n',
        ),
{
    String::from_utf8_lossy(bytes).into_owned()
}

/// The text for bytes, with replacement characters where they are not UTF-8.
pub fn lossy_text(bytes: &[u8]) -> (r: String)
    ensures
        r@ == text_of(bytes@),
        bytes@.len() > 0 && !bytes@.drop_last().contains(NEWLINE) ==> !r@.drop_last().contains(
            '\n',
        ),
{
    std_from_utf8_lossy(bytes)
}

/// Calls `str::from_utf8`: the text that the bytes encode, exactly where they are
/// valid UTF-8.
#[verifier::external_body]
fn std_from_utf8(bytes: &[u8]) -> (r: Option<&str>)
    ensures
        match r {
            Some(s) => valid_utf8(bytes@) && s@ == decode_utf8(bytes@),
            None => !valid_utf8(bytes@),
        },
{
    std::str::from_utf8(bytes).ok()
}

/// The text that the bytes encode, where they are valid UTF-8.
pub fn utf8_text(bytes: &[u8]) -> (r: Option<&str>)
    ensures
        match r {
            Some(s) => valid_utf8(bytes@) && s@ == decode_utf8(bytes@),
            None => !valid_utf8(bytes@),
        },
{
    std_from_utf8(bytes)
}

/// The encoding of two texts in a row is their encodings in a row.
pub proof fn lemma_encode_joined(a: Seq<char>, b: Seq<char>)
    ensures
        encode_utf8(a + b) == encode_utf8(a) + encode_utf8(b),
    decreases a.len(),
{
    if a.len() == 0 {
        assert(a + b =~= b);
        assert(encode_utf8(a) + encode_utf8(b) =~= encode_utf8(b));
    } else {
        assert((a + b).drop_first() =~= a.drop_first() + b);
        lemma_encode_joined(a.drop_first(), b);
        assert(encode_utf8(a + b) =~= encode_utf8(a) + encode_utf8(b));
    }
}

/// A line feed is encoded as one line end.
pub proof fn lemma_encode_newline()
    ensures
        encode_utf8(seq!['\n']) == seq![NEWLINE],
{
    let s = seq!['\n'];
    let c = s[0] as u32;
    assert(c == 10);
    assert(10u32 & 0x7F == 10u32) by (bit_vector);
    assert(s.drop_first() =~= Seq::empty());
    assert(encode_utf8(Seq::<char>::empty()) =~= Seq::empty());
    assert(encode_scalar(c) =~= seq![NEWLINE]);
    assert(encode_utf8(s) =~= seq![NEWLINE]);
}

/// Text without line feeds is encoded without line ends.
pub proof fn lemma_encode_without_newline(s: Seq<char>)
    requires
        !s.contains('\n'),
    ensures
        !encode_utf8(s).contains(NEWLINE),
    decreases s.len(),
{
    if s.len() > 0 {
        let c = s[0] as u32;
        assert(s.contains(s[0]));
        let rest = s.drop_first();
        assert forall|x: char| rest.contains(x) implies s.contains(x) by {
            let i = rest.index_of(x);
            assert(s[i + 1] == x);
        }
        lemma_encode_without_newline(rest);
        char_u32_cast(s[0], c);
        assert(c != 10);
        char_is_scalar(s[0]);
        lemma_scalar_without_newline(c);
        let head = encode_scalar(c);
        let all = head + encode_utf8(rest);
        assert(!all.contains(NEWLINE)) by {
            if all.contains(NEWLINE) {
                let i = all.index_of(NEWLINE);
                if i < head.len() {
                    assert(head[i] == NEWLINE);
                } else {
                    assert(encode_utf8(rest)[i - head.len()] == NEWLINE);
                }
            }
        }
    }
}

/// Bytes without line ends encode text without line feeds.
pub proof fn lemma_decode_without_newline(b: Seq<u8>)
    requires
        valid_utf8(b),
        !b.contains(NEWLINE),
    ensures
        !decode_utf8(b).contains('\n'),
{
    let s = decode_utf8(b);
    decode_utf8_encode_utf8(b);
    if s.contains('\n') {
        let i = s.index_of('\n');
        let head = s.take(i);
        let tail = s.skip(i + 1);
        assert(s =~= head + (seq!['\n'] + tail));
        lemma_encode_joined(head, seq!['\n'] + tail);
        lemma_encode_joined(seq!['\n'], tail);
        lemma_encode_newline();
        assert(b[encode_utf8(head).len() as int] == NEWLINE);
    }
}

proof fn lemma_scalar_without_newline(c: u32)
    requires
        is_scalar(c),
        c != 10,
    ensures
        forall|i: int| 0 <= i < encode_scalar(c).len() ==> encode_scalar(c)[i] != NEWLINE,
{
    assert(c <= 0x7F && c != 10 ==> (c & 0x7F) as u8 != 10) by (bit_vector);
    assert((0xC0 | ((c >> 6) & 0x1F) as u8) >= 0x80u8) by (bit_vector);
    assert((0xE0 | ((c >> 12) & 0x0F) as u8) >= 0x80u8) by (bit_vector);
    assert((0xF0 | ((c >> 18) & 0x07) as u8) >= 0x80u8) by (bit_vector);
    assert((0x80 | (c & 0x3F) as u8) >= 0x80u8) by (bit_vector);
    assert((0x80 | ((c >> 6) & 0x3F) as u8) >= 0x80u8) by (bit_vector);
    assert((0x80 | ((c >> 12) & 0x3F) as u8) >= 0x80u8) by (bit_vector);
}

} // verus!

//! Text primitives: white space, trimming, splitting, upper case, decimals.

use vstd::prelude::*;
use vstd::string::*;

verus! {

/// The views of a sequence of strings.
pub open spec fn views(strings: Seq<String>) -> Seq<Seq<char>> {
    Seq::new(strings.len(), |i: int| strings[i]@)
}

/// The characters with Unicode's `White_Space` property.
pub open spec fn is_white_space(c: char) -> bool {
    let u = c as u32;
    ||| 0x09 <= u <= 0x0D
    ||| u == 0x20
    ||| u == 0x85
    ||| u == 0xA0
    ||| u == 0x1680
    ||| 0x2000 <= u <= 0x200A
    ||| u == 0x2028
    ||| u == 0x2029
    ||| u == 0x202F
    ||| u == 0x205F
    ||| u == 0x3000
}

/// Whether `c` is white space in Unicode's sense.
pub fn is_whitespace(c: char) -> (r: bool)
    ensures
        r == is_white_space(c),
{
    let u: u32 = c as u32;
    (0x09 <= u && u <= 0x0D) || u == 0x20 || u == 0x85 || u == 0xA0 || u == 0x1680 || (0x2000 <= u
        && u <= 0x200A) || u == 0x2028 || u == 0x2029 || u == 0x202F || u == 0x205F || u == 0x3000
}

/// The characters of `s`, in order.
pub fn chars_of(s: &str) -> (r: Vec<char>)
    ensures
        r@ == s@,
{
    let mut out: Vec<char> = Vec::new();
    for c in it: s.chars()
        invariant
            it.seq() == s@,
            out@ == s@.take(it.index() as int),
    {
        out.push(c);
        assert(out@ =~= s@.take(it.index() + 1));
    }
    assert(s@.take(s@.len() as int) =~= s@);
    out
}

/// `s` without its leading white space.
pub open spec fn trimmed_start(s: Seq<char>) -> Seq<char>
    decreases s.len(),
{
    if s.len() > 0 && is_white_space(s[0]) {
        trimmed_start(s.skip(1))
    } else {
        s
    }
}

/// `s` without its trailing white space.
pub open spec fn trimmed_end(s: Seq<char>) -> Seq<char>
    decreases s.len(),
{
    if s.len() > 0 && is_white_space(s.last()) {
        trimmed_end(s.drop_last())
    } else {
        s
    }
}

/// `s` without white space at either end.
pub open spec fn trimmed(s: Seq<char>) -> Seq<char> {
    trimmed_end(trimmed_start(s))
}

proof fn lemma_trimmed_start_at(s: Seq<char>, a: int)
    requires
        0 <= a <= s.len(),
        forall|j: int| 0 <= j < a ==> is_white_space(s[j]),
        a < s.len() ==> !is_white_space(s[a]),
    ensures
        trimmed_start(s) == s.skip(a),
    decreases a,
{
    if a > 0 {
        lemma_trimmed_start_at(s.skip(1), a - 1);
        assert(s.skip(1).skip(a - 1) =~= s.skip(a));
    } else {
        assert(s.skip(0) =~= s);
    }
}

proof fn lemma_trimmed_end_at(s: Seq<char>, b: int)
    requires
        0 <= b <= s.len(),
        forall|j: int| b <= j < s.len() ==> is_white_space(s[j]),
        b > 0 ==> !is_white_space(s[b - 1]),
    ensures
        trimmed_end(s) == s.take(b),
    decreases s.len() - b,
{
    if b < s.len() {
        lemma_trimmed_end_at(s.drop_last(), b);
        assert(s.drop_last().take(b) =~= s.take(b));
    } else {
        assert(s.take(b) =~= s);
    }
}

/// Trimming cuts `s` at the first and after the last character that is not
/// white space.
pub proof fn lemma_trimmed_at(s: Seq<char>, a: int, b: int)
    requires
        0 <= a <= b <= s.len(),
        forall|j: int| 0 <= j < a ==> is_white_space(s[j]),
        forall|j: int| b <= j < s.len() ==> is_white_space(s[j]),
        a < b ==> !is_white_space(s[a]) && !is_white_space(s[b - 1]),
        a == b ==> a == s.len(),
    ensures
        trimmed(s) == s.subrange(a, b),
{
    lemma_trimmed_start_at(s, a);
    lemma_trimmed_end_at(s.skip(a), b - a);
    assert(s.skip(a).take(b - a) =~= s.subrange(a, b));
}

/// What trimming leaves has no white space at either end, and lies within `s`.
pub proof fn lemma_trimmed_ends(s: Seq<char>) -> (bounds: (int, int))
    ensures
        0 <= bounds.0 <= bounds.1 <= s.len(),
        trimmed(s) == s.subrange(bounds.0, bounds.1),
        trimmed(s).len() > 0 ==> !is_white_space(trimmed(s)[0]) && !is_white_space(
            trimmed(s).last(),
        ),
{
    let a = lemma_trimmed_start_bound(s);
    let b = lemma_trimmed_end_bound(s.skip(a));
    assert(s.skip(a).take(b) =~= s.subrange(a, a + b));
    (a, a + b)
}

/// Trimming takes off the white space at both ends, all of it, and nothing else.
pub proof fn law_trimming_takes_off_white_space(s: Seq<char>) -> (bounds: (int, int))
    ensures
        0 <= bounds.0 <= bounds.1 <= s.len(),
        trimmed(s) == s.subrange(bounds.0, bounds.1),
        forall|j: int| 0 <= j < bounds.0 ==> is_white_space(s[j]),
        forall|j: int| bounds.1 <= j < s.len() ==> is_white_space(s[j]),
        bounds.0 < bounds.1 ==> !is_white_space(s[bounds.0]) && !is_white_space(s[bounds.1 - 1]),
{
    let a = lemma_trimmed_start_bound(s);
    let b = lemma_trimmed_end_bound(s.skip(a));
    lemma_leading_white_space(s, a);
    assert(s.skip(a).take(b) =~= s.subrange(a, a + b));
    assert forall|j: int| a + b <= j < s.len() implies is_white_space(s[j]) by {
        assert(s[j] == s.skip(a)[j - a]);
    }
    (a, a + b)
}

proof fn lemma_trimmed_start_bound(s: Seq<char>) -> (a: int)
    ensures
        0 <= a <= s.len(),
        trimmed_start(s) == s.skip(a),
        a < s.len() ==> !is_white_space(s[a]),
    decreases s.len(),
{
    if s.len() > 0 && is_white_space(s[0]) {
        let a = lemma_trimmed_start_bound(s.skip(1));
        assert(s.skip(1).skip(a) =~= s.skip(a + 1));
        a + 1
    } else {
        assert(s.skip(0) =~= s);
        0
    }
}

/// Where trimming the end cuts.
pub proof fn lemma_trimmed_end_bound(s: Seq<char>) -> (b: int)
    ensures
        0 <= b <= s.len(),
        trimmed_end(s) == s.take(b),
        b > 0 ==> !is_white_space(s[b - 1]),
        forall|j: int| b <= j < s.len() ==> is_white_space(s[j]),
    decreases s.len(),
{
    if s.len() > 0 && is_white_space(s.last()) {
        let b = lemma_trimmed_end_bound(s.drop_last());
        assert(s.drop_last().take(b) =~= s.take(b));
        assert forall|j: int| b <= j < s.len() implies is_white_space(s[j]) by {
            if j < s.len() - 1 {
                assert(s[j] == s.drop_last()[j]);
            }
        }
        b
    } else {
        assert(s.take(s.len() as int) =~= s);
        s.len() as int
    }
}

/// Text without white space at either end is what trimming leaves of it.
pub proof fn lemma_trimmed_fixed(s: Seq<char>)
    requires
        s.len() > 0,
        !is_white_space(s[0]),
        !is_white_space(s.last()),
    ensures
        trimmed(s) == s,
{
    lemma_trimmed_at(s, 0, s.len() as int);
    assert(s.subrange(0, s.len() as int) =~= s);
}

/// White space around text does not show once it is trimmed.
pub proof fn lemma_trimmed_padded(before: Seq<char>, s: Seq<char>, after: Seq<char>)
    requires
        forall|j: int| 0 <= j < before.len() ==> is_white_space(before[j]),
        forall|j: int| 0 <= j < after.len() ==> is_white_space(after[j]),
    ensures
        trimmed(before + s + after) == trimmed(s),
{
    let all = before + s + after;
    let a = lemma_trimmed_start_bound(s);
    let n = before.len();
    lemma_leading_white_space(s, a);
    if a == s.len() {
        lemma_trimmed_at(s, a, a);
        lemma_trimmed_at(all, all.len() as int, all.len() as int);
        assert(s.subrange(a, a) =~= all.subrange(all.len() as int, all.len() as int));
    } else {
        let b = lemma_trimmed_end_bound(s);
        lemma_trimmed_at(s, a, b);
        lemma_trimmed_at(all, n + a, n + b);
        assert(all.subrange(n + a, n + b) =~= s.subrange(a, b));
    }
}

proof fn lemma_leading_white_space(s: Seq<char>, a: int)
    requires
        0 <= a <= s.len(),
        trimmed_start(s) == s.skip(a),
    ensures
        forall|j: int| 0 <= j < a ==> is_white_space(s[j]),
    decreases s.len(),
{
    if a > 0 {
        assert(s.skip(a).len() < s.len());
        assert(is_white_space(s[0]));
        assert(s.skip(1).skip(a - 1) =~= s.skip(a));
        lemma_leading_white_space(s.skip(1), a - 1);
        assert forall|j: int| 0 <= j < a implies is_white_space(s[j]) by {
            if j > 0 {
                assert(s[j] == s.skip(1)[j - 1]);
            }
        }
    }
}

/// `s` without white space at either end.
pub fn trim(s: &str) -> (r: &str)
    ensures
        r@ == trimmed(s@),
{
    let chars: Vec<char> = chars_of(s);
    let mut a: usize = 0;
    while a < chars.len() && is_whitespace(chars[a])
        invariant
            a <= chars.len(),
            forall|j: int| 0 <= j < a ==> is_white_space(chars[j]),
        decreases chars.len() - a,
    {
        a = a + 1;
    }
    let mut b: usize = chars.len();
    while b > a && is_whitespace(chars[b - 1])
        invariant
            a <= b <= chars.len(),
            forall|j: int| b <= j < chars.len() ==> is_white_space(chars[j]),
        decreases b,
    {
        b = b - 1;
    }
    proof {
        lemma_trimmed_at(s@, a as int, b as int);
    }
    s.substring_char(a, b)
}

/// `s` without its trailing white space.
pub fn trim_end(s: &str) -> (r: &str)
    ensures
        r@ == trimmed_end(s@),
{
    let chars: Vec<char> = chars_of(s);
    let mut b: usize = chars.len();
    while b > 0 && is_whitespace(chars[b - 1])
        invariant
            b <= chars.len(),
            forall|j: int| b <= j < chars.len() ==> is_white_space(chars[j]),
        decreases b,
    {
        b = b - 1;
    }
    proof {
        lemma_trimmed_end_at(s@, b as int);
        assert(s@.subrange(0, b as int) =~= s@.take(b as int));
    }
    s.substring_char(0, b)
}

/// Whether `s` begins with a space.
pub fn starts_with_space(s: &str) -> (r: bool)
    ensures
        r == (s@.len() > 0 && s@[0] == ' '),
{
    let chars: Vec<char> = chars_of(s);
    chars.len() > 0 && chars[0] == ' '
}

/// What a line is split at.
#[derive(Clone, Copy)]
pub enum Separator {
    /// The space character alone.
    Space,
    /// Any white space character.
    WhiteSpace,
}

impl Separator {
    /// Whether `c` separates.
    pub open spec fn splits(self, c: char) -> bool {
        match self {
            Separator::Space => c == ' ',
            Separator::WhiteSpace => is_white_space(c),
        }
    }

    fn is_at(self, c: char) -> (r: bool)
        ensures
            r == self.splits(c),
    {
        match self {
            Separator::Space => c == ' ',
            Separator::WhiteSpace => is_whitespace(c),
        }
    }
}

/// The position of the first separator in `s`, or the length of `s`.
pub open spec fn first_split(s: Seq<char>, sep: Separator) -> nat
    decreases s.len(),
{
    if s.len() == 0 || sep.splits(s[0]) {
        0
    } else {
        1 + first_split(s.skip(1), sep)
    }
}

/// The pieces of `s` between separators, at most `n` of them (and at least one):
/// the last piece is all that is left, separators included.
pub open spec fn pieces(s: Seq<char>, n: nat, sep: Separator) -> Seq<Seq<char>>
    decreases n,
{
    let i = first_split(s, sep) as int;
    if n <= 1 || i >= s.len() {
        seq![s]
    } else {
        seq![s.take(i)] + pieces(s.skip(i + 1), (n - 1) as nat, sep)
    }
}

/// `first_split` is the first separator's position.
pub proof fn lemma_first_split_at(s: Seq<char>, i: int, sep: Separator)
    requires
        0 <= i <= s.len(),
        forall|j: int| 0 <= j < i ==> !sep.splits(s[j]),
        i < s.len() ==> sep.splits(s[i]),
    ensures
        first_split(s, sep) == i,
    decreases i,
{
    if i > 0 {
        lemma_first_split_at(s.skip(1), i - 1, sep);
    }
}

/// No separator stands before `first_split`.
pub proof fn lemma_first_split_before(s: Seq<char>, sep: Separator)
    ensures
        first_split(s, sep) <= s.len(),
        forall|j: int| 0 <= j < first_split(s, sep) ==> !sep.splits(s[j]),
        first_split(s, sep) < s.len() ==> sep.splits(s[first_split(s, sep) as int]),
    decreases s.len(),
{
    if s.len() > 0 && !sep.splits(s[0]) {
        lemma_first_split_before(s.skip(1), sep);
        assert forall|j: int| 0 <= j < first_split(s, sep) implies !sep.splits(s[j]) by {
            if j > 0 {
                assert(s[j] == s.skip(1)[j - 1]);
            }
        }
    }
}

/// A piece without separators, a separator and more text split off that piece.
pub proof fn lemma_pieces_of_joined(a: Seq<char>, c: char, rest: Seq<char>, n: nat, sep: Separator)
    requires
        n >= 2,
        sep.splits(c),
        forall|j: int| 0 <= j < a.len() ==> !sep.splits(a[j]),
    ensures
        pieces(a + seq![c] + rest, n, sep) == seq![a] + pieces(rest, (n - 1) as nat, sep),
{
    let s = a + seq![c] + rest;
    lemma_first_split_at(s, a.len() as int, sep);
    assert(s.take(a.len() as int) =~= a);
    assert(s.skip(a.len() as int + 1) =~= rest);
}

/// Text without separators is one piece.
pub proof fn lemma_pieces_of_unsplit(a: Seq<char>, n: nat, sep: Separator)
    requires
        forall|j: int| 0 <= j < a.len() ==> !sep.splits(a[j]),
    ensures
        pieces(a, n, sep) == seq![a],
{
    lemma_first_split_at(a, a.len() as int, sep);
}

/// A limit of one piece leaves the text whole.
pub proof fn law_one_piece_is_the_text(s: Seq<char>, sep: Separator)
    ensures
        pieces(s, 1, sep) == seq![s],
{
}

/// What each separator splits at.
pub proof fn law_separators(c: char)
    ensures
        Separator::Space.splits(c) <==> c == ' ',
        Separator::WhiteSpace.splits(c) <==> is_white_space(c),
{
}

/// There are at most `n` pieces; all but an `n`-th one are free of separators;
/// every piece is part of the text, and the last one is the end of it.
pub proof fn lemma_pieces(s: Seq<char>, n: nat, sep: Separator)
    requires
        n >= 1,
    ensures
        1 <= pieces(s, n, sep).len() <= n,
        pieces(s, n, sep).len() == 1 ==> pieces(s, n, sep)[0] == s,
        forall|i: int, j: int|
            0 <= i < pieces(s, n, sep).len() && i < n - 1 && 0 <= j < pieces(s, n, sep)[i].len()
                ==> !sep.splits(#[trigger] pieces(s, n, sep)[i][j]),
        forall|i: int, c: char|
            0 <= i < pieces(s, n, sep).len() && #[trigger] pieces(s, n, sep)[i].contains(c)
                ==> s.contains(c),
        pieces(s, n, sep).last().len() <= s.len(),
        pieces(s, n, sep).last() == s.skip(s.len() - pieces(s, n, sep).last().len()),
        pieces(s, n, sep).len() > 1 && pieces(s, n, sep).last().len() == 0 ==> s.len() > 0
            && sep.splits(s.last()),
    decreases n,
{
    lemma_first_split_before(s, sep);
    let k = first_split(s, sep) as int;
    let all = pieces(s, n, sep);
    if n > 1 && k < s.len() {
        let rest = s.skip(k + 1);
        let tail = pieces(rest, (n - 1) as nat, sep);
        lemma_pieces(rest, (n - 1) as nat, sep);
        assert(all.len() == tail.len() + 1);
        assert forall|i: int, j: int|
            0 <= i < all.len() && i < n - 1 && 0 <= j < all[i].len() implies !sep.splits(
            #[trigger] all[i][j],
        ) by {
            if i > 0 {
                assert(all[i] == tail[i - 1]);
                assert(!sep.splits(tail[i - 1][j]));
            }
        }
        assert forall|i: int, c: char|
            0 <= i < all.len() && #[trigger] all[i].contains(c) implies s.contains(c) by {
            if i > 0 {
                assert(all[i] == tail[i - 1]);
                assert(rest.contains(c));
                let j = rest.index_of(c);
                assert(s[j + k + 1] == c);
            } else {
                let j = all[0].index_of(c);
                assert(s[j] == c);
            }
        }
        assert(all.last() == tail.last());
        assert(rest.skip(rest.len() - tail.last().len()) =~= s.skip(s.len() - tail.last().len()));
        if tail.last().len() == 0 {
            if tail.len() > 1 {
                assert(rest.last() == s.last());
            } else {
                assert(tail[0] == rest);
            }
        }
    } else {
        assert(all =~= seq![s]);
        assert(s.skip(0) =~= s);
    }
}

/// The pieces of `s` between separators, at most `n` of them: the last piece is
/// all that is left.
pub fn splitn(s: &str, n: usize, sep: Separator) -> (r: Vec<String>)
    requires
        n > 0,
    ensures
        views(r@) == pieces(s@, n as nat, sep),
{
    let chars: Vec<char> = chars_of(s);
    let mut out: Vec<String> = Vec::new();
    let mut from: usize = 0;
    let mut i: usize = 0;
    let mut left: usize = n;
    proof {
        assert(s@.skip(0) =~= s@);
        assert(views(out@) + pieces(s@, n as nat, sep) =~= pieces(s@, n as nat, sep));
    }
    while i < chars.len() && left > 1
        invariant
            chars@ == s@,
            0 < left <= n,
            from <= i <= chars.len(),
            forall|j: int| from <= j < i ==> !sep.splits(chars[j]),
            views(out@) + pieces(s@.skip(from as int), left as nat, sep) == pieces(
                s@,
                n as nat,
                sep,
            ),
        decreases chars.len() - i,
    {
        if sep.is_at(chars[i]) {
            let ghost rest = s@.skip(from as int);
            let ghost before = out@;
            proof {
                lemma_first_split_at(rest, i - from, sep);
            }
            let piece: String = s.substring_char(from, i).to_owned();
            out.push(piece);
            proof {
                assert(rest.take(i - from) =~= s@.subrange(from as int, i as int));
                assert(rest.skip(i - from + 1) =~= s@.skip(i + 1));
                assert(views(out@) =~= views(before).push(piece@));
                assert(views(out@) + pieces(s@.skip(i + 1), (left - 1) as nat, sep) =~= views(before)
                    + pieces(rest, left as nat, sep));
            }
            from = i + 1;
            left = left - 1;
        }
        i = i + 1;
    }
    let ghost rest = s@.skip(from as int);
    let ghost before = out@;
    let last: String = s.substring_char(from, chars.len()).to_owned();
    out.push(last);
    proof {
        if left > 1 {
            lemma_first_split_at(rest, rest.len() as int, sep);
        }
        assert(s@.subrange(from as int, s@.len() as int) =~= rest);
        assert(views(out@) =~= views(before) + seq![rest]);
    }
    out
}

/// The upper case of an ASCII letter; any other character as it is.
pub open spec fn ascii_upper(c: char) -> char {
    if 'a' <= c <= 'z' {
        (c as u32 - 32) as char
    } else {
        c
    }
}

/// What `char::to_uppercase` yields for a character that is not ASCII.
pub uninterp spec fn unicode_uppercase(c: char) -> Seq<char>;

/// The upper case of a character. Of ASCII only `a` to `z` change; elsewhere
/// Unicode's mapping decides, which may yield several characters.
pub open spec fn char_uppercase(c: char) -> Seq<char> {
    if c <= '\u{7f}' {
        seq![ascii_upper(c)]
    } else {
        unicode_uppercase(c)
    }
}

/// The upper case of `s`, character by character: the mapping depends on no
/// context.
pub open spec fn uppercase(s: Seq<char>) -> Seq<char>
    decreases s.len(),
{
    if s.len() == 0 {
        Seq::empty()
    } else {
        uppercase(s.drop_last()) + char_uppercase(s.last())
    }
}

/// Calls `char::to_uppercase`, which maps a character without regard to context
/// or language. Of an ASCII character the result is stated in full: a letter from
/// `a` to `z` becomes the capital, any other stays. Of another character it is a
/// function of the character alone, named `unicode_uppercase`.
#[verifier::external_body]
fn std_char_to_uppercase(c: char) -> (r: String)
    ensures
        c <= '\u{7f}' ==> r@ == seq![ascii_upper(c)],
        c > '\u{7f}' ==> r@ == unicode_uppercase(c),
{
    c.to_uppercase().to_string()
}

/// The upper case of `s`.
pub fn to_uppercase(s: &str) -> (r: String)
    ensures
        r@ == uppercase(s@),
{
    let chars: Vec<char> = chars_of(s);
    let mut out: String = String::new();
    let mut i: usize = 0;
    while i < chars.len()
        invariant
            i <= chars.len(),
            chars@ == s@,
            out@ == uppercase(s@.take(i as int)),
        decreases chars.len() - i,
    {
        proof {
            assert(s@.take(i + 1).drop_last() =~= s@.take(i as int));
        }
        out.append(std_char_to_uppercase(chars[i]).as_str());
        i = i + 1;
    }
    proof {
        assert(s@.take(s@.len() as int) =~= s@);
    }
    out
}

/// The upper case of ASCII text changes `a` to `z` and nothing else.
pub proof fn lemma_uppercase_of_ascii(s: Seq<char>)
    requires
        vstd::utf8::is_ascii_chars(s),
    ensures
        uppercase(s) == s.map_values(|c: char| ascii_upper(c)),
    decreases s.len(),
{
    if s.len() > 0 {
        lemma_uppercase_of_ascii(s.drop_last());
        assert(uppercase(s) =~= s.map_values(|c: char| ascii_upper(c)));
    } else {
        assert(uppercase(s) =~= s.map_values(|c: char| ascii_upper(c)));
    }
}

/// The upper case of two texts in a row is their upper cases in a row.
pub proof fn law_uppercase_of_texts_in_a_row(a: Seq<char>, b: Seq<char>)
    ensures
        uppercase(a + b) == uppercase(a) + uppercase(b),
    decreases b.len(),
{
    if b.len() == 0 {
        assert(a + b =~= a);
        assert(uppercase(a) + uppercase(b) =~= uppercase(a));
    } else {
        law_uppercase_of_texts_in_a_row(a, b.drop_last());
        assert((a + b).drop_last() =~= a + b.drop_last());
        assert(uppercase(a + b) =~= uppercase(a) + uppercase(b));
    }
}

/// Texts that differ only in the case of ASCII letters have the same upper case.
pub proof fn lemma_uppercase_ignores_ascii_case(a: Seq<char>, b: Seq<char>)
    requires
        a.len() == b.len(),
        forall|j: int| 0 <= j < a.len() ==> #[trigger] ascii_upper(a[j]) == ascii_upper(b[j]),
    ensures
        uppercase(a) == uppercase(b),
    decreases a.len(),
{
    if a.len() > 0 {
        let n = a.len() - 1;
        assert forall|j: int| 0 <= j < n implies #[trigger] ascii_upper(a.drop_last()[j])
            == ascii_upper(b.drop_last()[j]) by {
            assert(ascii_upper(a[j]) == ascii_upper(b[j]));
        }
        lemma_uppercase_ignores_ascii_case(a.drop_last(), b.drop_last());
        assert(ascii_upper(a[n]) == ascii_upper(b[n]));
    }
}

/// Whether `a` and `b` hold the same text.
pub fn same(a: &str, b: &str) -> (r: bool)
    ensures
        r == (a@ == b@),
{
    a.to_owned() == b.to_owned()
}

/// The text `a` followed by the text `b`.
pub fn concat(a: &str, b: &str) -> (r: String)
    ensures
        r@ == a@ + b@,
{
    let mut out: String = a.to_owned();
    out.append(b);
    out
}

/// The decimal digit for `d`.
pub open spec fn digit(d: nat) -> char {
    ('0' as u32 + d) as char
}

/// `n` in decimal, without leading zeros.
pub open spec fn decimal(n: nat) -> Seq<char>
    decreases n,
{
    if n < 10 {
        seq![digit(n)]
    } else {
        decimal(n / 10).push(digit(n % 10))
    }
}

/// `n` in decimal, with a minus sign where it is negative.
pub open spec fn signed_decimal(n: int) -> Seq<char> {
    if n < 0 {
        seq!['-'] + decimal((-n) as nat)
    } else {
        decimal(n as nat)
    }
}

/// The number that a row of decimal digits stands for.
pub open spec fn number(digits: Seq<char>) -> int
    decreases digits.len(),
{
    if digits.len() == 0 {
        0
    } else {
        10 * number(digits.drop_last()) + (digits.last() as int - '0' as int)
    }
}

/// A number in decimal is a row of digits that stand for it, without leading zeros.
pub proof fn law_decimal_stands_for_the_number(n: nat)
    ensures
        number(decimal(n)) == n,
        decimal(n).len() > 0,
        forall|i: int| 0 <= i < decimal(n).len() ==> '0' <= #[trigger] decimal(n)[i] <= '9',
        n > 0 ==> decimal(n)[0] != '0',
    decreases n,
{
    let last = if n < 10 {
        n
    } else {
        n % 10
    };
    assert(digit(last) as int == '0' as int + last);
    if n < 10 {
        assert(decimal(n).drop_last() =~= Seq::empty());
        assert(number(decimal(n).drop_last()) == 0);
    } else {
        law_decimal_stands_for_the_number(n / 10);
        assert(decimal(n).drop_last() =~= decimal(n / 10));
        assert(decimal(n)[0] == decimal(n / 10)[0]);
    }
}

/// A negative number is written with a minus sign before its magnitude, any other
/// as it is.
pub proof fn law_sign_comes_first(n: nat)
    ensures
        signed_decimal(n as int) == decimal(n),
        n > 0 ==> signed_decimal(-n) == seq!['-'] + decimal(n),
{
}

/// Different numbers are written differently.
pub proof fn lemma_decimal_tells(a: nat, b: nat)
    ensures
        decimal(a) == decimal(b) ==> a == b,
        decimal(a).len() > 0,
        decimal(a)[0] != '-',
    decreases a,
{
    if a >= 10 {
        lemma_decimal_tells(a / 10, b / 10);
    }
    if b >= 10 {
        lemma_decimal_is_not_empty(b / 10);
    }
    if decimal(a) == decimal(b) {
        assert(decimal(a).last() == digit(a % 10));
        assert(decimal(b).last() == digit(b % 10));
        if a >= 10 {
            assert(decimal(a).drop_last() =~= decimal(a / 10));
            lemma_decimal_is_not_empty(a / 10);
        }
        if b >= 10 {
            assert(decimal(b).drop_last() =~= decimal(b / 10));
        }
        assert(a % 10 == b % 10);
    }
}

proof fn lemma_decimal_is_not_empty(n: nat)
    ensures
        decimal(n).len() > 0,
{
}

/// Different numbers are written differently.
pub proof fn lemma_signed_decimal_tells(a: int, b: int)
    ensures
        signed_decimal(a) == signed_decimal(b) ==> a == b,
{
    let x = if a < 0 {
        (-a) as nat
    } else {
        a as nat
    };
    let y = if b < 0 {
        (-b) as nat
    } else {
        b as nat
    };
    lemma_decimal_tells(x, y);
    lemma_decimal_tells(y, x);
    if a < 0 {
        assert(signed_decimal(a).skip(1) =~= decimal(x));
        assert(signed_decimal(a)[0] == '-');
    }
    if b < 0 {
        assert(signed_decimal(b).skip(1) =~= decimal(y));
        assert(signed_decimal(b)[0] == '-');
    }
}

fn digit_str(d: u64) -> (r: &'static str)
    requires
        d < 10,
    ensures
        r@ == seq![digit(d as nat)],
{
    proof {
        reveal_strlit("0");
        reveal_strlit("1");
        reveal_strlit("2");
        reveal_strlit("3");
        reveal_strlit("4");
        reveal_strlit("5");
        reveal_strlit("6");
        reveal_strlit("7");
        reveal_strlit("8");
        reveal_strlit("9");
        assert("0"@ =~= seq!['0'] && "1"@ =~= seq!['1'] && "2"@ =~= seq!['2'] && "3"@ =~= seq!['3']);
        assert("4"@ =~= seq!['4'] && "5"@ =~= seq!['5'] && "6"@ =~= seq!['6'] && "7"@ =~= seq!['7']);
        assert("8"@ =~= seq!['8'] && "9"@ =~= seq!['9']);
    }
    if d == 0 {
        "0"
    } else if d == 1 {
        "1"
    } else if d == 2 {
        "2"
    } else if d == 3 {
        "3"
    } else if d == 4 {
        "4"
    } else if d == 5 {
        "5"
    } else if d == 6 {
        "6"
    } else if d == 7 {
        "7"
    } else if d == 8 {
        "8"
    } else {
        "9"
    }
}

/// `n` in decimal.
pub fn decimal_of(n: u64) -> (r: String)
    ensures
        r@ == decimal(n as nat),
    decreases n,
{
    if n < 10 {
        digit_str(n).to_owned()
    } else {
        let mut out: String = decimal_of(n / 10);
        out.append(digit_str(n % 10));
        proof {
            assert(decimal((n / 10) as nat) + seq![digit((n % 10) as nat)] =~= decimal(n as nat));
        }
        out
    }
}

/// `n` in decimal, with its sign where it is negative.
pub fn signed_decimal_of(n: i64) -> (r: String)
    ensures
        r@ == signed_decimal(n as int),
{
    if n >= 0 {
        return decimal_of(n as u64);
    }
    let magnitude: u64 = if n == i64::MIN {
        0x8000_0000_0000_0000
    } else {
        (-n) as u64
    };
    let mut out: String = "-".to_owned();
    proof {
        reveal_strlit("-");
        assert("-"@ =~= seq!['-']);
    }
    out.append(decimal_of(magnitude).as_str());
    out
}

} // verus!

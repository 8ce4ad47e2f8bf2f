//! Glob patterns for key names.

use vstd::prelude::*;
use crate::text;

verus! {

/// Whether the pattern covers the whole text: `*` stands for any run of
/// characters, `?` for exactly one, every other character for itself.
pub open spec fn matches_glob(pat: Seq<char>, txt: Seq<char>) -> bool
    decreases pat.len(),
{
    if pat.len() == 0 {
        txt.len() == 0
    } else if pat[0] == '*' {
        exists|k: int| 0 <= k <= txt.len() && matches_glob(pat.skip(1), #[trigger] txt.skip(k))
    } else {
        txt.len() > 0 && (pat[0] == '?' || pat[0] == txt[0]) && matches_glob(
            pat.skip(1),
            txt.skip(1),
        )
    }
}

/// A minimal glob matcher: `*` matches any sequence, `?` matches one character,
/// everything else is literal.
pub fn glob_match(pattern: &str, text: &str) -> (r: bool)
    ensures
        r == matches_glob(pattern@, text@),
{
    let pat: Vec<char> = text::chars_of(pattern);
    let txt: Vec<char> = text::chars_of(text);
    glob_match_inner(pat.as_slice(), txt.as_slice())
}

/// A star covers nothing, or one more character than it covers of the text without
/// its first character.
proof fn lemma_star(pat: Seq<char>, txt: Seq<char>)
    requires
        pat.len() > 0,
        pat[0] == '*',
    ensures
        matches_glob(pat, txt) <==> matches_glob(pat.skip(1), txt) || (txt.len() > 0
            && matches_glob(pat, txt.skip(1))),
{
    let rest = pat.skip(1);
    assert(txt.skip(0) =~= txt);
    if matches_glob(pat, txt) {
        let k = choose|k: int| 0 <= k <= txt.len() && matches_glob(rest, #[trigger] txt.skip(k));
        if k > 0 {
            assert(txt.skip(1).skip(k - 1) =~= txt.skip(k));
        }
    }
    if txt.len() > 0 && matches_glob(pat, txt.skip(1)) {
        let tail = txt.skip(1);
        let k = choose|k: int| 0 <= k <= tail.len() && matches_glob(rest, #[trigger] tail.skip(k));
        assert(tail.skip(k) =~= txt.skip(k + 1));
    }
}

/// Which tails of the text the pattern covers: entry `j` tells it of the text
/// without its first `j` characters.
spec fn covers(row: Seq<bool>, pat: Seq<char>, txt: Seq<char>) -> bool {
    &&& row.len() == txt.len() + 1
    &&& forall|j: int| 0 <= j <= txt.len() ==> row[j] == matches_glob(pat, #[trigger] txt.skip(j))
}

/// The row for a pattern with one more `*` in front.
proof fn lemma_star_row(
    before: Seq<bool>,
    after: Seq<bool>,
    pat: Seq<char>,
    txt: Seq<char>,
    j: int,
)
    requires
        pat.len() > 0,
        pat[0] == '*',
        covers(before, pat.skip(1), txt),
        after.len() == before.len(),
        after.last() == before.last(),
        forall|i: int| 0 <= i < txt.len() ==> #[trigger] after[i] == (before[i] || after[i + 1]),
        0 <= j <= txt.len(),
    ensures
        after[j] == matches_glob(pat, txt.skip(j)),
    decreases txt.len() - j,
{
    lemma_star(pat, txt.skip(j));
    assert(before[j] == matches_glob(pat.skip(1), txt.skip(j)));
    if j < txt.len() {
        lemma_star_row(before, after, pat, txt, j + 1);
        assert(txt.skip(j).skip(1) =~= txt.skip(j + 1));
        assert(after[j] == (before[j] || after[j + 1]));
    }
}

/// Turns the row of a pattern into that of the pattern with `*` in front.
fn put_star(row: &mut Vec<bool>)
    requires
        old(row)@.len() > 0,
    ensures
        final(row)@.len() == old(row)@.len(),
        final(row)@.last() == old(row)@.last(),
        forall|i: int|
            0 <= i < old(row)@.len() - 1 ==> #[trigger] final(row)@[i] == (old(row)@[i]
                || final(row)@[i + 1]),
{
    let mut j: usize = row.len() - 1;
    while j > 0
        invariant
            j < row@.len(),
            row@.len() == old(row)@.len(),
            row@.last() == old(row)@.last(),
            forall|i: int| 0 <= i < j ==> row@[i] == old(row)@[i],
            forall|i: int|
                j <= i < row@.len() - 1 ==> #[trigger] row@[i] == (old(row)@[i] || row@[i + 1]),
        decreases j,
    {
        j = j - 1;
        let covered: bool = row[j] || row[j + 1];
        row[j] = covered;
    }
}

/// Turns the row of a pattern into that of the pattern with another character in
/// front.
fn put_one(row: &mut Vec<bool>, c: char, txt: &[char])
    requires
        old(row)@.len() == txt@.len() + 1,
    ensures
        final(row)@.len() == old(row)@.len(),
        !final(row)@.last(),
        forall|i: int|
            0 <= i < txt@.len() ==> #[trigger] final(row)@[i] == ((c == '?' || c == txt@[i])
                && old(row)@[i + 1]),
{
    let n: usize = txt.len();
    let mut j: usize = 0;
    while j < n
        invariant
            j <= n,
            n == txt@.len(),
            row@.len() == n + 1,
            old(row)@.len() == n + 1,
            forall|i: int| j <= i <= n ==> row@[i] == old(row)@[i],
            forall|i: int|
                0 <= i < j ==> #[trigger] row@[i] == ((c == '?' || c == txt@[i])
                    && old(row)@[i + 1]),
        decreases n - j,
    {
        let covered: bool = (c == '?' || c == txt[j]) && row[j + 1];
        row[j] = covered;
        j = j + 1;
    }
    row[n] = false;
}

/// The matcher on characters. It goes through the pattern from its end, and keeps
/// for every tail of the text whether the pattern so far covers it, so its work
/// grows with the product of the two lengths.
pub fn glob_match_inner(pat: &[char], txt: &[char]) -> (r: bool)
    ensures
        r == matches_glob(pat@, txt@),
{
    let n: usize = txt.len();
    let mut row: Vec<bool> = Vec::new();
    let mut j: usize = 0;
    while j < n
        invariant
            j <= n,
            row@ == Seq::new(j as nat, |i: int| false),
        decreases n - j,
    {
        row.push(false);
        j = j + 1;
        proof {
            assert(row@ =~= Seq::new(j as nat, |i: int| false));
        }
    }
    row.push(true);
    let mut i: usize = pat.len();
    proof {
        assert(covers(row@, pat@.skip(i as int), txt@));
    }
    while i > 0
        invariant
            i <= pat@.len(),
            covers(row@, pat@.skip(i as int), txt@),
        decreases i,
    {
        i = i - 1;
        let ghost before = row@;
        let ghost now = pat@.skip(i as int);
        proof {
            assert(now.skip(1) =~= pat@.skip(i + 1));
        }
        if pat[i] == '*' {
            put_star(&mut row);
            proof {
                assert forall|k: int| 0 <= k <= txt@.len() implies row@[k] == matches_glob(
                    now,
                    #[trigger] txt@.skip(k),
                ) by {
                    lemma_star_row(before, row@, now, txt@, k);
                }
            }
        } else {
            put_one(&mut row, pat[i], txt);
            proof {
                assert forall|k: int| 0 <= k <= txt@.len() implies row@[k] == matches_glob(
                    now,
                    #[trigger] txt@.skip(k),
                ) by {
                    if k < txt@.len() {
                        assert(txt@.skip(k).skip(1) =~= txt@.skip(k + 1));
                        assert(before[k + 1] == matches_glob(now.skip(1), txt@.skip(k + 1)));
                    }
                }
            }
        }
    }
    proof {
        assert(pat@.skip(0) =~= pat@);
        assert(txt@.skip(0) =~= txt@);
    }
    row[0]
}

/// The pattern `*` matches every text.
pub proof fn law_star_matches_everything(txt: Seq<char>)
    ensures
        matches_glob("*"@, txt),
{
    reveal_strlit("*");
    let rest = "*"@.skip(1);
    assert(matches_glob(rest, txt.skip(txt.len() as int)));
}

/// A leading `*` matches a text exactly when the rest of the pattern matches one
/// of the text's tails.
pub proof fn law_star_matches_any_run(pat: Seq<char>, txt: Seq<char>)
    ensures
        matches_glob(seq!['*'] + pat, txt) <==> exists|k: int|
            0 <= k <= txt.len() && matches_glob(pat, #[trigger] txt.skip(k)),
{
    assert((seq!['*'] + pat).skip(1) =~= pat);
}

/// Two patterns in a row cover what the first and then the second covers.
pub proof fn law_patterns_in_a_row(a: Seq<char>, b: Seq<char>, txt: Seq<char>)
    ensures
        matches_glob(a + b, txt) <==> exists|k: int|
            0 <= k <= txt.len() && matches_glob(a, txt.take(k)) && matches_glob(
                b,
                #[trigger] txt.skip(k),
            ),
    decreases a.len(),
{
    let parts = |k: int|
        0 <= k <= txt.len() && matches_glob(a, txt.take(k)) && matches_glob(b, txt.skip(k));
    if a.len() == 0 {
        assert(a + b =~= b);
        assert(txt.skip(0) =~= txt);
        assert(txt.take(0) =~= Seq::empty());
        assert(matches_glob(a, txt.take(0)));
    } else {
        let rest = a.skip(1);
        assert((a + b).skip(1) =~= rest + b);
        if a[0] == '*' {
            if matches_glob(a + b, txt) {
                let j = choose|j: int|
                    0 <= j <= txt.len() && matches_glob(rest + b, #[trigger] txt.skip(j));
                let tail = txt.skip(j);
                law_patterns_in_a_row(rest, b, tail);
                let k = choose|k: int|
                    0 <= k <= tail.len() && matches_glob(rest, tail.take(k)) && matches_glob(
                        b,
                        #[trigger] tail.skip(k),
                    );
                assert(tail.skip(k) =~= txt.skip(j + k));
                assert(tail.take(k) =~= txt.take(j + k).skip(j));
                assert(parts(j + k));
            }
            if exists|k: int| #[trigger] parts(k) {
                let k = choose|k: int| #[trigger] parts(k);
                let head = txt.take(k);
                let j = choose|j: int|
                    0 <= j <= head.len() && matches_glob(rest, #[trigger] head.skip(j));
                let tail = txt.skip(j);
                assert(tail.take(k - j) =~= head.skip(j));
                assert(tail.skip(k - j) =~= txt.skip(k));
                law_patterns_in_a_row(rest, b, tail);
            }
        } else {
            if txt.len() > 0 {
                law_patterns_in_a_row(rest, b, txt.skip(1));
            }
            if matches_glob(a + b, txt) {
                let tail = txt.skip(1);
                let k = choose|k: int|
                    0 <= k <= tail.len() && matches_glob(rest, tail.take(k)) && matches_glob(
                        b,
                        #[trigger] tail.skip(k),
                    );
                assert(tail.skip(k) =~= txt.skip(k + 1));
                assert(tail.take(k) =~= txt.take(k + 1).skip(1));
                assert(parts(k + 1));
            }
            if exists|k: int| #[trigger] parts(k) {
                let k = choose|k: int| #[trigger] parts(k);
                let tail = txt.skip(1);
                assert(tail.take(k - 1) =~= txt.take(k).skip(1));
                assert(tail.skip(k - 1) =~= txt.skip(k));
            }
        }
    }
    assert forall|k: int|
        0 <= k <= txt.len() && matches_glob(a, txt.take(k)) && matches_glob(
            b,
            #[trigger] txt.skip(k),
        ) implies parts(k) by {}
}

/// A leading `?` matches exactly one character, whichever it is.
pub proof fn law_question_mark_matches_one(pat: Seq<char>, txt: Seq<char>)
    ensures
        matches_glob(seq!['?'] + pat, txt) <==> txt.len() > 0 && matches_glob(pat, txt.skip(1)),
{
    assert((seq!['?'] + pat).skip(1) =~= pat);
}

/// A pattern without wildcards matches itself and nothing else.
pub proof fn law_literal_matches_itself(pat: Seq<char>, txt: Seq<char>)
    requires
        !pat.contains('*'),
        !pat.contains('?'),
    ensures
        matches_glob(pat, txt) <==> pat == txt,
    decreases pat.len(),
{
    if pat.len() > 0 {
        assert(pat.contains(pat[0]));
        let rest = pat.skip(1);
        assert forall|c: char| rest.contains(c) implies pat.contains(c) by {
            let i = rest.index_of(c);
            assert(pat[i + 1] == c);
        }
        if txt.len() > 0 {
            law_literal_matches_itself(rest, txt.skip(1));
            if pat[0] == txt[0] && rest == txt.skip(1) {
                assert(pat =~= seq![pat[0]] + rest);
                assert(txt =~= seq![txt[0]] + txt.skip(1));
            }
        }
    } else {
        assert(txt.len() == 0 ==> pat =~= txt);
    }
}

/// A literal prefix followed by `*` matches exactly the texts that begin with the
/// prefix.
pub proof fn law_prefix_star(prefix: Seq<char>, txt: Seq<char>)
    requires
        !prefix.contains('*'),
        !prefix.contains('?'),
    ensures
        matches_glob(prefix + seq!['*'], txt) <==> prefix.is_prefix_of(txt),
    decreases prefix.len(),
{
    let pat = prefix + seq!['*'];
    if prefix.len() == 0 {
        reveal_strlit("*");
        assert(pat =~= "*"@);
        law_star_matches_everything(txt);
    } else {
        assert(prefix.contains(prefix[0]));
        let rest = prefix.skip(1);
        assert forall|c: char| rest.contains(c) implies prefix.contains(c) by {
            let i = rest.index_of(c);
            assert(prefix[i + 1] == c);
        }
        assert(pat.skip(1) =~= rest + seq!['*']);
        if txt.len() > 0 {
            law_prefix_star(rest, txt.skip(1));
            if prefix.is_prefix_of(txt) {
                assert(rest =~= txt.skip(1).subrange(0, rest.len() as int));
            }
            if prefix[0] == txt[0] && rest.is_prefix_of(txt.skip(1)) {
                assert forall|j: int| 0 <= j < prefix.len() implies prefix[j] == txt[j] by {
                    if j > 0 {
                        assert(prefix[j] == rest[j - 1]);
                        assert(rest[j - 1] == txt.skip(1).subrange(0, rest.len() as int)[j - 1]);
                    }
                }
                assert(prefix =~= txt.subrange(0, prefix.len() as int));
            }
        }
    }
}

} // verus!

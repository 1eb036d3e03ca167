//! Text as sequences of characters: whitespace as `char::is_whitespace`
//! knows it, trimming, and the splitting that `str::split` and
//! `str::split_whitespace` do.
use vstd::prelude::*;

verus! {

// ---------------------------------------------------------------------------
// Model
// ---------------------------------------------------------------------------

/// The characters with the Unicode `White_Space` property, which are those
/// for which `char::is_whitespace` holds.
pub open spec fn is_whitespace(c: char) -> bool {
    ||| '\t' <= c && c <= '\r'
    ||| c == ' '
    ||| c == '\u{85}'
    ||| c == '\u{a0}'
    ||| c == '\u{1680}'
    ||| '\u{2000}' <= c && c <= '\u{200a}'
    ||| c == '\u{2028}'
    ||| c == '\u{2029}'
    ||| c == '\u{202f}'
    ||| c == '\u{205f}'
    ||| c == '\u{3000}'
}

pub open spec fn trim_start(s: Seq<char>) -> Seq<char>
    decreases s.len(),
{
    if s.len() > 0 && is_whitespace(s[0]) {
        trim_start(s.drop_first())
    } else {
        s
    }
}

pub open spec fn trim_end(s: Seq<char>) -> Seq<char>
    decreases s.len(),
{
    if s.len() > 0 && is_whitespace(s.last()) {
        trim_end(s.drop_last())
    } else {
        s
    }
}

/// `str::trim`: whitespace removed from both ends.
pub open spec fn trim(s: Seq<char>) -> Seq<char> {
    trim_end(trim_start(s))
}

/// How many characters come before the first `sep` (all of them if none is).
pub open spec fn piece_len(s: Seq<char>, sep: char) -> nat
    decreases s.len(),
{
    if s.len() == 0 || s[0] == sep {
        0
    } else {
        1 + piece_len(s.drop_first(), sep)
    }
}

/// `str::split` on one character: the pieces between the separators, empty
/// ones included; there is always one piece more than there are separators.
pub open spec fn split_on(s: Seq<char>, sep: char) -> Seq<Seq<char>>
    decreases s.len(),
{
    let k = piece_len(s, sep);
    proof {
        lemma_piece_len_bound(s, sep);
    }
    if k >= s.len() {
        seq![s]
    } else {
        seq![s.take(k as int)] + split_on(s.skip(k + 1 as int), sep)
    }
}

/// The pieces put back together with the separator between them.
pub open spec fn join_with(pieces: Seq<Seq<char>>, sep: char) -> Seq<char>
    decreases pieces.len(),
{
    if pieces.len() == 0 {
        seq![]
    } else if pieces.len() == 1 {
        pieces[0]
    } else {
        pieces[0] + seq![sep] + join_with(pieces.drop_first(), sep)
    }
}

/// How many characters come before the first whitespace.
pub open spec fn word_len(s: Seq<char>) -> nat
    decreases s.len(),
{
    if s.len() == 0 || is_whitespace(s[0]) {
        0
    } else {
        1 + word_len(s.drop_first())
    }
}

/// `str::split_whitespace`: the maximal runs of non-whitespace characters.
pub open spec fn words(s: Seq<char>) -> Seq<Seq<char>>
    decreases s.len(),
{
    if s.len() == 0 {
        seq![]
    } else if is_whitespace(s[0]) {
        words(s.drop_first())
    } else {
        let k = word_len(s);
        proof {
            lemma_word_len_bound(s);
        }
        seq![s.take(k as int)] + words(s.skip(k as int))
    }
}

/// `str::trim_start_matches` with a string pattern: the pattern removed from
/// the front as many times as it is there.
pub open spec fn strip_prefixes(s: Seq<char>, p: Seq<char>) -> Seq<char>
    decreases s.len(),
{
    if p.len() > 0 && s.len() >= p.len() && s.take(p.len() as int) == p {
        strip_prefixes(s.skip(p.len() as int), p)
    } else {
        s
    }
}

/// The texts of a list of strings.
pub open spec fn strings_view(v: Seq<String>) -> Seq<Seq<char>> {
    v.map_values(|s: String| s@)
}

// ---------------------------------------------------------------------------
// Lemmas
// ---------------------------------------------------------------------------

pub proof fn lemma_piece_len_bound(s: Seq<char>, sep: char)
    ensures
        piece_len(s, sep) <= s.len(),
        piece_len(s, sep) < s.len() ==> s[piece_len(s, sep) as int] == sep,
        forall|i: int| 0 <= i < piece_len(s, sep) ==> s[i] != sep,
    decreases s.len(),
{
    if s.len() > 0 && s[0] != sep {
        lemma_piece_len_bound(s.drop_first(), sep);
        assert forall|i: int| 0 <= i < piece_len(s, sep) implies s[i] != sep by {
            if i > 0 {
                assert(s[i] == s.drop_first()[i - 1]);
            }
        }
    }
}

pub proof fn lemma_word_len_bound(s: Seq<char>)
    ensures
        word_len(s) <= s.len(),
        word_len(s) < s.len() ==> is_whitespace(s[word_len(s) as int]),
        forall|i: int| 0 <= i < word_len(s) ==> !is_whitespace(s[i]),
    decreases s.len(),
{
    if s.len() > 0 && !is_whitespace(s[0]) {
        lemma_word_len_bound(s.drop_first());
        assert forall|i: int| 0 <= i < word_len(s) implies !is_whitespace(s[i]) by {
            if i > 0 {
                assert(s[i] == s.drop_first()[i - 1]);
            }
        }
    }
}

/// A run of `j` non-separators ended by a separator or the end is the first piece.
pub proof fn lemma_piece_len_is(s: Seq<char>, sep: char, j: int)
    requires
        0 <= j <= s.len(),
        forall|i: int| 0 <= i < j ==> s[i] != sep,
        j == s.len() || s[j] == sep,
    ensures
        piece_len(s, sep) == j,
    decreases j,
{
    if j > 0 {
        lemma_piece_len_is(s.drop_first(), sep, j - 1);
    }
}

proof fn lemma_word_len_is(s: Seq<char>, j: int)
    requires
        0 <= j <= s.len(),
        forall|i: int| 0 <= i < j ==> !is_whitespace(s[i]),
        j == s.len() || is_whitespace(s[j]),
    ensures
        word_len(s) == j,
    decreases j,
{
    if j > 0 {
        lemma_word_len_is(s.drop_first(), j - 1);
    }
}

proof fn lemma_trim_start_skip(s: Seq<char>, k: int)
    requires
        0 <= k < s.len(),
        is_whitespace(s[k]),
        trim_start(s) == trim_start(s.skip(k)),
    ensures
        trim_start(s) == trim_start(s.skip(k + 1)),
{
    assert(s.skip(k).drop_first() =~= s.skip(k + 1));
}

proof fn lemma_trim_end_take(s: Seq<char>, lo: int, hi: int)
    requires
        0 <= lo < hi <= s.len(),
        is_whitespace(s[hi - 1]),
    ensures
        trim_end(s.subrange(lo, hi)) == trim_end(s.subrange(lo, hi - 1)),
{
    assert(s.subrange(lo, hi).drop_last() =~= s.subrange(lo, hi - 1));
}

// ---------------------------------------------------------------------------
// Laws
// ---------------------------------------------------------------------------

/// Splitting on a character loses nothing: joining the pieces back with that
/// character gives the text again, and no piece holds the character.
pub proof fn lemma_split_join(s: Seq<char>, sep: char)
    ensures
        join_with(split_on(s, sep), sep) == s,
        split_on(s, sep).len() >= 1,
        forall|i: int, j: int|
            0 <= i < split_on(s, sep).len() && 0 <= j < split_on(s, sep)[i].len() ==> split_on(
                s,
                sep,
            )[i][j] != sep,
    decreases s.len(),
{
    lemma_piece_len_bound(s, sep);
    let k = piece_len(s, sep);
    let pieces = split_on(s, sep);
    if k < s.len() {
        let rest = s.skip(k + 1 as int);
        lemma_split_join(rest, sep);
        assert(pieces.drop_first() =~= split_on(rest, sep));
        assert(s =~= s.take(k as int) + seq![sep] + rest);
        assert forall|i: int, j: int|
            0 <= i < pieces.len() && 0 <= j < pieces[i].len() implies pieces[i][j] != sep by {
            if i > 0 {
                assert(pieces[i] == split_on(rest, sep)[i - 1]);
            }
        }
    }
}

/// Joined pieces start with the first piece and end with the last; between
/// the first piece and what follows, and between what precedes and the last
/// piece, stands the separator.
pub proof fn lemma_join_ends(pieces: Seq<Seq<char>>, sep: char)
    requires
        pieces.len() >= 1,
    ensures
        join_with(pieces, sep).len() >= pieces[0].len(),
        join_with(pieces, sep).take(pieces[0].len() as int) == pieces[0],
        join_with(pieces, sep).len() >= pieces.last().len(),
        join_with(pieces, sep).skip(join_with(pieces, sep).len() - pieces.last().len()) == pieces.last(),
        pieces.len() == 1 ==> join_with(pieces, sep) == pieces[0],
        pieces.len() >= 2 ==> join_with(pieces, sep).len() > pieces[0].len() && join_with(pieces, sep)[pieces[0].len() as int] == sep,
        pieces.len() >= 2 ==> join_with(pieces, sep).len() > pieces.last().len() && join_with(pieces, sep)[join_with(pieces, sep).len() - pieces.last().len() - 1] == sep,
    decreases pieces.len(),
{
    let j = join_with(pieces, sep);
    if pieces.len() == 1 {
        assert(j.take(pieces[0].len() as int) =~= pieces[0]);
        assert(j.skip(0) =~= j);
    } else {
        let rest = pieces.drop_first();
        lemma_join_ends(rest, sep);
        let jr = join_with(rest, sep);
        let a = pieces[0] + seq![sep];
        assert(j == a + jr);
        assert(j.take(pieces[0].len() as int) =~= pieces[0]);
        assert(rest.last() == pieces.last());
        assert(j.skip(j.len() - pieces.last().len()) =~= jr.skip(jr.len() - rest.last().len()));
        assert(j[pieces[0].len() as int] == sep);
        if rest.len() == 1 {
            assert(jr == rest[0]);
            assert(j[j.len() - pieces.last().len() - 1] == sep);
        } else {
            assert(j[j.len() - pieces.last().len() - 1] == jr[jr.len() - rest.last().len() - 1]);
        }
    }
}

/// Trimmed text starts and ends with no whitespace, and trimming it again
/// changes nothing.
pub proof fn lemma_trim_edges(s: Seq<char>)
    ensures
        trim(s).len() > 0 ==> !is_whitespace(trim(s)[0]) && !is_whitespace(trim(s).last()),
        trim(trim(s)) == trim(s),
{
    lemma_trim_start_shape(s);
    let a = trim_start(s);
    lemma_trim_end_shape(a);
    let t = trim_end(a);
    if t.len() > 0 {
        assert(t[0] == a[0]);
    }
    lemma_trim_fixed(t);
}

proof fn lemma_trim_start_shape(s: Seq<char>)
    ensures
        trim_start(s).len() > 0 ==> !is_whitespace(trim_start(s)[0]),
        exists|k: int| 0 <= k <= s.len() && trim_start(s) == s.skip(k),
    decreases s.len(),
{
    if s.len() > 0 && is_whitespace(s[0]) {
        lemma_trim_start_shape(s.drop_first());
        let k = choose|k: int| 0 <= k <= s.drop_first().len() && trim_start(s.drop_first()) == s.drop_first().skip(k);
        assert(s.drop_first().skip(k) =~= s.skip(k + 1));
    } else {
        assert(s.skip(0) =~= s);
    }
}

proof fn lemma_trim_end_shape(s: Seq<char>)
    ensures
        trim_end(s).len() > 0 ==> !is_whitespace(trim_end(s).last()),
        trim_end(s).len() <= s.len(),
        forall|i: int| 0 <= i < trim_end(s).len() ==> trim_end(s)[i] == s[i],
    decreases s.len(),
{
    if s.len() > 0 && is_whitespace(s.last()) {
        lemma_trim_end_shape(s.drop_last());
        assert forall|i: int| 0 <= i < trim_end(s).len() implies trim_end(s)[i] == s[i] by {
            assert(trim_end(s)[i] == s.drop_last()[i]);
        }
    }
}

proof fn lemma_trim_fixed(t: Seq<char>)
    requires
        t.len() > 0 ==> !is_whitespace(t[0]) && !is_whitespace(t.last()),
    ensures
        trim(t) == t,
{
}

/// Each word found by `split_whitespace` is non-empty and holds no whitespace.
pub proof fn lemma_words_shape(s: Seq<char>)
    ensures
        forall|i: int, j: int|
            0 <= i < words(s).len() && 0 <= j < words(s)[i].len() ==> !is_whitespace(
                words(s)[i][j],
            ),
        forall|i: int| 0 <= i < words(s).len() ==> (#[trigger] words(s)[i]).len() > 0,
    decreases s.len(),
{
    if s.len() > 0 {
        if is_whitespace(s[0]) {
            lemma_words_shape(s.drop_first());
            assert(words(s) == words(s.drop_first()));
        } else {
            lemma_word_len_bound(s);
            let k = word_len(s);
            let rest = s.skip(k as int);
            lemma_words_shape(rest);
            let w = words(s);
            assert(w.drop_first() =~= words(rest));
            assert(w[0] == s.take(k as int));
            assert(k >= 1);
            assert forall|i: int, j: int| 0 <= i < w.len() && 0 <= j < w[i].len() implies !is_whitespace(w[i][j]) by {
                if i > 0 {
                    assert(w[i] == words(rest)[i - 1]);
                } else {
                    assert(w[0][j] == s[j]);
                }
            }
            assert forall|i: int| 0 <= i < w.len() implies (#[trigger] w[i]).len() > 0 by {
                if i > 0 {
                    assert(w[i] == words(rest)[i - 1]);
                }
            }
        }
    }
}

// ---------------------------------------------------------------------------
// Executable text handling
// ---------------------------------------------------------------------------

/// The characters of a string slice, in order.
pub fn chars_of(s: &str) -> (v: Vec<char>)
    ensures
        v@ == s@,
{
    let mut v: Vec<char> = Vec::new();
    for c in it: s.chars()
        invariant
            v@ == it.seq().take(it.index() as int),
    {
        v.push(c);
    }
    v
}

/// A `String` holding exactly the given characters (std's `FromIterator<&char>`
/// for `String`, which appends each character in turn).
#[verifier::external_body]
pub(crate) fn string_from_chars(v: &[char]) -> (s: String)
    ensures
        s@ == v@,
{
    v.iter().collect()
}

/// Whether `c` is whitespace as `char::is_whitespace` says.
pub fn is_whitespace_char(c: char) -> (b: bool)
    ensures
        b == is_whitespace(c),
{
    ('\t' <= c && c <= '\r') || c == ' ' || c == '\u{85}' || c == '\u{a0}' || c == '\u{1680}' || (
    '\u{2000}' <= c && c <= '\u{200a}') || c == '\u{2028}' || c == '\u{2029}' || c == '\u{202f}'
        || c == '\u{205f}' || c == '\u{3000}'
}

/// A new string holding `v[lo..hi]`.
pub(crate) fn string_between(v: &Vec<char>, lo: usize, hi: usize) -> (s: String)
    requires
        lo <= hi <= v.len(),
    ensures
        s@ == v@.subrange(lo as int, hi as int),
{
    let mut part: Vec<char> = Vec::new();
    let mut i = lo;
    while i < hi
        invariant
            lo <= i <= hi <= v.len(),
            part@ == v@.subrange(lo as int, i as int),
        decreases hi - i,
    {
        part.push(v[i]);
        i = i + 1;
        assert(part@ =~= v@.subrange(lo as int, i as int));
    }
    string_from_chars(part.as_slice())
}

/// The bounds of `v` with whitespace trimmed from both ends.
pub(crate) fn trim_bounds(v: &Vec<char>) -> (r: (usize, usize))
    ensures
        r.0 <= r.1 <= v.len(),
        v@.subrange(r.0 as int, r.1 as int) == trim(v@),
{
    let mut lo: usize = 0;
    assert(v@.skip(0) =~= v@);
    while lo < v.len() && is_whitespace_char(v[lo as usize])
        invariant
            lo <= v.len(),
            trim_start(v@) == trim_start(v@.skip(lo as int)),
        decreases v.len() - lo,
    {
        proof {
            lemma_trim_start_skip(v@, lo as int);
        }
        lo = lo + 1;
    }
    let ghost rest = v@.skip(lo as int);
    assert(trim_start(rest) == rest);
    assert(rest =~= v@.subrange(lo as int, v.len() as int));
    let mut hi: usize = v.len();
    while hi > lo && is_whitespace_char(v[hi - 1])
        invariant
            lo <= hi <= v.len(),
            trim(v@) == trim_end(v@.subrange(lo as int, hi as int)),
        decreases hi,
    {
        proof {
            lemma_trim_end_take(v@, lo as int, hi as int);
        }
        hi = hi - 1;
    }
    (lo, hi)
}

/// `s.trim().to_string()`.
pub fn trim_string(s: &str) -> (t: String)
    ensures
        t@ == trim(s@),
{
    let v = chars_of(s);
    let (lo, hi) = trim_bounds(&v);
    string_between(&v, lo, hi)
}

/// The bounds of the pieces of `v[lo..hi]` split on `sep`.
pub(crate) fn split_bounds(v: &Vec<char>, lo: usize, hi: usize, sep: char) -> (r: Vec<(usize, usize)>)
    requires
        lo <= hi <= v.len(),
    ensures
        r.len() == split_on(v@.subrange(lo as int, hi as int), sep).len(),
        forall|i: int|
            0 <= i < r.len() ==> {
                &&& lo <= (#[trigger] r[i]).0 <= r[i].1 <= hi
                &&& v@.subrange(r[i].0 as int, r[i].1 as int) == split_on(
                    v@.subrange(lo as int, hi as int),
                    sep,
                )[i]
            },
{
    let ghost s = v@.subrange(lo as int, hi as int);
    let mut r: Vec<(usize, usize)> = Vec::new();
    let mut start: usize = lo;
    let mut i: usize = lo;
    assert(s.skip(0) =~= s);
    while i < hi
        invariant
            lo <= start <= i <= hi <= v.len(),
            s == v@.subrange(lo as int, hi as int),
            forall|k: int| start <= k < i ==> v@[k] != sep,
            split_on(s, sep) =~= r@.map_values(
                |b: (usize, usize)| v@.subrange(b.0 as int, b.1 as int),
            ) + split_on(s.skip(start - lo), sep),
            forall|j: int| 0 <= j < r.len() ==> lo <= (#[trigger] r[j]).0 <= r[j].1 <= start,
        decreases hi - i,
    {
        if v[i] == sep {
            let ghost t = s.skip(start - lo);
            proof {
                lemma_piece_len_is(t, sep, i - start);
                assert(t.take(i - start) =~= v@.subrange(start as int, i as int));
                assert(t.skip(i - start + 1) =~= s.skip(i + 1 - lo));
            }
            r.push((start, i));
            start = i + 1;
        }
        i = i + 1;
    }
    let ghost t = s.skip(start - lo);
    proof {
        lemma_piece_len_is(t, sep, hi - start);
        assert(t =~= v@.subrange(start as int, hi as int));
    }
    r.push((start, hi));
    r
}

/// `s.split(sep).map(|p| p.to_string()).collect()`.
pub fn split_string(s: &str, sep: char) -> (pieces: Vec<String>)
    ensures
        strings_view(pieces@) == split_on(s@, sep),
{
    let v = chars_of(s);
    assert(v@.subrange(0, v.len() as int) =~= v@);
    let bounds = split_bounds(&v, 0, v.len(), sep);
    let mut pieces: Vec<String> = Vec::new();
    let mut i: usize = 0;
    while i < bounds.len()
        invariant
            i <= bounds.len(),
            bounds.len() == split_on(s@, sep).len(),
            v@ == s@,
            forall|j: int|
                0 <= j < bounds.len() ==> {
                    &&& 0 <= (#[trigger] bounds[j]).0 <= bounds[j].1 <= v.len()
                    &&& v@.subrange(bounds[j].0 as int, bounds[j].1 as int) == split_on(s@, sep)[j]
                },
            strings_view(pieces@) =~= split_on(s@, sep).take(i as int),
        decreases bounds.len() - i,
    {
        let (a, b) = bounds[i];
        let p = string_between(&v, a, b);
        let ghost prev = pieces@;
        pieces.push(p);
        assert(pieces@ =~= prev.push(p));
        assert(strings_view(pieces@) =~= strings_view(prev).push(p@));
        i = i + 1;
        assert(strings_view(pieces@) =~= split_on(s@, sep).take(i as int));
    }
    assert(split_on(s@, sep).take(i as int) =~= split_on(s@, sep));
    pieces
}

/// The bounds of the words of `v[lo..hi]`, as `split_whitespace` finds them.
pub(crate) fn word_bounds(v: &Vec<char>, lo: usize, hi: usize) -> (r: Vec<(usize, usize)>)
    requires
        lo <= hi <= v.len(),
    ensures
        r.len() == words(v@.subrange(lo as int, hi as int)).len(),
        forall|i: int|
            0 <= i < r.len() ==> {
                &&& lo <= (#[trigger] r[i]).0 <= r[i].1 <= hi
                &&& v@.subrange(r[i].0 as int, r[i].1 as int) == words(
                    v@.subrange(lo as int, hi as int),
                )[i]
            },
{
    let ghost s = v@.subrange(lo as int, hi as int);
    let mut r: Vec<(usize, usize)> = Vec::new();
    let mut i: usize = lo;
    assert(s.skip(0) =~= s);
    while i < hi
        invariant
            lo <= i <= hi <= v.len(),
            s == v@.subrange(lo as int, hi as int),
            words(s) =~= r@.map_values(|b: (usize, usize)| v@.subrange(b.0 as int, b.1 as int))
                + words(s.skip(i - lo)),
            forall|j: int| 0 <= j < r.len() ==> lo <= (#[trigger] r[j]).0 <= r[j].1 <= i,
        decreases hi - i,
    {
        let ghost t = s.skip(i - lo);
        if is_whitespace_char(v[i]) {
            assert(t.drop_first() =~= s.skip(i + 1 - lo));
            i = i + 1;
        } else {
            let start = i;
            while i < hi && !is_whitespace_char(v[i])
                invariant
                    start <= i <= hi <= v.len(),
                    forall|k: int| start <= k < i ==> !is_whitespace(v@[k]),
                decreases hi - i,
            {
                i = i + 1;
            }
            proof {
                lemma_word_len_is(t, i - start);
                assert(t.take(i - start) =~= v@.subrange(start as int, i as int));
                assert(t.skip(i - start) =~= s.skip(i - lo));
            }
            r.push((start, i));
        }
    }
    assert(s.skip(hi - lo).len() == 0);
    r
}

} // verus!

//! Character-level text helpers: white space, trimming, splitting into words,
//! and key normalization.

use vstd::prelude::*;

verus! {

/// The code points that carry Unicode's `White_Space` property.
pub open spec fn is_white_space(c: char) -> bool {
    ||| ('\u{9}' <= c && c <= '\u{d}')
    ||| c == '\u{20}'
    ||| c == '\u{85}'
    ||| c == '\u{a0}'
    ||| c == '\u{1680}'
    ||| ('\u{2000}' <= c && c <= '\u{200a}')
    ||| c == '\u{2028}'
    ||| c == '\u{2029}'
    ||| c == '\u{202f}'
    ||| c == '\u{205f}'
    ||| c == '\u{3000}'
}

/// Tells whether `c` is white space.
pub fn white_space(c: char) -> (b: bool)
    ensures
        b == is_white_space(c),
{
    ('\u{9}' <= c && c <= '\u{d}') || c == '\u{20}' || c == '\u{85}' || c == '\u{a0}' || c
        == '\u{1680}' || ('\u{2000}' <= c && c <= '\u{200a}') || c == '\u{2028}' || c
        == '\u{2029}' || c == '\u{202f}' || c == '\u{205f}' || c == '\u{3000}'
}

/// `String::push` appends one character to the end of the string.
pub assume_specification[ String::push ](s: &mut String, c: char)
    ensures
        final(s)@ == old(s)@.push(c),
;

/// The characters of `s`, in order.
pub fn to_chars(s: &str) -> (v: Vec<char>)
    ensures
        v@ == s@,
{
    let mut v: Vec<char> = Vec::new();
    for c in it: s.chars()
        invariant
            v@ == it.seq().take(it.index()),
            it.seq() == s@,
    {
        v.push(c);
    }
    v
}

/// The string made of `chars[from..to]`.
pub fn slice_to_string(chars: &Vec<char>, from: usize, to: usize) -> (s: String)
    requires
        from <= to <= chars.len(),
    ensures
        s@ == chars@.subrange(from as int, to as int),
{
    let mut s = String::new();
    let mut i: usize = from;
    while i < to
        invariant
            from <= i <= to <= chars.len(),
            s@ == chars@.subrange(from as int, i as int),
        decreases to - i,
    {
        s.push(chars[i]);
        i += 1;
    }
    s
}

/// The first index at or after `i` whose character is not white space, or the
/// length of `s` where there is none.
pub open spec fn skip_spaces(s: Seq<char>, i: int) -> int
    decreases s.len() - i,
{
    if 0 <= i < s.len() && is_white_space(s[i]) {
        skip_spaces(s, i + 1)
    } else {
        i
    }
}

/// The first index at or after `i` whose character is white space, or the
/// length of `s` where there is none.
pub open spec fn skip_word(s: Seq<char>, i: int) -> int
    decreases s.len() - i,
{
    if 0 <= i < s.len() && !is_white_space(s[i]) {
        skip_word(s, i + 1)
    } else {
        i
    }
}

/// The least index at or above `lo` from which everything before `hi` is
/// white space.
pub open spec fn drop_spaces_back(s: Seq<char>, lo: int, hi: int) -> int
    decreases hi - lo,
{
    if lo < hi <= s.len() && is_white_space(s[hi - 1]) {
        drop_spaces_back(s, lo, hi - 1)
    } else {
        hi
    }
}

/// `s` without its leading and trailing white space.
pub open spec fn trimmed(s: Seq<char>) -> Seq<char> {
    let from = skip_spaces(s, 0);
    s.subrange(from, drop_spaces_back(s, from, s.len() as int))
}

/// `skip_spaces` stops inside the sequence, past white space only, and on a
/// character that is not white space.
pub proof fn lemma_skip_spaces(s: Seq<char>, i: int)
    requires
        0 <= i <= s.len(),
    ensures
        i <= skip_spaces(s, i) <= s.len(),
        forall|j: int| i <= j < skip_spaces(s, i) ==> is_white_space(#[trigger] s[j]),
        skip_spaces(s, i) < s.len() ==> !is_white_space(s[skip_spaces(s, i)]),
    decreases s.len() - i,
{
    if i < s.len() && is_white_space(s[i]) {
        lemma_skip_spaces(s, i + 1);
    }
}

/// `skip_word` stops inside the sequence, past characters that are not white
/// space, and on white space.
pub proof fn lemma_skip_word(s: Seq<char>, i: int)
    requires
        0 <= i <= s.len(),
    ensures
        i <= skip_word(s, i) <= s.len(),
        forall|j: int| i <= j < skip_word(s, i) ==> !is_white_space(#[trigger] s[j]),
        skip_word(s, i) < s.len() ==> is_white_space(s[skip_word(s, i)]),
        i < s.len() && !is_white_space(s[i]) ==> i < skip_word(s, i),
    decreases s.len() - i,
{
    if i < s.len() && !is_white_space(s[i]) {
        lemma_skip_word(s, i + 1);
    }
}

/// `drop_spaces_back` stops between `lo` and `hi`, before white space only,
/// and behind a character that is not white space.
pub proof fn lemma_drop_spaces_back(s: Seq<char>, lo: int, hi: int)
    requires
        0 <= lo <= hi <= s.len(),
    ensures
        lo <= drop_spaces_back(s, lo, hi) <= hi,
        forall|j: int|
            drop_spaces_back(s, lo, hi) <= j < hi ==> is_white_space(#[trigger] s[j]),
        lo < drop_spaces_back(s, lo, hi) ==> !is_white_space(
            s[drop_spaces_back(s, lo, hi) - 1],
        ),
    decreases hi - lo,
{
    if lo < hi && is_white_space(s[hi - 1]) {
        lemma_drop_spaces_back(s, lo, hi - 1);
    }
}

/// A sequence that neither starts nor ends with white space is its own
/// trimming.
pub proof fn lemma_trimmed_fixed(s: Seq<char>)
    requires
        s.len() > 0 ==> !is_white_space(s[0]) && !is_white_space(s.last()),
    ensures
        trimmed(s) == s,
{
    assert(trimmed(s) =~= s);
}

/// What trimming leaves neither starts nor ends with white space.
pub proof fn lemma_trimmed_ends(s: Seq<char>)
    ensures
        trimmed(s).len() > 0 ==> !is_white_space(trimmed(s)[0]) && !is_white_space(
            trimmed(s).last(),
        ),
{
    lemma_skip_spaces(s, 0);
    lemma_drop_spaces_back(s, skip_spaces(s, 0), s.len() as int);
}

/// Trimming twice is trimming once.
pub proof fn lemma_trimmed_idempotent(s: Seq<char>)
    ensures
        trimmed(trimmed(s)) == trimmed(s),
{
    lemma_trimmed_ends(s);
    lemma_trimmed_fixed(trimmed(s));
}

/// The bounds of `trimmed` within `chars`.
pub fn trim_bounds(chars: &Vec<char>) -> (r: (usize, usize))
    ensures
        r.0 == skip_spaces(chars@, 0),
        r.1 == drop_spaces_back(chars@, r.0 as int, chars@.len() as int),
        r.0 <= r.1 <= chars.len(),
{
    let n = chars.len();
    let mut from: usize = 0;
    while from < n && white_space(chars[from])
        invariant
            from <= n == chars.len(),
            skip_spaces(chars@, 0) == skip_spaces(chars@, from as int),
        decreases n - from,
    {
        from += 1;
    }
    let mut to: usize = n;
    while from < to && white_space(chars[to - 1])
        invariant
            from <= to <= n == chars.len(),
            drop_spaces_back(chars@, from as int, n as int) == drop_spaces_back(
                chars@,
                from as int,
                to as int,
            ),
        decreases to - from,
    {
        to -= 1;
    }
    (from, to)
}

/// `s` without its leading and trailing white space.
pub fn trim(s: &str) -> (r: String)
    ensures
        r@ == trimmed(s@),
{
    let chars = to_chars(s);
    let (from, to) = trim_bounds(&chars);
    slice_to_string(&chars, from, to)
}

/// The lower-case equivalent of a string, as `str::to_lowercase` gives it.
pub uninterp spec fn lowercased(s: Seq<char>) -> Seq<char>;

/// `str::to_lowercase` returns the lower-case equivalent of `s`, which depends
/// on the characters of `s` alone; the contract gives that result its name.
/// Each character is replaced by its lower-case mapping, which is one or more
/// characters, so the result of a string that is not empty is not empty.
#[verifier::external_body]
pub(crate) fn lowercase(s: &str) -> (r: String)
    ensures
        r@ == lowercased(s@),
        s@.len() > 0 ==> r@.len() > 0,
{
    s.to_lowercase()
}

/// The key that a raw string stands for: trimmed, then lower-cased. A string
/// of white space alone stands for the empty key.
pub open spec fn normalized(s: Seq<char>) -> Seq<char> {
    if trimmed(s).len() == 0 {
        Seq::empty()
    } else {
        lowercased(trimmed(s))
    }
}

/// The key that `s` stands for. It is empty where `s` holds white space
/// alone, and only there.
pub fn normalize(s: &str) -> (r: String)
    ensures
        r@ == normalized(s@),
        r@.len() == 0 <==> trimmed(s@).len() == 0,
{
    let t = trim(s);
    if t.as_str().is_empty() {
        String::new()
    } else {
        lowercase(t.as_str())
    }
}

/// A string that trimming and lower-casing both leave as it is, is its own
/// key. So normalizing a key again gives the same key wherever lower-casing
/// the key again gives the same characters, neither led nor followed by white
/// space.
pub proof fn lemma_normalized_fixed(k: Seq<char>)
    ensures
        trimmed(k) == k && lowercased(k) == k ==> normalized(k) == k,
{
}

/// The words of `s` from index `i` on: its maximal runs of characters that
/// are not white space, in order.
pub open spec fn words_from(s: Seq<char>, i: int) -> Seq<Seq<char>>
    decreases s.len() - i,
    via words_from_decreases
{
    if 0 <= i < s.len() {
        if is_white_space(s[i]) {
            words_from(s, i + 1)
        } else {
            seq![s.subrange(i, skip_word(s, i + 1))] + words_from(s, skip_word(s, i + 1))
        }
    } else {
        Seq::empty()
    }
}

#[via_fn]
proof fn words_from_decreases(s: Seq<char>, i: int) {
    if 0 <= i < s.len() && !is_white_space(s[i]) {
        lemma_skip_word(s, i + 1);
    }
}

/// The words of `s`: its maximal runs of characters that are not white
/// space, in order.
pub open spec fn words(s: Seq<char>) -> Seq<Seq<char>> {
    words_from(s, 0)
}

/// Whether `word` is not empty and holds no white space.
pub open spec fn is_word(word: Seq<char>) -> bool {
    word.len() > 0 && forall|j: int| 0 <= j < word.len() ==> !is_white_space(#[trigger] word[j])
}

/// Each of the words of `s` from `i` on is not empty and holds no white
/// space.
pub proof fn lemma_words_from_are_words(s: Seq<char>, i: int)
    requires
        0 <= i,
    ensures
        forall|k: int| 0 <= k < words_from(s, i).len() ==> is_word(#[trigger] words_from(s, i)[k]),
    decreases s.len() - i,
{
    if i < s.len() {
        if is_white_space(s[i]) {
            lemma_words_from_are_words(s, i + 1);
            assert(words_from(s, i) == words_from(s, i + 1));
        } else {
            let end = skip_word(s, i + 1);
            lemma_skip_word(s, i + 1);
            lemma_words_from_are_words(s, end);
            let word = s.subrange(i, end);
            assert(is_word(word)) by {
                assert forall|j: int| 0 <= j < word.len() implies !is_white_space(
                    #[trigger] word[j],
                ) by {
                    assert(word[j] == s[i + j]);
                }
            }
            assert forall|k: int| 0 <= k < words_from(s, i).len() implies is_word(
                #[trigger] words_from(s, i)[k],
            ) by {
                assert(words_from(s, i) == seq![word] + words_from(s, end));
                if k > 0 {
                    assert(words_from(s, i)[k] == words_from(s, end)[k - 1]);
                } else {
                    assert(words_from(s, i)[k] == word);
                }
            }
        }
    }
}

/// Each of the words of `s` is not empty and holds no white space.
pub proof fn lemma_words_are_words(s: Seq<char>)
    ensures
        forall|k: int| 0 <= k < words(s).len() ==> is_word(#[trigger] words(s)[k]),
{
    lemma_words_from_are_words(s, 0);
}

/// The views of the strings of `v`, in order.
pub open spec fn views(v: Seq<String>) -> Seq<Seq<char>> {
    Seq::new(v.len(), |i: int| v[i]@)
}

/// The words of `chars`, each as a string.
pub fn split_chars(chars: &Vec<char>, from: usize) -> (out: Vec<String>)
    requires
        from <= chars.len(),
    ensures
        views(out@) == words_from(chars@, from as int),
{
    let n = chars.len();
    let mut out: Vec<String> = Vec::new();
    let mut i: usize = from;
    while i < n
        invariant
            i <= n == chars.len(),
            words_from(chars@, from as int) == views(out@) + words_from(chars@, i as int),
        decreases n - i,
    {
        if white_space(chars[i]) {
            i += 1;
        } else {
            let mut end: usize = i + 1;
            while end < n && !white_space(chars[end])
                invariant
                    i < end <= n == chars.len(),
                    skip_word(chars@, i + 1) == skip_word(chars@, end as int),
                decreases n - end,
            {
                end += 1;
            }
            let word = slice_to_string(chars, i, end);
            proof {
                let before = views(out@);
                let after = views(out@.push(word));
                assert(after =~= before + seq![word@]);
                assert(before + (seq![word@] + words_from(chars@, end as int)) =~= after
                    + words_from(chars@, end as int));
            }
            out.push(word);
            i = end;
        }
    }
    proof {
        assert(views(out@) + Seq::<Seq<char>>::empty() =~= views(out@));
    }
    out
}

/// The words of `s`, each as a string.
pub fn split_words(s: &str) -> (out: Vec<String>)
    ensures
        views(out@) == words(s@),
{
    let chars = to_chars(s);
    split_chars(&chars, 0)
}

} // verus!

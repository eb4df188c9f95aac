//! Text as sequences of characters, with the byte and UTF-16 measures of it.

use vstd::prelude::*;
use vstd::slice::slice_subrange;
use vstd::utf8::*;

verus! {

/// `String::push` appends one character.
pub assume_specification[ String::push ](s: &mut String, ch: char)
    ensures
        final(s)@ == old(s)@.push(ch),
;

// ---------------------------------------------------------------------------
// Characters
// ---------------------------------------------------------------------------

/// The number of bytes that UTF-8 needs for a text.
pub open spec fn byte_len(s: Seq<char>) -> nat {
    encode_utf8(s).len()
}

/// The number of UTF-16 code units of a character.
pub open spec fn utf16_units(c: char) -> nat {
    if c as u32 >= 0x10000 {
        2
    } else {
        1
    }
}

/// The number of UTF-16 code units of a text.
pub open spec fn utf16_len(s: Seq<char>) -> nat
    decreases s.len(),
{
    if s.len() == 0 {
        0
    } else {
        utf16_len(s.drop_last()) + utf16_units(s.last())
    }
}

/// Unicode's `White_Space` property.
pub open spec fn white_space(c: char) -> bool {
    ||| '\u{9}' <= c <= '\u{d}'
    ||| c == '\u{20}'
    ||| c == '\u{85}'
    ||| c == '\u{a0}'
    ||| c == '\u{1680}'
    ||| '\u{2000}' <= c <= '\u{200a}'
    ||| c == '\u{2028}'
    ||| c == '\u{2029}'
    ||| c == '\u{202f}'
    ||| c == '\u{205f}'
    ||| c == '\u{3000}'
}

/// Whether a character is white space.
pub fn is_white_space(c: char) -> (r: bool)
    ensures
        r == white_space(c),
{
    ('\u{9}' <= c && c <= '\u{d}') || c == '\u{20}' || c == '\u{85}' || c == '\u{a0}' || c
        == '\u{1680}' || ('\u{2000}' <= c && c <= '\u{200a}') || c == '\u{2028}' || c == '\u{2029}'
        || c == '\u{202f}' || c == '\u{205f}' || c == '\u{3000}'
}

/// The number of bytes of a character's encoding.
pub fn char_width(c: char) -> (w: usize)
    ensures
        w == encode_scalar(c as u32).len(),
        1 <= w <= 4,
{
    let code: u32 = c as u32;
    if code <= 0x7f {
        1
    } else if code <= 0x7ff {
        2
    } else if code <= 0xffff {
        3
    } else {
        4
    }
}

/// The encoding of a concatenation is the concatenation of the encodings.
pub proof fn lemma_encode_concat(a: Seq<char>, b: Seq<char>)
    ensures
        encode_utf8(a + b) == encode_utf8(a) + encode_utf8(b),
        byte_len(a + b) == byte_len(a) + byte_len(b),
    decreases a.len(),
{
    if a.len() == 0 {
        assert(a + b == b);
    } else {
        lemma_encode_concat(a.drop_first(), b);
        assert((a + b).drop_first() == a.drop_first() + b);
        assert(encode_utf8(a + b) =~= encode_utf8(a) + encode_utf8(b));
    }
}

/// Cutting a text in two splits its encoding at the byte length of the first part.
pub proof fn lemma_encode_cut(s: Seq<char>, i: int)
    requires
        0 <= i <= s.len(),
    ensures
        encode_utf8(s) == encode_utf8(s.take(i)) + encode_utf8(s.skip(i)),
        byte_len(s) == byte_len(s.take(i)) + byte_len(s.skip(i)),
{
    lemma_encode_concat(s.take(i), s.skip(i));
    assert(s.take(i) + s.skip(i) == s);
}

/// Appending a character adds its width.
pub proof fn lemma_byte_len_push(s: Seq<char>, c: char)
    ensures
        byte_len(s.push(c)) == byte_len(s) + encode_scalar(c as u32).len(),
{
    lemma_encode_concat(s, seq![c]);
    assert(s + seq![c] == s.push(c));
    reveal_with_fuel(encode_utf8, 2);
    assert(seq![c].drop_first() == Seq::<char>::empty());
    assert(encode_utf8(seq![c]) =~= encode_scalar(c as u32));
}

/// A text has at least as many bytes as characters.
pub proof fn lemma_byte_len_bounds(s: Seq<char>)
    ensures
        s.len() <= byte_len(s),
        utf16_len(s) <= byte_len(s),
        s.len() <= utf16_len(s),
        s.len() == 0 <==> byte_len(s) == 0,
    decreases s.len(),
{
    if s.len() > 0 {
        lemma_byte_len_bounds(s.drop_last());
        lemma_byte_len_push(s.drop_last(), s.last());
        assert(s.drop_last().push(s.last()) == s);
    }
}

/// The characters of a string.
pub fn chars_of(s: &str) -> (chars: Vec<char>)
    ensures
        chars@ == s@,
        byte_len(s@) <= usize::MAX,
{
    let mut chars: Vec<char> = Vec::with_capacity(str_byte_len(s));
    for c in iter: s.chars()
        invariant
            iter.seq() == s@,
            chars@ == s@.take(iter.index() as int),
    {
        chars.push(c);
    }
    assert(s@.take(s@.len() as int) == s@);
    chars
}

/// The string made of the given characters.
pub fn string_of(chars: &[char]) -> (s: String)
    ensures
        s@ == chars@,
{
    let mut s: String = String::new();
    let mut i: usize = 0;
    while i < chars.len()
        invariant
            i <= chars@.len(),
            s@ == chars@.take(i as int),
        decreases chars@.len() - i,
    {
        s.push(chars[i]);
        i += 1;
    }
    assert(chars@.take(i as int) == chars@);
    s
}

/// The length of a string in bytes.
pub fn str_byte_len(s: &str) -> (n: usize)
    ensures
        n == byte_len(s@),
{
    s.as_bytes().len()
}

/// The byte length of characters whose encoding fits in memory.
pub fn chars_byte_len(chars: &[char]) -> (n: usize)
    requires
        byte_len(chars@) <= usize::MAX,
    ensures
        n == byte_len(chars@),
{
    let mut n: usize = 0;
    let mut i: usize = 0;
    while i < chars.len()
        invariant
            i <= chars@.len(),
            n == byte_len(chars@.take(i as int)),
            byte_len(chars@) <= usize::MAX,
        decreases chars@.len() - i,
    {
        proof {
            lemma_byte_len_push(chars@.take(i as int), chars@[i as int]);
            assert(chars@.take(i as int).push(chars@[i as int]) == chars@.take(i + 1));
            lemma_encode_cut(chars@, i + 1);
        }
        n = n + char_width(chars[i]);
        i += 1;
    }
    assert(chars@.take(i as int) == chars@);
    n
}

/// The UTF-16 length of characters whose encoding fits in memory.
pub fn chars_utf16_len(chars: &[char]) -> (n: usize)
    requires
        byte_len(chars@) <= usize::MAX,
    ensures
        n == utf16_len(chars@),
{
    let mut n: usize = 0;
    let mut i: usize = 0;
    while i < chars.len()
        invariant
            i <= chars@.len(),
            n == utf16_len(chars@.take(i as int)),
            byte_len(chars@) <= usize::MAX,
        decreases chars@.len() - i,
    {
        proof {
            assert(chars@.take(i + 1).drop_last() == chars@.take(i as int));
            lemma_encode_cut(chars@, i + 1);
            lemma_byte_len_bounds(chars@.take(i + 1));
        }
        let units: usize = if chars[i] as u32 >= 0x10000 {
            2
        } else {
            1
        };
        n = n + units;
        i += 1;
    }
    assert(chars@.take(i as int) == chars@);
    n
}

// ---------------------------------------------------------------------------
// Comparison and search
// ---------------------------------------------------------------------------

/// Whether `needle` stands in `hay` at index `i`.
pub open spec fn occurs_at(hay: Seq<char>, needle: Seq<char>, i: int) -> bool {
    &&& 0 <= i
    &&& i + needle.len() <= hay.len()
    &&& hay.subrange(i, i + needle.len()) == needle
}

/// The first index from `from` on at which `needle` stands in `hay`.
pub open spec fn find_from(hay: Seq<char>, needle: Seq<char>, from: int) -> Option<int>
    decreases hay.len() + 1 - from,
{
    if from < 0 || from + needle.len() > hay.len() {
        None
    } else if occurs_at(hay, needle, from) {
        Some(from)
    } else {
        find_from(hay, needle, from + 1)
    }
}

/// Whether `s` begins with `prefix`.
pub open spec fn has_prefix(s: Seq<char>, prefix: Seq<char>) -> bool {
    prefix.len() <= s.len() && s.take(prefix.len() as int) == prefix
}

/// Whether `s` ends with `suffix`.
pub open spec fn has_suffix(s: Seq<char>, suffix: Seq<char>) -> bool {
    suffix.len() <= s.len() && s.skip(s.len() - suffix.len()) == suffix
}

/// Whether two texts are equal.
pub fn same_chars(a: &[char], b: &[char]) -> (r: bool)
    ensures
        r == (a@ == b@),
{
    if a.len() != b.len() {
        return false;
    }
    let mut i: usize = 0;
    while i < a.len()
        invariant
            i <= a@.len(),
            a@.len() == b@.len(),
            forall|j: int| 0 <= j < i ==> a@[j] == b@[j],
        decreases a@.len() - i,
    {
        if a[i] != b[i] {
            return false;
        }
        i += 1;
    }
    assert(a@ == b@);
    true
}

/// Whether two strings are equal.
pub fn same_str(a: &str, b: &str) -> (r: bool)
    ensures
        r == (a@ == b@),
{
    let left: Vec<char> = chars_of(a);
    let right: Vec<char> = chars_of(b);
    same_chars(left.as_slice(), right.as_slice())
}

/// Whether `s` begins with `prefix`.
pub fn starts_with(s: &[char], prefix: &[char]) -> (r: bool)
    ensures
        r == has_prefix(s@, prefix@),
{
    if prefix.len() > s.len() {
        return false;
    }
    assert(s@.take(prefix@.len() as int) == s@.subrange(0, prefix@.len() as int));
    same_chars(slice_subrange(s, 0, prefix.len()), prefix)
}

/// Whether `s` ends with `suffix`.
pub fn ends_with(s: &[char], suffix: &[char]) -> (r: bool)
    ensures
        r == has_suffix(s@, suffix@),
{
    if suffix.len() > s.len() {
        return false;
    }
    assert(s@.skip(s@.len() - suffix@.len()) == s@.subrange(
        s@.len() - suffix@.len(),
        s@.len() as int,
    ));
    same_chars(slice_subrange(s, s.len() - suffix.len(), s.len()), suffix)
}

/// The first index at which `needle` stands in `hay`.
pub fn find(hay: &[char], needle: &[char]) -> (r: Option<usize>)
    ensures
        match r {
            Some(i) => find_from(hay@, needle@, 0) == Some(i as int),
            None => find_from(hay@, needle@, 0) is None,
        },
{
    if needle.len() > hay.len() {
        return None;
    }
    let last: usize = hay.len() - needle.len();
    let mut i: usize = 0;
    loop
        invariant
            i <= last,
            last == hay@.len() - needle@.len(),
            hay@.len() <= usize::MAX,
            find_from(hay@, needle@, 0) == find_from(hay@, needle@, i as int),
        decreases last - i,
    {
        if same_chars(slice_subrange(hay, i, i + needle.len()), needle) {
            return Some(i);
        }
        if i == last {
            assert(find_from(hay@, needle@, i + 1) is None);
            return None;
        }
        i += 1;
    }
}

/// Where a text occurs, its first occurrence is found, and not behind that place.
pub proof fn lemma_find(hay: Seq<char>, needle: Seq<char>, from: int, at: int)
    requires
        0 <= from <= at,
        occurs_at(hay, needle, at),
    ensures
        match find_from(hay, needle, from) {
            Some(i) => from <= i <= at && occurs_at(hay, needle, i),
            None => false,
        },
    decreases at - from,
{
    if !occurs_at(hay, needle, from) {
        lemma_find(hay, needle, from + 1, at);
    }
}

/// Whether a character occurs in a text.
pub fn contains_char(s: &[char], c: char) -> (r: bool)
    ensures
        r == s@.contains(c),
{
    let mut i: usize = 0;
    while i < s.len()
        invariant
            i <= s@.len(),
            forall|j: int| 0 <= j < i ==> s@[j] != c,
        decreases s@.len() - i,
    {
        if s[i] == c {
            assert(s@[i as int] == c);
            return true;
        }
        i += 1;
    }
    false
}

/// The length of the longest common prefix, given that the first `i` characters agree.
pub open spec fn common_prefix_from(a: Seq<char>, b: Seq<char>, i: int) -> int
    decreases a.len() - i,
{
    if 0 <= i < a.len() && i < b.len() && a[i] == b[i] {
        common_prefix_from(a, b, i + 1)
    } else {
        i
    }
}

/// The length of the longest common prefix of two texts.
pub open spec fn common_prefix(a: Seq<char>, b: Seq<char>) -> int {
    common_prefix_from(a, b, 0)
}

/// The length of the longest common suffix, given that the last `k` characters agree.
pub open spec fn common_suffix_from(a: Seq<char>, b: Seq<char>, k: int) -> int
    decreases a.len() - k,
{
    if 0 <= k < a.len() && k < b.len() && a[a.len() - 1 - k] == b[b.len() - 1 - k] {
        common_suffix_from(a, b, k + 1)
    } else {
        k
    }
}

/// The length of the longest common suffix of two texts.
pub open spec fn common_suffix(a: Seq<char>, b: Seq<char>) -> int {
    common_suffix_from(a, b, 0)
}

/// The longest common prefix is common, and no longer one is.
pub proof fn lemma_common_prefix(a: Seq<char>, b: Seq<char>)
    ensures
        0 <= common_prefix(a, b) <= a.len(),
        common_prefix(a, b) <= b.len(),
        a.take(common_prefix(a, b)) == b.take(common_prefix(a, b)),
        common_prefix(a, b) < a.len() && common_prefix(a, b) < b.len() ==> a[common_prefix(a, b)]
            != b[common_prefix(a, b)],
{
    assert(a.take(0) == b.take(0));
    lemma_common_prefix_from(a, b, 0);
}

proof fn lemma_common_prefix_from(a: Seq<char>, b: Seq<char>, i: int)
    requires
        0 <= i <= a.len(),
        i <= b.len(),
        a.take(i) == b.take(i),
    ensures
        ({
            let n = common_prefix_from(a, b, i);
            &&& i <= n <= a.len()
            &&& n <= b.len()
            &&& a.take(n) == b.take(n)
            &&& n < a.len() && n < b.len() ==> a[n] != b[n]
        }),
    decreases a.len() - i,
{
    if i < a.len() && i < b.len() && a[i] == b[i] {
        assert(a.take(i + 1) == a.take(i).push(a[i]));
        assert(b.take(i + 1) == b.take(i).push(b[i]));
        lemma_common_prefix_from(a, b, i + 1);
    }
}

/// The longest common suffix is common, and no longer one is.
pub proof fn lemma_common_suffix(a: Seq<char>, b: Seq<char>)
    ensures
        ({
            let n = common_suffix(a, b);
            &&& 0 <= n <= a.len()
            &&& n <= b.len()
            &&& a.skip(a.len() - n) == b.skip(b.len() - n)
            &&& n < a.len() && n < b.len() ==> a[a.len() - 1 - n] != b[b.len() - 1 - n]
        }),
{
    assert(a.skip(a.len() as int) == b.skip(b.len() as int));
    lemma_common_suffix_from(a, b, 0);
}

proof fn lemma_common_suffix_from(a: Seq<char>, b: Seq<char>, k: int)
    requires
        0 <= k <= a.len(),
        k <= b.len(),
        a.skip(a.len() - k) == b.skip(b.len() - k),
    ensures
        ({
            let n = common_suffix_from(a, b, k);
            &&& k <= n <= a.len()
            &&& n <= b.len()
            &&& a.skip(a.len() - n) == b.skip(b.len() - n)
            &&& n < a.len() && n < b.len() ==> a[a.len() - 1 - n] != b[b.len() - 1 - n]
        }),
    decreases a.len() - k,
{
    if k < a.len() && k < b.len() && a[a.len() - 1 - k] == b[b.len() - 1 - k] {
        assert(a.skip(a.len() - (k + 1)) == seq![a[a.len() - 1 - k]] + a.skip(a.len() - k));
        assert(b.skip(b.len() - (k + 1)) == seq![b[b.len() - 1 - k]] + b.skip(b.len() - k));
        lemma_common_suffix_from(a, b, k + 1);
    }
}

/// Counts the characters that two texts share at their start, and after those at
/// their end.
pub fn common_affixes(a: &[char], b: &[char]) -> (r: (usize, usize))
    ensures
        r.0 == common_prefix(a@, b@),
        r.1 == common_suffix(a@.skip(r.0 as int), b@.skip(r.0 as int)),
        r.0 + r.1 <= a@.len(),
        r.0 + r.1 <= b@.len(),
{
    let mut p: usize = 0;
    while p < a.len() && p < b.len() && a[p] == b[p]
        invariant
            p <= a@.len(),
            p <= b@.len(),
            common_prefix(a@, b@) == common_prefix_from(a@, b@, p as int),
        decreases a@.len() - p,
    {
        p += 1;
    }
    let ghost rest_a = a@.skip(p as int);
    let ghost rest_b = b@.skip(p as int);
    let mut k: usize = 0;
    while k < a.len() - p && k < b.len() - p && a[a.len() - 1 - k] == b[b.len() - 1 - k]
        invariant
            p <= a@.len(),
            p <= b@.len(),
            rest_a == a@.skip(p as int),
            rest_b == b@.skip(p as int),
            k <= a@.len() - p,
            k <= b@.len() - p,
            common_suffix(rest_a, rest_b) == common_suffix_from(rest_a, rest_b, k as int),
        decreases a@.len() - p - k,
    {
        k += 1;
    }
    (p, k)
}

// ---------------------------------------------------------------------------
// Trimming
// ---------------------------------------------------------------------------

/// A text without its leading white space.
pub open spec fn trim_start(s: Seq<char>) -> Seq<char>
    decreases s.len(),
{
    if s.len() > 0 && white_space(s[0]) {
        trim_start(s.drop_first())
    } else {
        s
    }
}

/// A text without its trailing white space.
pub open spec fn trim_end(s: Seq<char>) -> Seq<char>
    decreases s.len(),
{
    if s.len() > 0 && white_space(s.last()) {
        trim_end(s.drop_last())
    } else {
        s
    }
}

/// A text without leading and trailing white space.
pub open spec fn trimmed(s: Seq<char>) -> Seq<char> {
    trim_end(trim_start(s))
}

/// A trimmed text stands in the text.
pub proof fn lemma_trimmed_occurs(s: Seq<char>)
    ensures
        exists|i: int| occurs_at(s, trimmed(s), i),
{
    lemma_trim_start(s);
    let rest = trim_start(s);
    lemma_trim_end(rest);
    let i = s.len() - rest.len();
    assert(s.subrange(i, i + trimmed(s).len()) =~= rest.take(trimmed(s).len() as int));
    assert(occurs_at(s, trimmed(s), i));
}

proof fn lemma_trim_start(s: Seq<char>)
    ensures
        trim_start(s).len() <= s.len(),
        s.skip(s.len() - trim_start(s).len()) == trim_start(s),
    decreases s.len(),
{
    if s.len() > 0 && white_space(s[0]) {
        lemma_trim_start(s.drop_first());
        let rest = trim_start(s);
        assert(s.skip(s.len() - rest.len()) =~= s.drop_first().skip(
            s.drop_first().len() - rest.len(),
        ));
    } else {
        assert(s.skip(0) =~= s);
    }
}

proof fn lemma_trim_end(s: Seq<char>)
    ensures
        trim_end(s).len() <= s.len(),
        s.take(trim_end(s).len() as int) == trim_end(s),
    decreases s.len(),
{
    if s.len() > 0 && white_space(s.last()) {
        lemma_trim_end(s.drop_last());
        let rest = trim_end(s);
        assert(s.take(rest.len() as int) =~= s.drop_last().take(rest.len() as int));
    } else {
        assert(s.take(s.len() as int) =~= s);
    }
}

/// White space at the end of a text does not matter to the trimmed text.
pub proof fn lemma_trim_last(s: Seq<char>)
    requires
        s.len() > 0,
        white_space(s.last()),
    ensures
        trimmed(s.drop_last()) == trimmed(s),
    decreases s.len(),
{
    if white_space(s[0]) {
        if s.len() == 1 {
            assert(s.drop_last() =~= Seq::<char>::empty());
            assert(s.drop_first() =~= Seq::<char>::empty());
        } else {
            lemma_trim_last(s.drop_first());
            assert(s.drop_last().drop_first() =~= s.drop_first().drop_last());
            assert(s.drop_first().last() == s.last());
        }
    } else {
        assert(s.drop_last().len() > 0);
        assert(s.drop_last()[0] == s[0]);
    }
}

/// A text without leading and trailing white space.
pub fn trim(s: &[char]) -> (r: &[char])
    ensures
        r@ == trimmed(s@),
{
    let mut start: usize = 0;
    assert(s@.skip(0) == s@);
    while start < s.len() && is_white_space(s[start])
        invariant
            start <= s@.len(),
            trim_start(s@) == trim_start(s@.skip(start as int)),
        decreases s@.len() - start,
    {
        assert(s@.skip(start as int).drop_first() == s@.skip(start + 1));
        start += 1;
    }
    let mut end: usize = s.len();
    assert(s@.subrange(start as int, end as int) == s@.skip(start as int));
    while end > start && is_white_space(s[end - 1])
        invariant
            start <= end <= s@.len(),
            trimmed(s@) == trim_end(s@.subrange(start as int, end as int)),
        decreases end - start,
    {
        assert(s@.subrange(start as int, end as int).drop_last() == s@.subrange(
            start as int,
            end - 1,
        ));
        end -= 1;
    }
    slice_subrange(s, start, end)
}

// ---------------------------------------------------------------------------
// Lines
// ---------------------------------------------------------------------------

/// The pieces of a text between the occurrences of a separator, from left to right.
pub open spec fn split_by(s: Seq<char>, sep: Seq<char>) -> Seq<Seq<char>>
    decreases s.len(),
{
    if s.len() == 0 {
        seq![Seq::<char>::empty()]
    } else {
        let before = split_by(s.drop_last(), sep);
        let piece = before.last().push(s.last());
        if has_suffix(piece, sep) {
            before.drop_last().push(piece.take(piece.len() - sep.len())).push(Seq::<char>::empty())
        } else {
            before.drop_last().push(piece)
        }
    }
}

/// The pieces of a text between its line feeds.
pub open spec fn rows(s: Seq<char>) -> Seq<Seq<char>> {
    split_by(s, seq!['\n'])
}

/// Pieces put together with a separator between each two.
pub open spec fn join(pieces: Seq<Seq<char>>, sep: Seq<char>) -> Seq<char>
    decreases pieces.len(),
{
    if pieces.len() == 0 {
        Seq::<char>::empty()
    } else if pieces.len() == 1 {
        pieces[0]
    } else {
        join(pieces.drop_last(), sep) + sep + pieces.last()
    }
}

/// A line without the carriage return at its end.
pub open spec fn without_return(line: Seq<char>) -> Seq<char> {
    if line.len() > 0 && line.last() == '\r' {
        line.drop_last()
    } else {
        line
    }
}

/// The lines of a text: a line ends with a line feed, before which a carriage
/// return may stand, and the ending of the last line is optional.
pub open spec fn text_lines(s: Seq<char>) -> Seq<Seq<char>> {
    let pieces = rows(s);
    let ended = pieces.drop_last().map_values(|piece: Seq<char>| without_return(piece));
    if pieces.last().len() == 0 {
        ended
    } else {
        ended.push(pieces.last())
    }
}

/// The texts that a list of character vectors holds.
pub open spec fn views(v: Seq<Vec<char>>) -> Seq<Seq<char>> {
    Seq::new(v.len(), |i: int| v[i]@)
}

/// There is always at least one piece.
pub proof fn lemma_split_nonempty(s: Seq<char>, sep: Seq<char>)
    ensures
        split_by(s, sep).len() >= 1,
    decreases s.len(),
{
    if s.len() > 0 {
        lemma_split_nonempty(s.drop_last(), sep);
    }
}

/// Splits a text at a separator.
pub fn split(s: &[char], sep: &[char]) -> (pieces: Vec<Vec<char>>)
    requires
        sep@.len() > 0,
    ensures
        views(pieces@) == split_by(s@, sep@),
        pieces@.len() >= 1,
{
    let mut pieces: Vec<Vec<char>> = Vec::new();
    let mut piece: Vec<char> = Vec::new();
    let mut i: usize = 0;
    assert(views(pieces@).push(piece@) =~= seq![Seq::<char>::empty()]);
    while i < s.len()
        invariant
            i <= s@.len(),
            sep@.len() > 0,
            views(pieces@).push(piece@) == split_by(s@.take(i as int), sep@),
        decreases s@.len() - i,
    {
        let ghost before = split_by(s@.take(i as int), sep@);
        let ghost head = views(pieces@);
        assert(s@.take(i + 1).drop_last() == s@.take(i as int));
        assert(before.drop_last() == head);
        assert(before.last() == piece@);
        piece.push(s[i]);
        if ends_with(piece.as_slice(), sep) {
            let ghost full = piece@;
            piece.truncate(piece.len() - sep.len());
            assert(piece@ == full.take(full.len() - sep@.len()));
            let ghost cut = piece@;
            pieces.push(piece);
            assert(views(pieces@) == head.push(cut));
            piece = Vec::new();
        }
        i += 1;
    }
    assert(s@.take(i as int) == s@);
    let ghost head = views(pieces@);
    let ghost last = piece@;
    pieces.push(piece);
    assert(views(pieces@) == head.push(last));
    pieces
}

/// The rows of a text.
pub fn split_rows(s: &[char]) -> (pieces: Vec<Vec<char>>)
    ensures
        views(pieces@) == rows(s@),
        pieces@.len() >= 1,
{
    let sep: Vec<char> = vec!['\n'];
    assert(sep@ == seq!['\n']);
    split(s, sep.as_slice())
}

/// The lines of a text.
pub fn split_lines(s: &[char]) -> (lines: Vec<Vec<char>>)
    ensures
        views(lines@) == text_lines(s@),
{
    let mut pieces: Vec<Vec<char>> = split_rows(s);
    let ghost all = rows(s@);
    let ghost given = pieces@;
    let mut lines: Vec<Vec<char>> = Vec::new();
    let last: usize = pieces.len() - 1;
    let mut i: usize = 0;
    while i < last
        invariant
            pieces@ == given,
            views(given) == all,
            last == all.len() - 1,
            i <= last,
            views(lines@) == all.take(i as int).map_values(
                |piece: Seq<char>| without_return(piece),
            ),
        decreases last - i,
    {
        assert(all[i as int] == pieces@[i as int]@);
        let mut end: usize = pieces[i].len();
        if end > 0 && pieces[i][end - 1] == '\r' {
            end -= 1;
        }
        let line: Vec<char> = vstd::slice::slice_to_vec(
            slice_subrange(pieces[i].as_slice(), 0, end),
        );
        assert(line@ == without_return(all[i as int]));
        let ghost before = views(lines@);
        lines.push(line);
        assert(views(lines@) =~= before.push(line@));
        assert(all.take(i + 1) == all.take(i as int).push(all[i as int]));
        i += 1;
    }
    assert(all.drop_last() == all.take(last as int));
    assert(all.last() == given[last as int]@);
    if pieces[last].len() > 0 {
        let ghost before = views(lines@);
        let line: Vec<char> = pieces.swap_remove(last);
        lines.push(line);
        assert(views(lines@) =~= before.push(line@));
    }
    lines
}

/// Joins pieces with a separator.
pub fn join_pieces(pieces: &Vec<Vec<char>>, sep: &[char]) -> (s: Vec<char>)
    ensures
        s@ == join(views(pieces@), sep@),
{
    let mut s: Vec<char> = Vec::new();
    let mut i: usize = 0;
    while i < pieces.len()
        invariant
            i <= pieces@.len(),
            s@ == join(views(pieces@).take(i as int), sep@),
        decreases pieces@.len() - i,
    {
        let ghost all = views(pieces@);
        assert(all.take(i + 1).drop_last() == all.take(i as int));
        if i > 0 {
            s.extend_from_slice(sep);
        }
        s.extend_from_slice(pieces[i].as_slice());
        i += 1;
    }
    assert(views(pieces@).take(i as int) == views(pieces@));
    s
}

// ---------------------------------------------------------------------------
// Counting rows
// ---------------------------------------------------------------------------

/// The line feeds of a text.
pub open spec fn line_feeds(s: Seq<char>) -> Seq<char> {
    s.filter(|c: char| c == '\n')
}

proof fn lemma_line_feeds_push(s: Seq<char>, c: char)
    ensures
        line_feeds(s.push(c)) == if c == '\n' {
            line_feeds(s).push('\n')
        } else {
            line_feeds(s)
        },
{
    reveal(Seq::filter);
    assert(s.push(c).drop_last() =~= s);
}

/// The line feeds of a text are nothing but line feeds, and have none to lose.
pub proof fn lemma_line_feeds(s: Seq<char>)
    ensures
        forall|i: int| 0 <= i < line_feeds(s).len() ==> #[trigger] line_feeds(s)[i] == '\n',
        line_feeds(line_feeds(s)) == line_feeds(s),
    decreases s.len(),
{
    reveal(Seq::filter);
    if s.len() > 0 {
        lemma_line_feeds(s.drop_last());
        lemma_line_feeds_push(s.drop_last(), s.last());
        assert(s.drop_last().push(s.last()) =~= s);
        lemma_line_feeds_push(line_feeds(s.drop_last()), '\n');
    }
}

/// A text that holds no line feed has none.
pub proof fn lemma_no_line_feeds(s: Seq<char>)
    requires
        !s.contains('\n'),
    ensures
        line_feeds(s) == Seq::<char>::empty(),
    decreases s.len(),
{
    reveal(Seq::filter);
    if s.len() > 0 {
        let head = s.drop_last();
        assert(s[s.len() - 1] != '\n');
        assert forall|i: int| 0 <= i < head.len() implies head[i] != '\n' by {
            assert(s[i] != '\n');
        }
        lemma_no_line_feeds(head);
        lemma_line_feeds_push(head, s.last());
        assert(head.push(s.last()) =~= s);
    }
}

/// A text has one row more than line feeds.
pub proof fn lemma_row_count(s: Seq<char>)
    ensures
        rows(s).len() == line_feeds(s).len() + 1,
    decreases s.len(),
{
    reveal(Seq::filter);
    if s.len() > 0 {
        let sep = seq!['\n'];
        let before = rows(s.drop_last());
        let piece = before.last().push(s.last());
        lemma_row_count(s.drop_last());
        lemma_line_feeds_push(s.drop_last(), s.last());
        assert(s.drop_last().push(s.last()) =~= s);
        assert(piece.skip(piece.len() - 1) =~= seq![s.last()]);
        assert(sep[0] == '\n');
        assert(has_suffix(piece, sep) <==> s.last() == '\n') by {
            if has_suffix(piece, sep) {
                assert(piece.skip(piece.len() - 1)[0] == '\n');
            }
        }
    }
}

/// The rows of two texts with a line feed between them are the rows of the one and then
/// those of the other.
pub proof fn lemma_rows_append(a: Seq<char>, b: Seq<char>)
    ensures
        rows(a + seq!['\n'] + b) == rows(a) + rows(b),
    decreases b.len(),
{
    let sep = seq!['\n'];
    let front = a + sep;
    if b.len() == 0 {
        assert(front + b =~= front);
        lemma_split_separator(a, sep);
        assert(rows(a).push(Seq::<char>::empty()) =~= rows(a) + rows(b));
    } else {
        lemma_rows_append(a, b.drop_last());
        lemma_split_nonempty(b.drop_last(), sep);
        assert((front + b).drop_last() =~= front + b.drop_last());
        let before = rows(b.drop_last());
        assert((rows(a) + before).last() == before.last());
        assert((rows(a) + before).drop_last() =~= rows(a) + before.drop_last());
        assert(rows(front + b) =~= rows(a) + rows(b));
    }
}

/// The line feeds of a text.
pub fn line_feeds_of(s: &[char]) -> (feeds: Vec<char>)
    ensures
        feeds@ == line_feeds(s@),
{
    let mut feeds: Vec<char> = Vec::new();
    let mut i: usize = 0;
    proof {
        reveal(Seq::filter);
        assert(line_feeds(s@.take(0)) =~= feeds@);
    }
    while i < s.len()
        invariant
            i <= s@.len(),
            feeds@ == line_feeds(s@.take(i as int)),
        decreases s@.len() - i,
    {
        proof {
            lemma_line_feeds_push(s@.take(i as int), s@[i as int]);
            assert(s@.take(i as int).push(s@[i as int]) =~= s@.take(i + 1));
        }
        if s[i] == '\n' {
            feeds.push('\n');
        }
        i += 1;
    }
    assert(s@.take(i as int) =~= s@);
    feeds
}

// ---------------------------------------------------------------------------
// Splitting and joining undo each other
// ---------------------------------------------------------------------------

/// Whether a separator can only be completed by its last character.
pub open spec fn plain_separator(sep: Seq<char>) -> bool {
    sep.len() > 0 && forall|i: int| 0 <= i < sep.len() - 1 ==> sep[i] != sep.last()
}

/// Whether a text holds no occurrence of another.
pub open spec fn free_of(s: Seq<char>, sep: Seq<char>) -> bool {
    forall|i: int| !occurs_at(s, sep, i)
}

/// Adding a piece adds a separator and the piece.
pub proof fn lemma_join_push(head: Seq<Seq<char>>, piece: Seq<char>, sep: Seq<char>)
    ensures
        head.len() == 0 ==> join(head.push(piece), sep) == piece,
        head.len() > 0 ==> join(head.push(piece), sep) == join(head, sep) + sep + piece,
{
    assert(head.push(piece).drop_last() == head);
}

/// Joining the pieces of a text gives the text back.
pub proof fn lemma_join_split(s: Seq<char>, sep: Seq<char>)
    requires
        sep.len() > 0,
    ensures
        join(split_by(s, sep), sep) == s,
    decreases s.len(),
{
    if s.len() > 0 {
        let before = split_by(s.drop_last(), sep);
        let piece = before.last().push(s.last());
        let head = before.drop_last();
        lemma_split_nonempty(s.drop_last(), sep);
        lemma_join_split(s.drop_last(), sep);
        lemma_join_push(head, before.last(), sep);
        assert(head.push(before.last()) == before);
        lemma_join_push(head, piece, sep);
        assert(s == s.drop_last().push(s.last()));
        if has_suffix(piece, sep) {
            let cut = piece.take(piece.len() - sep.len());
            assert(cut + sep == piece);
            lemma_join_push(head, cut, sep);
            lemma_join_push(head.push(cut), Seq::<char>::empty(), sep);
            assert(join(split_by(s, sep), sep) =~= s);
        } else {
            assert(join(split_by(s, sep), sep) =~= s);
        }
    }
}

/// No piece of a split text holds the separator.
pub proof fn lemma_split_free(s: Seq<char>, sep: Seq<char>)
    requires
        sep.len() > 0,
    ensures
        forall|j: int| 0 <= j < split_by(s, sep).len() ==> free_of(#[trigger] split_by(s, sep)[j], sep),
    decreases s.len(),
{
    if s.len() > 0 {
        let before = split_by(s.drop_last(), sep);
        let old_piece = before.last();
        let piece = old_piece.push(s.last());
        lemma_split_nonempty(s.drop_last(), sep);
        lemma_split_free(s.drop_last(), sep);
        assert(free_of(before[before.len() - 1], sep));
        assert forall|i: int| occurs_at(piece, sep, i) implies has_suffix(piece, sep) && i
            == piece.len() - sep.len() by {
            if i + sep.len() <= old_piece.len() {
                assert(old_piece.subrange(i, i + sep.len()) == piece.subrange(i, i + sep.len()));
                assert(occurs_at(old_piece, sep, i));
            } else {
                assert(piece.skip(piece.len() - sep.len()) == piece.subrange(i, i + sep.len()));
            }
        }
        if has_suffix(piece, sep) {
            let cut = piece.take(piece.len() - sep.len());
            assert forall|i: int| !occurs_at(cut, sep, i) by {
                if occurs_at(cut, sep, i) {
                    assert(cut.subrange(i, i + sep.len()) == piece.subrange(i, i + sep.len()));
                    assert(occurs_at(piece, sep, i));
                }
            }
            assert(free_of(cut, sep));
            assert(free_of(Seq::<char>::empty(), sep));
            let after = before.drop_last().push(cut).push(Seq::<char>::empty());
            assert forall|j: int| 0 <= j < after.len() implies free_of(#[trigger] after[j], sep) by {
                if j < before.len() - 1 {
                    assert(after[j] == before[j]);
                }
            }
        } else {
            assert(free_of(piece, sep));
            let after = before.drop_last().push(piece);
            assert forall|j: int| 0 <= j < after.len() implies free_of(#[trigger] after[j], sep) by {
                if j < before.len() - 1 {
                    assert(after[j] == before[j]);
                }
            }
        }
    } else {
        assert(free_of(Seq::<char>::empty(), sep));
    }
}

/// Characters that complete no separator only make the last piece longer.
pub proof fn lemma_split_extend(s: Seq<char>, more: Seq<char>, sep: Seq<char>)
    requires
        forall|k: int|
            1 <= k <= more.len() ==> !has_suffix(
                split_by(s, sep).last() + #[trigger] more.take(k),
                sep,
            ),
    ensures
        split_by(s + more, sep) == split_by(s, sep).drop_last().push(
            split_by(s, sep).last() + more,
        ),
    decreases more.len(),
{
    let pieces = split_by(s, sep);
    lemma_split_nonempty(s, sep);
    if more.len() == 0 {
        assert(s + more == s);
        assert(pieces.last() + more == pieces.last());
        assert(pieces.drop_last().push(pieces.last()) == pieces);
    } else {
        let shorter = more.drop_last();
        assert forall|k: int| 1 <= k <= shorter.len() implies !has_suffix(
            pieces.last() + #[trigger] shorter.take(k),
            sep,
        ) by {
            assert(shorter.take(k) == more.take(k));
        }
        lemma_split_extend(s, shorter, sep);
        assert((s + more).drop_last() == s + shorter);
        assert((pieces.last() + shorter).push(more.last()) == pieces.last() + more);
        assert(more.take(more.len() as int) == more);
        let before = split_by(s + shorter, sep);
        assert(before.drop_last() == pieces.drop_last());
    }
}

/// A separator ends the last piece and begins an empty one.
pub proof fn lemma_split_separator(s: Seq<char>, sep: Seq<char>)
    requires
        plain_separator(sep),
    ensures
        split_by(s + sep, sep) == split_by(s, sep).push(Seq::<char>::empty()),
{
    let pieces = split_by(s, sep);
    lemma_split_nonempty(s, sep);
    let start = sep.drop_last();
    assert forall|k: int| 1 <= k <= start.len() implies !has_suffix(
        pieces.last() + #[trigger] start.take(k),
        sep,
    ) by {
        let t = pieces.last() + start.take(k);
        if has_suffix(t, sep) {
            assert(t.skip(t.len() - sep.len()).last() == t.last());
            assert(t.last() == sep[k - 1]);
        }
    }
    lemma_split_extend(s, start, sep);
    assert((s + sep).drop_last() == s + start);
    let before = split_by(s + start, sep);
    let piece = before.last().push(sep.last());
    assert(piece == pieces.last() + sep);
    assert(piece.skip(piece.len() - sep.len()) == sep);
    assert(piece.take(piece.len() - sep.len()) == pieces.last());
    assert(before.drop_last() == pieces.drop_last());
    assert(pieces.drop_last().push(pieces.last()) == pieces);
}

/// Splitting joined pieces gives the pieces back, when none of them holds the separator.
pub proof fn lemma_split_join(pieces: Seq<Seq<char>>, sep: Seq<char>)
    requires
        plain_separator(sep),
        pieces.len() > 0,
        forall|j: int| 0 <= j < pieces.len() ==> free_of(#[trigger] pieces[j], sep),
    ensures
        split_by(join(pieces, sep), sep) == pieces,
    decreases pieces.len(),
{
    let piece = pieces.last();
    let head = pieces.drop_last();
    assert(free_of(pieces[pieces.len() - 1], sep));
    assert forall|k: int| 1 <= k <= piece.len() implies !has_suffix(
        Seq::<char>::empty() + #[trigger] piece.take(k),
        sep,
    ) by {
        let t = Seq::<char>::empty() + piece.take(k);
        assert(t == piece.take(k));
        if has_suffix(t, sep) {
            assert(piece.subrange(k - sep.len(), k) == t.skip(k - sep.len()));
            assert(occurs_at(piece, sep, k - sep.len()));
        }
    }
    assert(Seq::<char>::empty() + piece == piece);
    if pieces.len() == 1 {
        let s = Seq::<char>::empty();
        lemma_split_extend(s, piece, sep);
        assert(pieces =~= Seq::<Seq<char>>::empty().push(piece));
        assert(split_by(s, sep).drop_last() =~= Seq::<Seq<char>>::empty());
    } else {
        assert forall|j: int| 0 <= j < head.len() implies free_of(#[trigger] head[j], sep) by {
            assert(head[j] == pieces[j]);
        }
        lemma_split_join(head, sep);
        let t = join(head, sep);
        lemma_split_separator(t, sep);
        let u = t + sep;
        lemma_split_extend(u, piece, sep);
        assert(split_by(u, sep).drop_last() =~= head);
        assert(head.push(piece) == pieces);
    }
}

// ---------------------------------------------------------------------------
// What trimming, lines and searching mean
// ---------------------------------------------------------------------------

/// The code points that are white space.
pub proof fn lemma_white_space(c: char)
    ensures
        ({
            let code = c as int;
            white_space(c) <==> (9 <= code <= 13 || code == 32 || code == 133 || code == 160 || code
                == 5760 || 8192 <= code <= 8202 || code == 8232 || code == 8233 || code == 8239
                || code == 8287 || code == 12288)
        }),
{
}

/// A text is its trimmed text with nothing but white space around it, and the trimmed text
/// neither begins nor ends with white space.
pub proof fn lemma_trimmed(s: Seq<char>)
    ensures
        exists|start: int, end: int|
            {
                &&& 0 <= start <= end <= s.len()
                &&& #[trigger] s.subrange(start, end) == trimmed(s)
                &&& forall|i: int| 0 <= i < start ==> white_space(#[trigger] s[i])
                &&& forall|i: int| end <= i < s.len() ==> white_space(#[trigger] s[i])
            },
        trimmed(s).len() > 0 ==> !white_space(trimmed(s)[0]) && !white_space(trimmed(s).last()),
{
    lemma_trim_start_space(s);
    let rest = trim_start(s);
    lemma_trim_end_space(rest);
    lemma_trim_start(s);
    lemma_trim_end(rest);
    let start = s.len() - rest.len();
    let end = start + trimmed(s).len();
    assert(s.subrange(start, end) =~= rest.take(trimmed(s).len() as int));
    assert forall|i: int| end <= i < s.len() implies white_space(#[trigger] s[i]) by {
        assert(s.skip(start)[i - start] == s[i]);
        assert(white_space(rest[i - start]));
    }
    if trimmed(s).len() > 0 {
        assert(trimmed(s)[0] == rest.take(trimmed(s).len() as int)[0]);
    }
}

proof fn lemma_trim_start_space(s: Seq<char>)
    ensures
        forall|i: int| 0 <= i < s.len() - trim_start(s).len() ==> white_space(#[trigger] s[i]),
        trim_start(s).len() > 0 ==> !white_space(trim_start(s)[0]),
    decreases s.len(),
{
    if s.len() > 0 && white_space(s[0]) {
        let rest = s.drop_first();
        lemma_trim_start_space(rest);
        assert forall|i: int| 0 <= i < s.len() - trim_start(s).len() implies white_space(
            #[trigger] s[i],
        ) by {
            if i > 0 {
                assert(white_space(rest[i - 1]));
            }
        }
    }
}

proof fn lemma_trim_end_space(s: Seq<char>)
    ensures
        forall|i: int| trim_end(s).len() <= i < s.len() ==> white_space(#[trigger] s[i]),
        trim_end(s).len() > 0 ==> !white_space(trim_end(s).last()),
    decreases s.len(),
{
    if s.len() > 0 && white_space(s.last()) {
        let rest = s.drop_last();
        lemma_trim_end_space(rest);
        assert forall|i: int| trim_end(s).len() <= i < s.len() implies white_space(
            #[trigger] s[i],
        ) by {
            if i < rest.len() {
                assert(white_space(rest[i]));
            }
        }
    }
}

/// Lines are read one by one: a line ends with a line feed, with or without a carriage return
/// in front of it, and what is left at the end is a line when it is not empty.
pub proof fn lemma_lines_one_by_one(s: Seq<char>, line: Seq<char>)
    requires
        s.len() == 0 || s.last() == '\n',
        !line.contains('\n'),
        line.len() == 0 || line.last() != '\r',
    ensures
        text_lines(Seq::empty()) == Seq::<Seq<char>>::empty(),
        text_lines(s + line + seq!['\n']) == text_lines(s).push(line),
        text_lines(s + line + seq!['\r', '\n']) == text_lines(s).push(line),
        line.len() > 0 ==> text_lines(s + line) == text_lines(s).push(line),
        text_lines(s + line + seq!['\r']) == text_lines(s).push(line.push('\r')),
{
    assert(text_lines(Seq::empty()) =~= Seq::<Seq<char>>::empty());
    let returned = line.push('\r');
    assert(!returned.contains('\n')) by {
        if returned.contains('\n') {
            let i = returned.index_of('\n');
            assert(line[i] == '\n');
        }
    }
    lemma_line_added(s, line);
    lemma_line_added(s, returned);
    assert(s + line + seq!['\r', '\n'] =~= s + returned + seq!['\n']);
    assert(s + line + seq!['\r'] =~= s + returned);
    assert(returned.drop_last() =~= line);
}

proof fn lemma_line_added(s: Seq<char>, line: Seq<char>)
    requires
        s.len() == 0 || s.last() == '\n',
        !line.contains('\n'),
    ensures
        text_lines(s + line + seq!['\n']) == text_lines(s).push(without_return(line)),
        line.len() > 0 ==> text_lines(s + line) == text_lines(s).push(line),
{
    let sep = seq!['\n'];
    assert(free_of(line, sep)) by {
        assert forall|i: int| !occurs_at(line, sep, i) by {
            if occurs_at(line, sep, i) {
                assert(line.subrange(i, i + 1)[0] == '\n');
                assert(line[i] == '\n');
            }
        }
    }
    lemma_split_join(seq![line], sep);
    assert(join(seq![line], sep) == line);
    assert(rows(line) == seq![line]);
    lemma_split_separator(line, sep);
    let ended = rows(line + sep);
    assert(ended =~= seq![line, Seq::<char>::empty()]);
    if s.len() == 0 {
        assert(s + line =~= line);
        assert(s + line + sep =~= line + sep);
        assert(rows(s) =~= seq![Seq::<char>::empty()]);
        assert(text_lines(s) =~= Seq::<Seq<char>>::empty());
        assert(text_lines(line + sep) =~= seq![without_return(line)]);
        if line.len() > 0 {
            assert(text_lines(line) =~= seq![line]);
        }
        assert(Seq::<Seq<char>>::empty().push(line) =~= seq![line]);
        assert(Seq::<Seq<char>>::empty().push(without_return(line)) =~= seq![
            without_return(line),
        ]);
    } else {
        let t = s.drop_last();
        assert(t + sep =~= s);
        lemma_split_separator(t, sep);
        lemma_rows_append(t, line);
        lemma_rows_append(t, line + sep);
        assert(t + sep + (line + sep) =~= s + line + sep);
        let before = rows(t);
        assert(rows(s + line) =~= before.push(line));
        assert(rows(s + line + sep) =~= before.push(line).push(Seq::<char>::empty()));
        assert(rows(s).drop_last() =~= before);
        assert(rows(s + line + sep).drop_last() =~= before.push(line));
        assert(rows(s + line).drop_last() =~= before);
        assert(text_lines(s + line + sep) =~= text_lines(s).push(without_return(line)));
        if line.len() > 0 {
            assert(text_lines(s + line) =~= text_lines(s).push(line));
        }
    }
}

/// What is found stands there, and not in front of where the search began; nothing is found
/// only where nothing stands.
pub proof fn lemma_found(hay: Seq<char>, needle: Seq<char>, from: int)
    requires
        0 <= from,
    ensures
        match find_from(hay, needle, from) {
            Some(i) => {
                &&& from <= i
                &&& i + needle.len() <= hay.len()
                &&& hay.subrange(i, i + needle.len()) == needle
                &&& forall|j: int|
                    from <= j < i ==> #[trigger] hay.subrange(j, j + needle.len()) != needle
            },
            None => forall|j: int|
                from <= j <= hay.len() - needle.len() ==> #[trigger] hay.subrange(
                    j,
                    j + needle.len(),
                ) != needle,
        },
    decreases hay.len() + 1 - from,
{
    if from + needle.len() <= hay.len() && !occurs_at(hay, needle, from) {
        lemma_found(hay, needle, from + 1);
    }
}

/// A character counts two UTF-16 code units when it is beyond the basic plane, and else one.
pub proof fn lemma_utf16_push(s: Seq<char>, c: char)
    ensures
        utf16_len(s.push(c)) == utf16_len(s) + if c as int > 65535 {
            2int
        } else {
            1int
        },
        utf16_len(Seq::empty()) == 0,
{
    assert(s.push(c).drop_last() =~= s);
}

} // verus!

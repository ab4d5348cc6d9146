//! Characters of the source text: their UTF-8 widths, byte offsets into a
//! text, and the character classes the tokenizer asks about.

use vstd::prelude::*;

verus! {

/// Number of bytes the UTF-8 encoding of `c` takes.
pub open spec fn utf8_width(c: char) -> nat {
    if (c as u32) < 0x80 {
        1
    } else if (c as u32) < 0x800 {
        2
    } else if (c as u32) < 0x10000 {
        3
    } else {
        4
    }
}

/// `c` is encoded in a single byte (it is ASCII).
pub open spec fn is_one_byte(c: char) -> bool {
    (c as u32) < 0x80
}

/// Where byte offset `n` of the UTF-8 encoding of the text `s` falls.
pub enum ByteSplit {
    /// The text has fewer than `n` bytes.
    Short,
    /// Offset `n` lies strictly inside the encoding of some char.
    Inside,
    /// Offset `n` is the boundary right after the first `k` chars.
    At(nat),
}

/// Locates byte offset `n` in the text `s`.
pub open spec fn byte_split(s: Seq<char>, n: nat) -> ByteSplit
    decreases s.len(),
{
    if n == 0 {
        ByteSplit::At(0)
    } else if s.len() == 0 {
        ByteSplit::Short
    } else if utf8_width(s[0]) > n {
        ByteSplit::Inside
    } else {
        match byte_split(s.drop_first(), (n - utf8_width(s[0])) as nat) {
            ByteSplit::At(k) => ByteSplit::At(k + 1),
            other => other,
        }
    }
}

/// What remains of the text `s` after `String::split_off(n)` / `str::split_at(n)`
/// at byte offset `n`; `None` where std panics (`n` is not a char boundary or
/// lies beyond the end of the text).
pub open spec fn split_off_bytes(s: Seq<char>, n: nat) -> Option<Seq<char>> {
    match byte_split(s, n) {
        ByteSplit::At(k) => Some(s.skip(k as int)),
        _ => None,
    }
}

/// A boundary found by `byte_split` lies within the text, and is past the
/// first char when the offset is positive.
pub proof fn lemma_byte_split_at(s: Seq<char>, n: nat)
    ensures
        byte_split(s, n) matches ByteSplit::At(k) ==> k <= s.len() && (n > 0 ==> k > 0),
    decreases s.len(),
{
    if n > 0 && s.len() > 0 && utf8_width(s[0]) <= n {
        lemma_byte_split_at(s.drop_first(), (n - utf8_width(s[0])) as nat);
    }
}

/// In a text whose first `n` chars are ASCII, byte offset `n` is the boundary
/// after those `n` chars.
pub proof fn lemma_byte_split_ascii(s: Seq<char>, n: nat)
    requires
        n <= s.len(),
        forall|i: int| 0 <= i < n ==> is_one_byte(#[trigger] s[i]),
    ensures
        byte_split(s, n) == ByteSplit::At(n),
    decreases n,
{
    if n > 0 {
        assert(is_one_byte(s[0]));
        let t = s.drop_first();
        assert forall|i: int| 0 <= i < n - 1 implies is_one_byte(#[trigger] t[i]) by {
            assert(t[i] == s[i + 1]);
        }
        lemma_byte_split_ascii(t, (n - 1) as nat);
    }
}

/// In an ASCII text, a byte offset beyond its end is past its last char.
pub proof fn lemma_byte_split_ascii_short(s: Seq<char>, n: nat)
    requires
        n > s.len(),
        forall|i: int| 0 <= i < s.len() ==> is_one_byte(#[trigger] s[i]),
    ensures
        byte_split(s, n) == ByteSplit::Short,
    decreases s.len(),
{
    if s.len() > 0 {
        assert(is_one_byte(s[0]));
        let t = s.drop_first();
        assert forall|i: int| 0 <= i < t.len() implies is_one_byte(#[trigger] t[i]) by {
            assert(t[i] == s[i + 1]);
        }
        lemma_byte_split_ascii_short(t, (n - 1) as nat);
    }
}

/// Executable counterpart of `ByteSplit`, with the boundary as a char index.
pub enum Boundary {
    Short,
    Inside,
    At(usize),
}

/// `b` reports the same place as `s`, with `At` indices shifted by `base`.
pub open spec fn boundary_matches(b: Boundary, s: ByteSplit, base: int) -> bool {
    match s {
        ByteSplit::Short => b is Short,
        ByteSplit::Inside => b is Inside,
        ByteSplit::At(k) => b matches Boundary::At(j) && j == base + k,
    }
}

/// Number of bytes the UTF-8 encoding of `c` takes.
pub fn width(c: char) -> (w: usize)
    ensures
        w == utf8_width(c),
{
    if (c as u32) < 0x80 {
        1
    } else if (c as u32) < 0x800 {
        2
    } else if (c as u32) < 0x10000 {
        3
    } else {
        4
    }
}

/// Finds byte offset `n` of the text `chars[i..]`; an `At` result is an index
/// into `chars`.
pub fn find_byte_offset(chars: &Vec<char>, i: usize, n: usize) -> (b: Boundary)
    requires
        i <= chars.len(),
    ensures
        boundary_matches(b, byte_split(chars@.skip(i as int), n as nat), i as int),
{
    let ghost s = chars@.skip(i as int);
    let mut j: usize = i;
    let mut used: usize = 0;
    while used < n
        invariant
            i <= j <= chars.len(),
            used <= n,
            s == chars@.skip(i as int),
            forall|b: Boundary|
                boundary_matches(b, byte_split(chars@.skip(j as int), (n - used) as nat), j as int)
                    ==> #[trigger] boundary_matches(b, byte_split(s, n as nat), i as int),
        decreases n - used,
    {
        let ghost t = chars@.skip(j as int);
        if j == chars.len() {
            assert(t.len() == 0);
            return Boundary::Short;
        }
        let w = width(chars[j]);
        assert(t[0] == chars@[j as int]);
        if w > n - used {
            return Boundary::Inside;
        }
        assert(t.drop_first() =~= chars@.skip(j + 1));
        used = used + w;
        j = j + 1;
    }
    assert(byte_split(chars@.skip(j as int), 0) == ByteSplit::At(0));
    Boundary::At(j)
}

/// Whether `c` has the Unicode `White_Space` property, which `char::is_whitespace`
/// reports: U+0009 to U+000D, U+0020, U+0085, U+00A0, U+1680, U+2000 to U+200A,
/// U+2028, U+2029, U+202F, U+205F and U+3000.
pub open spec fn char_is_whitespace(c: char) -> bool {
    ('\u{9}' <= c <= '\u{d}') || c == ' ' || c == '\u{85}' || c == '\u{a0}' || c == '\u{1680}'
        || ('\u{2000}' <= c <= '\u{200a}') || c == '\u{2028}' || c == '\u{2029}' || c
        == '\u{202f}' || c == '\u{205f}' || c == '\u{3000}'
}

/// Whether `c` has the Unicode `White_Space` property.
pub fn is_whitespace(c: char) -> (b: bool)
    ensures
        b == char_is_whitespace(c),
{
    ('\u{9}' <= c && c <= '\u{d}') || c == ' ' || c == '\u{85}' || c == '\u{a0}' || c
        == '\u{1680}' || ('\u{2000}' <= c && c <= '\u{200a}') || c == '\u{2028}' || c
        == '\u{2029}' || c == '\u{202f}' || c == '\u{205f}' || c == '\u{3000}'
}

/// Whether `c` has the Unicode `Alphabetic` property, as `char::is_alphabetic` reports it.
pub uninterp spec fn char_is_alphabetic(c: char) -> bool;

/// `c` is one of the ASCII letters `a`..`z`, `A`..`Z`.
pub open spec fn is_ascii_letter(c: char) -> bool {
    ('a' <= c <= 'z') || ('A' <= c <= 'Z')
}

/// Whether `c` is a letter for the tokenizer: among ASCII chars exactly the
/// letters `a`..`z`, `A`..`Z`; beyond ASCII, the chars with the `Alphabetic` property.
pub open spec fn is_letter(c: char) -> bool {
    if is_one_byte(c) {
        is_ascii_letter(c)
    } else {
        char_is_alphabetic(c)
    }
}

/// Calls `char::is_alphabetic`. Trusted: its result is named
/// (`char_is_alphabetic`), and among ASCII chars it holds exactly of the letters
/// `a`..`z`, `A`..`Z`, as std documents; which chars beyond ASCII have the
/// property is left to std.
#[verifier::external_body]
pub(crate) fn is_alphabetic(c: char) -> (b: bool)
    ensures
        b == char_is_alphabetic(c),
        is_one_byte(c) ==> (b <==> is_ascii_letter(c)),
{
    c.is_alphabetic()
}

/// `c` is one of the ASCII digits `0`..`9`.
pub open spec fn is_ascii_digit(c: char) -> bool {
    '0' <= c <= '9'
}

/// Value of the ASCII digit `c`.
pub open spec fn digit_value(c: char) -> int {
    (c as u32) - ('0' as u32)
}

/// `c` is one of the ASCII digits `0`..`9`.
pub fn ascii_digit(c: char) -> (b: bool)
    ensures
        b == is_ascii_digit(c),
{
    '0' <= c && c <= '9'
}

/// The chars of `src`, in order.
pub fn text_chars(src: &str) -> (v: Vec<char>)
    ensures
        v@ == src@,
{
    let mut v: Vec<char> = Vec::new();
    for c in it: src.chars()
        invariant
            v@ == it.seq().take(it.index() as int),
            it.seq() == src@,
    {
        v.push(c);
    }
    v
}

} // verus!

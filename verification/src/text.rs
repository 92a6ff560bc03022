//! White space and trimming, on strings of characters.
use vstd::prelude::*;

verus! {

/// The characters that `char::is_whitespace` accepts: those with the Unicode `White_Space`
/// property.
pub open spec fn is_white_space(c: char) -> bool {
    let u = c as u32;
    (0x09 <= u <= 0x0d) || u == 0x20 || u == 0x85 || u == 0xa0 || u == 0x1680 || (0x2000 <= u
        <= 0x200a) || u == 0x2028 || u == 0x2029 || u == 0x202f || u == 0x205f || u == 0x3000
}

/// `s` without its leading white space.
pub open spec fn trim_start(s: Seq<char>) -> Seq<char>
    decreases s.len(),
{
    if s.len() > 0 && is_white_space(s[0]) {
        trim_start(s.drop_first())
    } else {
        s
    }
}

/// `s` without its trailing white space.
pub open spec fn trim_end(s: Seq<char>) -> Seq<char>
    decreases s.len(),
{
    if s.len() > 0 && is_white_space(s.last()) {
        trim_end(s.drop_last())
    } else {
        s
    }
}

/// `s` without its leading and trailing white space.
pub open spec fn trimmed(s: Seq<char>) -> Seq<char> {
    trim_end(trim_start(s))
}

/// Trimming the start drops exactly the white space before position `f`, where the first other
/// character stands (or the end).
proof fn lemma_trim_start(s: Seq<char>, f: int)
    requires
        0 <= f <= s.len(),
        forall|i: int| 0 <= i < f ==> is_white_space(#[trigger] s[i]),
        f == s.len() || !is_white_space(s[f]),
    ensures
        trim_start(s) == s.subrange(f, s.len() as int),
    decreases f,
{
    if f == 0 {
        assert(s.subrange(0, s.len() as int) =~= s);
    } else {
        let t = s.drop_first();
        assert forall|i: int| 0 <= i < f - 1 implies is_white_space(#[trigger] t[i]) by {
            assert(t[i] == s[i + 1]);
        }
        lemma_trim_start(t, f - 1);
        assert(t.subrange(f - 1, t.len() as int) =~= s.subrange(f, s.len() as int));
    }
}

/// Trimming the end drops exactly the white space from position `l` on, where `l` follows the
/// last other character (or is the start).
proof fn lemma_trim_end(s: Seq<char>, l: int)
    requires
        0 <= l <= s.len(),
        forall|i: int| l <= i < s.len() ==> is_white_space(#[trigger] s[i]),
        l == 0 || !is_white_space(s[l - 1]),
    ensures
        trim_end(s) == s.subrange(0, l),
    decreases s.len() - l,
{
    if l == s.len() {
        assert(s.subrange(0, l) =~= s);
    } else {
        let t = s.drop_last();
        assert forall|i: int| l <= i < t.len() implies is_white_space(#[trigger] t[i]) by {
            assert(t[i] == s[i]);
        }
        lemma_trim_end(t, l);
        assert(t.subrange(0, l) =~= s.subrange(0, l));
    }
}

/// A printable ASCII character other than the space: a letter, a digit or a punctuation mark.
pub open spec fn is_printable_ascii(c: char) -> bool {
    '!' <= c && c <= '~'
}

/// `s` is empty, or begins and ends with a printable ASCII character other than the space.
pub open spec fn has_printable_ends(s: Seq<char>) -> bool {
    s.len() == 0 || (is_printable_ascii(s[0]) && is_printable_ascii(s.last()))
}

/// Law: within ASCII, white space is exactly the space, the horizontal tab, the line feed, the
/// vertical tab, the form feed and the carriage return.
pub proof fn law_ascii_white_space(c: char)
    requires
        c < '\u{80}',
    ensures
        is_white_space(c) <==> (c == ' ' || c == '\t' || c == '\n' || c == '\u{0B}' || c == '\u{0C}'
            || c == '\r'),
{
}

/// Law: no letter, digit or punctuation mark of ASCII is white space.
pub proof fn law_printable_ascii_is_not_white_space(c: char)
    requires
        is_printable_ascii(c),
    ensures
        !is_white_space(c),
{
}

/// Law: beyond ASCII, white space is exactly the next line, no-break space, ogham space mark, the
/// spaces from en quad to hair space, the line and paragraph separators, the narrow no-break
/// space, the medium mathematical space and the ideographic space.
pub proof fn law_white_space_beyond_ascii(c: char)
    requires
        c >= '\u{80}',
    ensures
        is_white_space(c) <==> (c == '\u{85}' || c == '\u{A0}' || c == '\u{1680}' || ('\u{2000}' <= c
            && c <= '\u{200A}') || c == '\u{2028}' || c == '\u{2029}' || c == '\u{202F}' || c
            == '\u{205F}' || c == '\u{3000}'),
{
}

/// Law: a string that is empty, or begins and ends with a printable ASCII character other than
/// the space, loses nothing to trimming.
pub proof fn law_trim_keeps_printable_ends(s: Seq<char>)
    ensures
        has_printable_ends(s) ==> trimmed(s) == s,
{
    if s.len() > 0 && has_printable_ends(s) {
        law_printable_ascii_is_not_white_space(s[0]);
        law_printable_ascii_is_not_white_space(s.last());
        lemma_trim_start(s, 0);
        assert(s.subrange(0, s.len() as int) =~= s);
        lemma_trim_end(s, s.len() as int);
    }
}

/// Whether `c` is white space.
pub fn white_space(c: char) -> (r: bool)
    ensures
        r == is_white_space(c),
{
    let u = c as u32;
    (0x09 <= u && u <= 0x0d) || u == 0x20 || u == 0x85 || u == 0xa0 || u == 0x1680 || (0x2000
        <= u && u <= 0x200a) || u == 0x2028 || u == 0x2029 || u == 0x202f || u == 0x205f || u
        == 0x3000
}

/// The string without its leading and trailing white space, as `str::trim` gives it.
pub fn trim(s: &str) -> (r: &str)
    ensures
        r@ == trimmed(s@),
        s@.len() > 0 && is_printable_ascii(s@[0]) && is_printable_ascii(s@.last()) ==> r@ == s@,
{
    let n = s.unicode_len();
    let mut f: usize = 0;
    while f < n && white_space(s.get_char(f))
        invariant
            n == s@.len(),
            f <= n,
            forall|i: int| 0 <= i < f ==> is_white_space(#[trigger] s@[i]),
        decreases n - f,
    {
        f = f + 1;
    }
    let mut l: usize = n;
    while l > f && white_space(s.get_char(l - 1))
        invariant
            n == s@.len(),
            f <= l <= n,
            forall|i: int| l <= i < n ==> is_white_space(#[trigger] s@[i]),
        decreases l,
    {
        l = l - 1;
    }
    proof {
        lemma_trim_start(s@, f as int);
        let t = s@.subrange(f as int, n as int);
        assert forall|i: int| l - f <= i < t.len() implies is_white_space(#[trigger] t[i]) by {
            assert(t[i] == s@[i + f]);
        }
        if l > f {
            assert(t[l - f - 1] == s@[l - 1]);
        }
        lemma_trim_end(t, l - f);
        assert(t.subrange(0, l - f) =~= s@.subrange(f as int, l as int));
        law_trim_keeps_printable_ends(s@);
    }
    s.substring_char(f, l)
}

} // verus!

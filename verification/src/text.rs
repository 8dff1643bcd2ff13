//! Character-level text primitives shared by the lexers, validators and
//! name builders of the library. Text is reasoned about through its `Seq<char>`
//! view; ASCII classification follows the `u8`/`char` methods of std.
use vstd::prelude::*;

verus! {

pub open spec fn is_ascii_digit(c: char) -> bool {
    '0' <= c && c <= '9'
}

pub open spec fn is_ascii_upper(c: char) -> bool {
    'A' <= c && c <= 'Z'
}

pub open spec fn is_ascii_lower(c: char) -> bool {
    'a' <= c && c <= 'z'
}

pub open spec fn is_ascii_alpha(c: char) -> bool {
    is_ascii_upper(c) || is_ascii_lower(c)
}

pub open spec fn is_ascii_alnum(c: char) -> bool {
    is_ascii_alpha(c) || is_ascii_digit(c)
}

pub open spec fn is_ascii_hex(c: char) -> bool {
    is_ascii_digit(c) || ('a' <= c && c <= 'f') || ('A' <= c && c <= 'F')
}

/// Identifier continuation characters: ASCII letters, digits and `_`.
pub open spec fn is_word_char(c: char) -> bool {
    is_ascii_alnum(c) || c == '_'
}

/// Unicode `White_Space`, the set that `char::is_whitespace` and `str::trim` use.
pub open spec fn is_white(c: char) -> bool {
    ||| '\t' <= c && c <= '\r'
    ||| c == ' '
    ||| c == '\u{85}'
    ||| c == '\u{A0}'
    ||| c == '\u{1680}'
    ||| '\u{2000}' <= c && c <= '\u{200A}'
    ||| c == '\u{2028}'
    ||| c == '\u{2029}'
    ||| c == '\u{202F}'
    ||| c == '\u{205F}'
    ||| c == '\u{3000}'
}

/// Unicode general category `Cc`, the set that `char::is_control` uses.
pub open spec fn is_control(c: char) -> bool {
    c <= '\u{1F}' || ('\u{7F}' <= c && c <= '\u{9F}')
}

pub open spec fn ascii_lower_char(c: char) -> char {
    if is_ascii_upper(c) {
        ((c as u32) + 32) as char
    } else {
        c
    }
}

pub open spec fn ascii_upper_char(c: char) -> char {
    if is_ascii_lower(c) {
        ((c as u32) - 32) as char
    } else {
        c
    }
}

pub open spec fn lower(s: Seq<char>) -> Seq<char> {
    s.map_values(|c: char| ascii_lower_char(c))
}

pub open spec fn upper(s: Seq<char>) -> Seq<char> {
    s.map_values(|c: char| ascii_upper_char(c))
}

/// ASCII case-insensitive equality, as `str::eq_ignore_ascii_case`.
pub open spec fn eq_ignore_case(a: Seq<char>, b: Seq<char>) -> bool {
    lower(a) == lower(b)
}

/// The views of a sequence of string pairs.
pub open spec fn pair_views(s: Seq<(String, String)>) -> Seq<(Seq<char>, Seq<char>)> {
    s.map_values(|p: (String, String)| (p.0@, p.1@))
}

pub open spec fn contains_char(s: Seq<char>, c: char) -> bool {
    exists|i: int| 0 <= i < s.len() && s[i] == c
}

/// Number of leading whitespace characters.
pub open spec fn leading_white(s: Seq<char>) -> nat
    decreases s.len(),
{
    if s.len() > 0 && is_white(s[0]) {
        1 + leading_white(s.drop_first())
    } else {
        0
    }
}

/// Number of trailing whitespace characters.
pub open spec fn trailing_white(s: Seq<char>) -> nat
    decreases s.len(),
{
    if s.len() > 0 && is_white(s.last()) {
        1 + trailing_white(s.drop_last())
    } else {
        0
    }
}

pub open spec fn trim_start(s: Seq<char>) -> Seq<char> {
    s.skip(leading_white(s) as int)
}

pub open spec fn trim_end(s: Seq<char>) -> Seq<char> {
    s.take(s.len() - trailing_white(s))
}

/// `str::trim`: both ends stripped of Unicode whitespace.
pub open spec fn trim(s: Seq<char>) -> Seq<char> {
    trim_end(trim_start(s))
}

/// Length of the UTF-8 encoding of one scalar value.
pub open spec fn utf8_width(c: char) -> nat {
    if (c as u32) < 0x80 {
        1
    } else if (c as u32) < 0x800 {
        2
    } else if (c as u32) < 0x10000 {
        3
    } else {
        4
    }
}

/// Byte length of the UTF-8 encoding of a character sequence.
pub closed spec fn utf8_len(s: Seq<char>) -> nat {
    vstd::utf8::encode_utf8(s).len()
}

proof fn lemma_encode_concat(a: Seq<char>, b: Seq<char>)
    ensures
        vstd::utf8::encode_utf8(a + b) == vstd::utf8::encode_utf8(a) + vstd::utf8::encode_utf8(b),
    decreases a.len(),
{
    if a.len() == 0 {
        assert(a + b =~= b);
        assert(vstd::utf8::encode_utf8(a) =~= Seq::<u8>::empty());
        assert(Seq::<u8>::empty() + vstd::utf8::encode_utf8(b) =~= vstd::utf8::encode_utf8(b));
    } else {
        lemma_encode_concat(a.drop_first(), b);
        assert((a + b).drop_first() =~= a.drop_first() + b);
        assert((a + b)[0] == a[0]);
        assert(vstd::utf8::encode_scalar(a[0] as u32) + (vstd::utf8::encode_utf8(a.drop_first())
            + vstd::utf8::encode_utf8(b)) =~= (vstd::utf8::encode_scalar(a[0] as u32)
            + vstd::utf8::encode_utf8(a.drop_first())) + vstd::utf8::encode_utf8(b));
    }
}

/// The byte length of a concatenation is the sum of the byte lengths.
pub proof fn lemma_utf8_len_concat(a: Seq<char>, b: Seq<char>)
    ensures
        utf8_len(a + b) == utf8_len(a) + utf8_len(b),
{
    lemma_encode_concat(a, b);
}

/// A piece of a text has no more bytes than the text.
pub proof fn lemma_utf8_len_subrange(s: Seq<char>, i: int, j: int)
    requires
        0 <= i <= j <= s.len(),
    ensures
        utf8_len(s.subrange(i, j)) <= utf8_len(s),
{
    assert(s =~= s.take(i) + s.subrange(i, j) + s.skip(j));
    lemma_encode_concat(s.take(i) + s.subrange(i, j), s.skip(j));
    lemma_encode_concat(s.take(i), s.subrange(i, j));
}

/// Appending one character adds its UTF-8 width to the byte length.
pub proof fn lemma_utf8_len_push(s: Seq<char>, c: char)
    ensures
        utf8_len(s.push(c)) == utf8_len(s) + utf8_width(c),
{
    lemma_encode_concat(s, seq![c]);
    assert(s.push(c) =~= s + seq![c]);
    assert(seq![c].drop_first() =~= Seq::<char>::empty());
    assert(vstd::utf8::encode_utf8(Seq::<char>::empty()) =~= Seq::<u8>::empty());
    assert(vstd::utf8::encode_utf8(seq![c]) =~= vstd::utf8::encode_scalar(c as u32));
    vstd::utf8::char_is_scalar(c);
}

pub proof fn lemma_utf8_len_bounds(s: Seq<char>)
    ensures
        s.len() <= utf8_len(s) <= 4 * s.len(),
    decreases s.len(),
{
    if s.len() == 0 {
        assert(vstd::utf8::encode_utf8(s) =~= Seq::<u8>::empty());
    } else {
        lemma_utf8_len_bounds(s.drop_last());
        assert(s =~= s.drop_last().push(s.last()));
        lemma_utf8_len_push(s.drop_last(), s.last());
    }
}

/// The UTF-8 length of a string's characters is its length in bytes, as `str::len` counts it.
pub proof fn lemma_utf8_len_is_byte_len(s: &str)
    requires
        utf8_len(s@) <= usize::MAX,
    ensures
        utf8_len(s@) == s.len(),
{
}

/// The empty prefix has no bytes.
pub proof fn lemma_utf8_len_empty(s: Seq<char>)
    ensures
        utf8_len(s.take(0)) == 0,
        utf8_len(Seq::<char>::empty()) == 0,
{
    assert(s.take(0) =~= Seq::<char>::empty());
    assert(vstd::utf8::encode_utf8(Seq::<char>::empty()) =~= Seq::<u8>::empty());
}

pub proof fn lemma_leading_white_bound(s: Seq<char>)
    ensures
        leading_white(s) <= s.len(),
        forall|i: int| 0 <= i < leading_white(s) ==> is_white(#[trigger] s[i]),
        leading_white(s) < s.len() ==> !is_white(s[leading_white(s) as int]),
    decreases s.len(),
{
    if s.len() > 0 && is_white(s[0]) {
        lemma_leading_white_bound(s.drop_first());
        assert forall|i: int| 0 <= i < leading_white(s) implies is_white(#[trigger] s[i]) by {
            if i > 0 {
                assert(s[i] == s.drop_first()[i - 1]);
            }
        }
    }
}

pub proof fn lemma_trailing_white_bound(s: Seq<char>)
    ensures
        trailing_white(s) <= s.len(),
        forall|i: int| s.len() - trailing_white(s) <= i < s.len() ==> is_white(#[trigger] s[i]),
        trailing_white(s) < s.len() ==> !is_white(s[s.len() - trailing_white(s) - 1]),
    decreases s.len(),
{
    if s.len() > 0 && is_white(s.last()) {
        lemma_trailing_white_bound(s.drop_last());
        assert forall|i: int|
            s.len() - trailing_white(s) <= i < s.len() implies is_white(#[trigger] s[i]) by {
            if i < s.len() - 1 {
                assert(s[i] == s.drop_last()[i]);
            }
        }
    }
}

/// Leading whitespace is exactly the longest all-whitespace prefix.
pub proof fn lemma_leading_white_unique(s: Seq<char>, n: int)
    requires
        0 <= n <= s.len(),
        forall|i: int| 0 <= i < n ==> is_white(#[trigger] s[i]),
        n < s.len() ==> !is_white(s[n]),
    ensures
        leading_white(s) == n,
    decreases s.len(),
{
    if n > 0 {
        assert(is_white(s[0]));
        assert forall|i: int| 0 <= i < n - 1 implies is_white(#[trigger] s.drop_first()[i]) by {
            assert(s.drop_first()[i] == s[i + 1]);
        }
        if n - 1 < s.len() - 1 {
            assert(s.drop_first()[n - 1] == s[n]);
        }
        lemma_leading_white_unique(s.drop_first(), n - 1);
    } else if s.len() > 0 {
        assert(!is_white(s[0]));
    }
}

/// Trailing whitespace is exactly the longest all-whitespace suffix.
pub proof fn lemma_trailing_white_unique(s: Seq<char>, n: int)
    requires
        0 <= n <= s.len(),
        forall|i: int| s.len() - n <= i < s.len() ==> is_white(#[trigger] s[i]),
        n < s.len() ==> !is_white(s[s.len() - n - 1]),
    ensures
        trailing_white(s) == n,
    decreases s.len(),
{
    if n > 0 {
        assert(is_white(s[s.len() - 1]));
        assert forall|i: int|
            s.len() - 1 - (n - 1) <= i < s.len() - 1 implies is_white(
            #[trigger] s.drop_last()[i],
        ) by {
            assert(s.drop_last()[i] == s[i]);
        }
        if n - 1 < s.len() - 1 {
            assert(s.drop_last()[s.len() - 1 - (n - 1) - 1] == s[s.len() - n - 1]);
        }
        lemma_trailing_white_unique(s.drop_last(), n - 1);
    } else if s.len() > 0 {
        assert(!is_white(s.last()));
    }
}

/// `String::push`; vstd gives it no specification.
#[verifier::external_body]
pub fn push_char(s: &mut String, c: char)
    ensures
        final(s)@ == old(s)@.push(c),
{
    s.push(c);
}

pub fn is_white_exec(c: char) -> (b: bool)
    ensures
        b == is_white(c),
{
    ('\t' <= c && c <= '\r') || c == ' ' || c == '\u{85}' || c == '\u{A0}' || c == '\u{1680}' || (
    '\u{2000}' <= c && c <= '\u{200A}') || c == '\u{2028}' || c == '\u{2029}' || c == '\u{202F}'
        || c == '\u{205F}' || c == '\u{3000}'
}

pub fn is_control_exec(c: char) -> (b: bool)
    ensures
        b == is_control(c),
{
    c <= '\u{1F}' || ('\u{7F}' <= c && c <= '\u{9F}')
}

pub fn is_digit_exec(c: char) -> (b: bool)
    ensures
        b == is_ascii_digit(c),
{
    '0' <= c && c <= '9'
}

pub fn is_alpha_exec(c: char) -> (b: bool)
    ensures
        b == is_ascii_alpha(c),
{
    ('A' <= c && c <= 'Z') || ('a' <= c && c <= 'z')
}

pub fn is_alnum_exec(c: char) -> (b: bool)
    ensures
        b == is_ascii_alnum(c),
{
    is_alpha_exec(c) || is_digit_exec(c)
}

pub fn is_hex_exec(c: char) -> (b: bool)
    ensures
        b == is_ascii_hex(c),
{
    is_digit_exec(c) || ('a' <= c && c <= 'f') || ('A' <= c && c <= 'F')
}

pub fn is_word_exec(c: char) -> (b: bool)
    ensures
        b == is_word_char(c),
{
    is_alnum_exec(c) || c == '_'
}

pub fn lower_char_exec(c: char) -> (r: char)
    ensures
        r == ascii_lower_char(c),
{
    if 'A' <= c && c <= 'Z' {
        let code: u32 = c as u32;
        let lowered: u8 = (code + 32) as u8;
        lowered as char
    } else {
        c
    }
}

pub fn upper_char_exec(c: char) -> (r: char)
    ensures
        r == ascii_upper_char(c),
{
    if 'a' <= c && c <= 'z' {
        let code: u32 = c as u32;
        let raised: u8 = (code - 32) as u8;
        raised as char
    } else {
        c
    }
}

pub fn utf8_width_exec(c: char) -> (w: usize)
    ensures
        w == utf8_width(c),
{
    let code: u32 = c as u32;
    if code < 0x80 {
        1
    } else if code < 0x800 {
        2
    } else if code < 0x10000 {
        3
    } else {
        4
    }
}

/// The characters of a string slice, in order.
pub fn chars_of(s: &str) -> (out: Vec<char>)
    ensures
        out@ == s@,
{
    let mut out: Vec<char> = Vec::new();
    for c in it: s.chars()
        invariant
            out@ == it.seq().take(it.index() as int),
    {
        out.push(c);
    }
    out
}

/// A new string holding `cs[start..end]`.
pub fn string_of(cs: &Vec<char>, start: usize, end: usize) -> (out: String)
    requires
        start <= end <= cs.len(),
    ensures
        out@ == cs@.subrange(start as int, end as int),
{
    let mut out = String::new();
    let mut i: usize = start;
    while i < end
        invariant
            start <= i <= end <= cs.len(),
            out@ == cs@.subrange(start as int, i as int),
        decreases end - i,
    {
        push_char(&mut out, cs[i]);
        assert(cs@.subrange(start as int, i as int).push(cs@[i as int]) =~= cs@.subrange(
            start as int,
            i + 1,
        ));
        i = i + 1;
    }
    out
}

/// A new string holding all of `cs`.
pub fn string_of_all(cs: &Vec<char>) -> (out: String)
    ensures
        out@ == cs@,
{
    let out = string_of(cs, 0, cs.len());
    assert(cs@.subrange(0, cs@.len() as int) =~= cs@);
    out
}

/// An owned copy of a string slice.
pub fn owned(s: &str) -> (out: String)
    ensures
        out@ == s@,
{
    let cs = chars_of(s);
    string_of_all(&cs)
}

/// `a + b` as a new string.
pub fn concat2(a: &str, b: &str) -> (out: String)
    ensures
        out@ == a@ + b@,
{
    let mut out = owned(a);
    append_str(&mut out, b);
    out
}

/// Appends the characters of `tail` to `s`.
pub fn append_str(s: &mut String, tail: &str)
    ensures
        final(s)@ == old(s)@ + tail@,
{
    let cs = chars_of(tail);
    let ghost start = s@;
    let mut i: usize = 0;
    while i < cs.len()
        invariant
            i <= cs.len(),
            cs@ == tail@,
            s@ == start + cs@.take(i as int),
        decreases cs.len() - i,
    {
        push_char(s, cs[i]);
        assert(start + cs@.take(i as int).push(cs@[i as int]) =~= start + cs@.take(i + 1));
        i = i + 1;
    }
    assert(cs@.take(cs.len() as int) =~= cs@);
}

/// Whether two character vectors are equal.
pub fn seq_eq(a: &Vec<char>, b: &Vec<char>) -> (r: bool)
    ensures
        r == (a@ == b@),
{
    if a.len() != b.len() {
        return false;
    }
    let mut i: usize = 0;
    while i < a.len()
        invariant
            a.len() == b.len(),
            i <= a.len(),
            forall|j: int| 0 <= j < i ==> a@[j] == b@[j],
        decreases a.len() - i,
    {
        if a[i] != b[i] {
            return false;
        }
        i = i + 1;
    }
    assert(a@ =~= b@);
    true
}

/// Whether `a[start..end]` equals the characters of `b`.
pub fn range_eq_str(a: &Vec<char>, start: usize, end: usize, b: &str) -> (r: bool)
    requires
        start <= end <= a.len(),
    ensures
        r == (a@.subrange(start as int, end as int) == b@),
{
    let bs = chars_of(b);
    if end - start != bs.len() {
        return false;
    }
    let mut i: usize = 0;
    while i < bs.len()
        invariant
            start <= end <= a.len(),
            end - start == bs.len(),
            bs@ == b@,
            i <= bs.len(),
            forall|j: int| 0 <= j < i ==> a@[start + j] == bs@[j],
        decreases bs.len() - i,
    {
        if a[start + i] != bs[i] {
            assert(a@.subrange(start as int, end as int)[i as int] != b@[i as int]);
            return false;
        }
        i = i + 1;
    }
    assert(a@.subrange(start as int, end as int) =~= b@);
    true
}

/// Whether the character vector equals the characters of `b`.
pub fn eq_str(a: &Vec<char>, b: &str) -> (r: bool)
    ensures
        r == (a@ == b@),
{
    let r = range_eq_str(a, 0, a.len(), b);
    assert(a@.subrange(0, a@.len() as int) =~= a@);
    r
}

/// Whether the string equals the literal `b`.
pub fn text_is(a: &str, b: &str) -> (r: bool)
    ensures
        r == (a@ == b@),
{
    let cs = chars_of(a);
    eq_str(&cs, b)
}

/// ASCII lower-case copy of a character range.
pub fn lower_range(a: &Vec<char>, start: usize, end: usize) -> (out: Vec<char>)
    requires
        start <= end <= a.len(),
    ensures
        out@ == lower(a@.subrange(start as int, end as int)),
{
    let mut out: Vec<char> = Vec::new();
    let mut i: usize = start;
    while i < end
        invariant
            start <= i <= end <= a.len(),
            out@ == lower(a@.subrange(start as int, i as int)),
        decreases end - i,
    {
        out.push(lower_char_exec(a[i]));
        assert(lower(a@.subrange(start as int, i + 1)) =~= lower(
            a@.subrange(start as int, i as int),
        ).push(ascii_lower_char(a@[i as int])));
        i = i + 1;
    }
    out
}

/// ASCII lower-case copy.
pub fn lower_all(a: &Vec<char>) -> (out: Vec<char>)
    ensures
        out@ == lower(a@),
{
    let out = lower_range(a, 0, a.len());
    assert(a@.subrange(0, a@.len() as int) =~= a@);
    out
}

/// ASCII upper-case copy.
pub fn upper_all(a: &Vec<char>) -> (out: Vec<char>)
    ensures
        out@ == upper(a@),
{
    let mut out: Vec<char> = Vec::new();
    let mut i: usize = 0;
    while i < a.len()
        invariant
            i <= a.len(),
            out@ == upper(a@.take(i as int)),
        decreases a.len() - i,
    {
        out.push(upper_char_exec(a[i]));
        assert(upper(a@.take(i + 1)) =~= upper(a@.take(i as int)).push(ascii_upper_char(a@[i as int])));
        i = i + 1;
    }
    assert(a@.take(a@.len() as int) =~= a@);
    out
}

/// `str::to_ascii_lowercase`.
pub fn to_lower(s: &str) -> (out: String)
    ensures
        out@ == lower(s@),
{
    let cs = chars_of(s);
    let lowered = lower_all(&cs);
    string_of_all(&lowered)
}

/// `str::to_ascii_uppercase`.
pub fn to_upper(s: &str) -> (out: String)
    ensures
        out@ == upper(s@),
{
    let cs = chars_of(s);
    let raised = upper_all(&cs);
    string_of_all(&raised)
}

/// `str::eq_ignore_ascii_case`.
pub fn eq_ignore_case_exec(a: &str, b: &str) -> (r: bool)
    ensures
        r == eq_ignore_case(a@, b@),
{
    let la = lower_all(&chars_of(a));
    let lb = lower_all(&chars_of(b));
    seq_eq(&la, &lb)
}

/// Whether the character occurs in the range `a[start..end]`.
pub fn range_contains(a: &Vec<char>, start: usize, end: usize, c: char) -> (r: bool)
    requires
        start <= end <= a.len(),
    ensures
        r == contains_char(a@.subrange(start as int, end as int), c),
{
    let mut i: usize = start;
    while i < end
        invariant
            start <= i <= end <= a.len(),
            forall|j: int| start <= j < i ==> a@[j] != c,
        decreases end - i,
    {
        if a[i] == c {
            assert(a@.subrange(start as int, end as int)[i - start] == c);
            return true;
        }
        i = i + 1;
    }
    assert forall|j: int| 0 <= j < end - start implies a@.subrange(start as int, end as int)[j]
        != c by {
        assert(a@.subrange(start as int, end as int)[j] == a@[start + j]);
    }
    false
}

/// Whether the string holds the character.
pub fn has_char(s: &str, c: char) -> (r: bool)
    ensures
        r == contains_char(s@, c),
{
    let cs = chars_of(s);
    let r = range_contains(&cs, 0, cs.len(), c);
    assert(cs@.subrange(0, cs@.len() as int) =~= cs@);
    r
}

/// Bounds of `a[start..end]` with Unicode whitespace stripped from both ends.
pub fn trim_bounds(a: &Vec<char>, start: usize, end: usize) -> (r: (usize, usize))
    requires
        start <= end <= a.len(),
    ensures
        start <= r.0 <= r.1 <= end,
        a@.subrange(r.0 as int, r.1 as int) == trim(a@.subrange(start as int, end as int)),
{
    let ghost s = a@.subrange(start as int, end as int);
    let mut lo: usize = start;
    while lo < end && is_white_exec(a[lo])
        invariant
            start <= lo <= end <= a.len(),
            forall|j: int| start <= j < lo ==> is_white(#[trigger] a@[j]),
        decreases end - lo,
    {
        lo = lo + 1;
    }
    proof {
        assert forall|i: int| 0 <= i < lo - start implies is_white(#[trigger] s[i]) by {
            assert(s[i] == a@[start + i]);
        }
        if lo < end {
            assert(s[lo - start] == a@[lo as int]);
        }
        lemma_leading_white_unique(s, lo - start);
    }
    let ghost t = trim_start(s);
    assert(t =~= a@.subrange(lo as int, end as int));
    let mut hi: usize = end;
    while hi > lo && is_white_exec(a[hi - 1])
        invariant
            start <= lo <= hi <= end <= a.len(),
            forall|j: int| hi <= j < end ==> is_white(#[trigger] a@[j]),
        decreases hi - lo,
    {
        hi = hi - 1;
    }
    proof {
        assert forall|i: int| t.len() - (end - hi) <= i < t.len() implies is_white(
            #[trigger] t[i],
        ) by {
            assert(t[i] == a@[lo + i]);
        }
        if hi > lo {
            assert(t[t.len() - (end - hi) - 1] == a@[hi - 1]);
        }
        lemma_trailing_white_unique(t, end - hi);
        assert(trim_end(t) =~= a@.subrange(lo as int, hi as int));
    }
    (lo, hi)
}

/// `str::trim` as a new string.
pub fn trimmed(s: &str) -> (out: String)
    ensures
        out@ == trim(s@),
{
    let cs = chars_of(s);
    let (lo, hi) = trim_bounds(&cs, 0, cs.len());
    assert(cs@.subrange(0, cs@.len() as int) =~= cs@);
    string_of(&cs, lo, hi)
}


pub open spec fn digit_char(d: nat) -> char {
    ((d % 10) + 48) as char
}

/// Decimal digits of a natural number, as `Display` prints it.
pub open spec fn nat_text(n: nat) -> Seq<char>
    decreases n,
{
    if n < 10 {
        seq![digit_char(n)]
    } else {
        nat_text(n / 10).push(digit_char(n % 10))
    }
}

/// Decimal text of an integer, as `Display` prints it.
pub open spec fn int_text(i: int) -> Seq<char> {
    if i < 0 {
        seq!['-'] + nat_text((-i) as nat)
    } else {
        nat_text(i as nat)
    }
}

fn digit_exec(d: u64) -> (c: char)
    requires
        d < 10,
    ensures
        c == digit_char(d as nat),
{
    let b: u8 = (d as u8) + 48;
    b as char
}

/// Decimal text of an unsigned number.
pub fn u64_text(n: u64) -> (out: String)
    ensures
        out@ == nat_text(n as nat),
    decreases n,
{
    if n < 10 {
        let mut out = String::new();
        push_char(&mut out, digit_exec(n));
        assert(out@ =~= nat_text(n as nat));
        out
    } else {
        let mut out = u64_text(n / 10);
        push_char(&mut out, digit_exec(n % 10));
        out
    }
}

/// Decimal text of a `usize`.
pub fn usize_text(n: usize) -> (out: String)
    ensures
        out@ == nat_text(n as nat),
{
    u64_text(n as u64)
}

/// Decimal text of a signed number.
pub fn i64_text(i: i64) -> (out: String)
    ensures
        out@ == int_text(i as int),
{
    if i < 0 {
        let mut out = String::new();
        push_char(&mut out, '-');
        let magnitude: u64 = if i == i64::MIN { 9223372036854775808u64 } else { (-i) as u64 };
        assert(magnitude as int == -(i as int));
        let digits = u64_text(magnitude);
        append_str(&mut out, digits.as_str());
        assert(out@ =~= int_text(i as int));
        out
    } else {
        u64_text(i as u64)
    }
}

/// Lexicographic order of character sequences (the order of `String`).
pub open spec fn text_lt(a: Seq<char>, b: Seq<char>) -> bool
    decreases a.len(),
{
    if a.len() == 0 {
        b.len() > 0
    } else if b.len() == 0 {
        false
    } else if a[0] != b[0] {
        a[0] < b[0]
    } else {
        text_lt(a.drop_first(), b.drop_first())
    }
}

/// Text order is dictionary order by character: `a` comes first when it is
/// a proper prefix of `b`, or at the first position where they differ its
/// character is smaller.
pub proof fn lemma_text_lt_dictionary(a: Seq<char>, b: Seq<char>)
    ensures
        text_lt(a, b) <==> ((a.len() < b.len() && b.take(a.len() as int) == a) || exists|j: int|
            0 <= j < a.len() && j < b.len() && a.take(j) == b.take(j) && (#[trigger] a[j]) < b[j]),
    decreases a.len(),
{
    if a.len() == 0 {
        assert(b.take(0) =~= a);
    } else if b.len() == 0 {
    } else {
        let a1 = a.drop_first();
        let b1 = b.drop_first();
        lemma_text_lt_dictionary(a1, b1);
        if a[0] != b[0] {
            if a[0] < b[0] {
                assert(a.take(0) =~= b.take(0));
                assert(a[0] < b[0]);
            } else {
                assert forall|j: int| 0 <= j < a.len() && j < b.len() && a.take(j) == b.take(j) implies !((#[trigger] a[j])
                    < b[j]) by {
                    if j > 0 {
                        assert(a.take(j)[0] == b.take(j)[0]);
                    }
                }
                if a.len() < b.len() && b.take(a.len() as int) == a {
                    assert(b.take(a.len() as int)[0] == a[0]);
                }
            }
        } else {
            if a1.len() < b1.len() && b1.take(a1.len() as int) == a1 {
                assert forall|k: int| 0 <= k < a.len() implies b.take(a.len() as int)[k] == a[k] by {
                    if k > 0 {
                        assert(b1.take(a1.len() as int)[k - 1] == a1[k - 1]);
                    }
                }
                assert(b.take(a.len() as int) =~= a);
            }
            if a.len() < b.len() && b.take(a.len() as int) == a {
                assert(b1.take(a1.len() as int) =~= a1);
            }
            if exists|j: int| 0 <= j < a1.len() && j < b1.len() && a1.take(j) == b1.take(j) && (#[trigger] a1[j]) < b1[j] {
                let j = choose|j: int| 0 <= j < a1.len() && j < b1.len() && a1.take(j) == b1.take(j) && (#[trigger] a1[j]) < b1[j];
                assert(a.take(j + 1) =~= seq![a[0]] + a1.take(j));
                assert(b.take(j + 1) =~= seq![b[0]] + b1.take(j));
                assert(a[j + 1] < b[j + 1]);
            }
            if exists|j: int| 0 <= j < a.len() && j < b.len() && a.take(j) == b.take(j) && (#[trigger] a[j]) < b[j] {
                let j = choose|j: int| 0 <= j < a.len() && j < b.len() && a.take(j) == b.take(j) && (#[trigger] a[j]) < b[j];
                assert(j > 0);
                assert(a1.take(j - 1) =~= a.take(j).drop_first());
                assert(b1.take(j - 1) =~= b.take(j).drop_first());
                assert(a1[j - 1] < b1[j - 1]);
            }
        }
    }
}

pub proof fn lemma_text_lt_irreflexive(a: Seq<char>)
    ensures
        !text_lt(a, a),
    decreases a.len(),
{
    if a.len() > 0 {
        lemma_text_lt_irreflexive(a.drop_first());
    }
}

pub proof fn lemma_text_lt_total(a: Seq<char>, b: Seq<char>)
    ensures
        a != b ==> (text_lt(a, b) || text_lt(b, a)),
        !(text_lt(a, b) && text_lt(b, a)),
    decreases a.len(),
{
    if a.len() > 0 && b.len() > 0 {
        lemma_text_lt_total(a.drop_first(), b.drop_first());
        if a[0] == b[0] && a != b {
            assert(a =~= seq![a[0]] + a.drop_first());
            assert(b =~= seq![b[0]] + b.drop_first());
        }
    } else if a.len() == 0 && b.len() == 0 {
        assert(a =~= b);
    }
}

pub proof fn lemma_text_lt_transitive(a: Seq<char>, b: Seq<char>, c: Seq<char>)
    requires
        text_lt(a, b),
        text_lt(b, c),
    ensures
        text_lt(a, c),
    decreases a.len(),
{
    if a.len() > 0 && b.len() > 0 && c.len() > 0 && a[0] == b[0] && b[0] == c[0] {
        lemma_text_lt_transitive(a.drop_first(), b.drop_first(), c.drop_first());
    }
}

/// Whether `a` sorts strictly before `b`.
pub fn text_less(a: &str, b: &str) -> (r: bool)
    ensures
        r == text_lt(a@, b@),
{
    let x = chars_of(a);
    let y = chars_of(b);
    let mut i: usize = 0;
    assert(x@.skip(0) =~= x@ && y@.skip(0) =~= y@);
    while i < x.len() && i < y.len() && x[i] == y[i]
        invariant
            i <= x.len(),
            i <= y.len(),
            text_lt(x@, y@) == text_lt(x@.skip(i as int), y@.skip(i as int)),
        decreases x.len() - i,
    {
        assert(x@.skip(i as int).drop_first() =~= x@.skip(i + 1));
        assert(y@.skip(i as int).drop_first() =~= y@.skip(i + 1));
        i = i + 1;
    }
    if i == x.len() {
        i < y.len()
    } else if i == y.len() {
        false
    } else {
        x[i] < y[i]
    }
}


// ---------------------------------------------------------------------------
// Pieces between separators, whitespace-separated words, substrings.

/// Index of the first `c` at or after `i`, or the length.
pub open spec fn next_char(s: Seq<char>, c: char, i: int) -> int
    decreases s.len() - i,
{
    if i >= s.len() {
        s.len() as int
    } else if s[i] == c {
        i
    } else {
        next_char(s, c, i + 1)
    }
}

pub proof fn lemma_next_char(s: Seq<char>, c: char, i: int)
    requires
        0 <= i <= s.len(),
    ensures
        i <= next_char(s, c, i) <= s.len(),
        next_char(s, c, i) < s.len() ==> s[next_char(s, c, i)] == c,
        forall|k: int| i <= k < next_char(s, c, i) ==> s[k] != c,
    decreases s.len() - i,
{
    if i < s.len() && s[i] != c {
        lemma_next_char(s, c, i + 1);
    }
}

/// The first `c` at or after `i` in `cs`, or the length.
pub fn find_next(cs: &Vec<char>, c: char, i: usize) -> (k: usize)
    requires
        i <= cs.len(),
    ensures
        k == next_char(cs@, c, i as int),
{
    let mut k: usize = i;
    while k < cs.len() && cs[k] != c
        invariant
            i <= k <= cs.len(),
            next_char(cs@, c, i as int) == next_char(cs@, c, k as int),
        decreases cs.len() - k,
    {
        k = k + 1;
    }
    k
}

/// End of the run of non-whitespace characters that starts at `i`.
pub open spec fn word_end(s: Seq<char>, i: int) -> int
    decreases s.len() - i,
{
    if i >= s.len() || is_white(s[i]) {
        i
    } else {
        word_end(s, i + 1)
    }
}

pub proof fn lemma_word_end(s: Seq<char>, i: int)
    requires
        0 <= i <= s.len(),
    ensures
        i <= word_end(s, i) <= s.len(),
        word_end(s, i) < s.len() ==> is_white(s[word_end(s, i)]),
        forall|k: int| i <= k < word_end(s, i) ==> !is_white(#[trigger] s[k]),
    decreases s.len() - i,
{
    if i < s.len() && !is_white(s[i]) {
        lemma_word_end(s, i + 1);
    }
}

/// The words of `s[i..]`, as `str::split_whitespace` yields them.
pub open spec fn words_from(s: Seq<char>, i: int) -> Seq<Seq<char>>
    decreases s.len() - i, 1int,
    when 0 <= i <= s.len()
{
    if i >= s.len() {
        seq![]
    } else if is_white(s[i]) {
        words_from(s, i + 1)
    } else {
        let k = word_end(s, i);
        proof {
            lemma_word_end(s, i + 1);
        }
        seq![s.subrange(i, k)] + words_from(s, k)
    }
}

/// `str::split_whitespace`: the maximal runs of non-whitespace characters.
pub open spec fn words(s: Seq<char>) -> Seq<Seq<char>> {
    words_from(s, 0)
}

/// The whitespace-separated words of a string.
pub fn words_of(s: &str) -> (out: Vec<String>)
    ensures
        out@.map_values(|w: String| w@) == words(s@),
{
    let cs = chars_of(s);
    let mut out: Vec<String> = Vec::new();
    let mut i: usize = 0;
    assert(out@.map_values(|w: String| w@) + words_from(cs@, 0) =~= words(s@));
    while i < cs.len()
        invariant
            i <= cs.len(),
            cs@ == s@,
            out@.map_values(|w: String| w@) + words_from(cs@, i as int) == words(s@),
        decreases cs.len() - i,
    {
        if is_white_exec(cs[i]) {
            i = i + 1;
        } else {
            let mut j: usize = i;
            while j < cs.len() && !is_white_exec(cs[j])
                invariant
                    i <= j <= cs.len(),
                    word_end(cs@, i as int) == word_end(cs@, j as int),
                decreases cs.len() - j,
            {
                j = j + 1;
            }
            proof {
                lemma_word_end(cs@, i + 1);
            }
            let w = string_of(&cs, i, j);
            let ghost before = out@.map_values(|w: String| w@);
            out.push(w);
            assert(out@.map_values(|w: String| w@) =~= before.push(cs@.subrange(i as int, j as int)));
            assert(before + (seq![cs@.subrange(i as int, j as int)] + words_from(cs@, j as int))
                =~= before.push(cs@.subrange(i as int, j as int)) + words_from(cs@, j as int));
            i = j;
        }
    }
    assert(out@.map_values(|w: String| w@) + Seq::<Seq<char>>::empty() =~= out@.map_values(
        |w: String| w@,
    ));
    out
}

/// Whether `t` occurs in `s` at index `i`.
pub open spec fn occurs_at(s: Seq<char>, t: Seq<char>, i: int) -> bool {
    0 <= i && i + t.len() <= s.len() && s.subrange(i, i + t.len()) == t
}

/// Whether `t` occurs in `s`, as `str::contains` with a string pattern.
pub open spec fn contains_text(s: Seq<char>, t: Seq<char>) -> bool {
    exists|i: int| occurs_at(s, t, i)
}

/// Whether `t` occurs in `s`.
pub fn has_text(s: &Vec<char>, t: &str) -> (r: bool)
    ensures
        r == contains_text(s@, t@),
{
    let tc = chars_of(t);
    if tc.len() > s.len() {
        assert forall|i: int| !occurs_at(s@, t@, i) by {}
        return false;
    }
    let mut i: usize = 0;
    while i <= s.len() - tc.len()
        invariant
            tc@ == t@,
            tc.len() <= s.len(),
            i <= s.len() - tc.len() + 1,
            forall|k: int| 0 <= k < i ==> !occurs_at(s@, t@, k),
        decreases s.len() + 1 - i,
    {
        let mut j: usize = 0;
        while j < tc.len() && s[i + j] == tc[j]
            invariant
                j <= tc.len(),
                i + tc.len() <= s.len(),
                forall|k: int| 0 <= k < j ==> s@[i + k] == tc@[k],
            decreases tc.len() - j,
        {
            j = j + 1;
        }
        if j == tc.len() {
            assert(s@.subrange(i as int, i + tc.len()) =~= t@);
            assert(occurs_at(s@, t@, i as int));
            return true;
        }
        assert(s@.subrange(i as int, i + tc.len())[j as int] != t@[j as int]);
        i = i + 1;
    }
    assert forall|k: int| !occurs_at(s@, t@, k) by {
        if 0 <= k && k + t@.len() <= s@.len() {
            assert(k < i);
        }
    }
    false
}


/// The UTF-8 byte length of `cs`, exact up to `cap`; above `cap` only
/// reported as larger than `cap`.
pub fn byte_len_capped(cs: &Vec<char>, cap: usize) -> (r: usize)
    requires
        cap <= 0x4000_0000,
    ensures
        utf8_len(cs@) <= cap ==> r == utf8_len(cs@),
        utf8_len(cs@) > cap ==> r > cap,
        r <= cap + 4,
{
    let mut b: usize = 0;
    let mut i: usize = 0;
    proof {
        lemma_utf8_len_empty(cs@);
    }
    while i < cs.len()
        invariant
            i <= cs.len(),
            b == utf8_len(cs@.take(i as int)),
            b <= cap <= 0x4000_0000,
        decreases cs.len() - i,
    {
        proof {
            assert(cs@.take(i + 1) =~= cs@.take(i as int).push(cs@[i as int]));
            lemma_utf8_len_push(cs@.take(i as int), cs@[i as int]);
        }
        b = b + utf8_width_exec(cs[i]);
        i = i + 1;
        if b > cap {
            proof {
                lemma_utf8_len_subrange(cs@, 0, i as int);
                assert(cs@.subrange(0, i as int) =~= cs@.take(i as int));
            }
            return b;
        }
    }
    assert(cs@.take(i as int) =~= cs@);
    b
}


/// Every word holds at least one character.
pub proof fn lemma_words_nonempty(s: Seq<char>, i: int)
    requires
        0 <= i <= s.len(),
    ensures
        forall|j: int| 0 <= j < words_from(s, i).len() ==> (#[trigger] words_from(s, i)[j]).len() > 0,
    decreases s.len() - i,
{
    if i < s.len() {
        if is_white(s[i]) {
            lemma_words_nonempty(s, i + 1);
            assert(words_from(s, i) == words_from(s, i + 1));
        } else {
            let k = word_end(s, i);
            lemma_word_end(s, i + 1);
            assert(k == word_end(s, i + 1));
            assert(k > i);
            lemma_words_nonempty(s, k);
            let w = words_from(s, i);
            assert(w == seq![s.subrange(i, k)] + words_from(s, k));
            assert forall|j: int| 0 <= j < w.len() implies (#[trigger] w[j]).len() > 0 by {
                if j > 0 {
                    assert(w[j] == words_from(s, k)[j - 1]);
                } else {
                    assert(w[0] == s.subrange(i, k));
                }
            }
        }
    }
}


/// Whether `s` begins with `p`.
pub open spec fn starts_with(s: Seq<char>, p: Seq<char>) -> bool {
    p.len() <= s.len() && s.take(p.len() as int) == p
}

/// Whether `s` holds a control character.
pub open spec fn has_control_char(s: Seq<char>) -> bool {
    exists|j: int| 0 <= j < s.len() && is_control(#[trigger] s[j])
}

/// Whether the string begins with `p`.
pub fn starts_with_exec(s: &str, p: &str) -> (r: bool)
    ensures
        r == starts_with(s@, p@),
{
    let a = chars_of(s);
    let b = chars_of(p);
    if b.len() > a.len() {
        return false;
    }
    let mut i: usize = 0;
    while i < b.len()
        invariant
            i <= b.len() <= a.len(),
            a@ == s@,
            b@ == p@,
            forall|j: int| 0 <= j < i ==> a@[j] == b@[j],
        decreases b.len() - i,
    {
        if a[i] != b[i] {
            assert(a@.take(b@.len() as int)[i as int] != b@[i as int]);
            return false;
        }
        i = i + 1;
    }
    assert(a@.take(b@.len() as int) =~= b@);
    true
}

/// Whether the string holds a control character.
pub fn has_control_exec(s: &str) -> (r: bool)
    ensures
        r == has_control_char(s@),
{
    let a = chars_of(s);
    let mut i: usize = 0;
    while i < a.len()
        invariant
            i <= a.len(),
            a@ == s@,
            forall|j: int| 0 <= j < i ==> !is_control(#[trigger] a@[j]),
        decreases a.len() - i,
    {
        if is_control_exec(a[i]) {
            return true;
        }
        i = i + 1;
    }
    false
}


/// Calls `std::str::from_utf8`: a text whose UTF-8 encoding is exactly
/// `bytes` when they are valid UTF-8, nothing otherwise.
#[verifier::external_body]
pub fn utf8_text(bytes: &[u8]) -> (r: Option<&str>)
    ensures
        r matches Some(s) ==> vstd::utf8::encode_utf8(s@) == bytes@,
        r is None ==> !vstd::utf8::valid_utf8(bytes@),
{
    match std::str::from_utf8(bytes) {
        Ok(s) => Some(s),
        Err(_) => None,
    }
}

} // verus!

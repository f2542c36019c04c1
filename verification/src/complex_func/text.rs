//! Character-level building blocks of the formula grammar: the character
//! classes that the grammar names, white-space trimming, searches within a
//! range of characters, and the UTF-8 byte width of characters.
use vstd::prelude::*;

verus! {

/// Unicode `White_Space` property, the set that `char::is_whitespace` tests.
pub open spec fn is_white_space(c: char) -> bool {
    ||| ('\u{9}' <= c && c <= '\u{d}')
    ||| c == ' '
    ||| c == '\u{85}'
    ||| c == '\u{a0}'
    ||| c == '\u{1680}'
    ||| ('\u{2000}' <= c && c <= '\u{200a}')
    ||| c == '\u{2028}'
    ||| c == '\u{2029}'
    ||| c == '\u{202f}'
    ||| c == '\u{205f}'
    ||| c == '\u{3000}'
}

/// ASCII decimal digit (`[[:digit:]]`).
pub open spec fn is_digit(c: char) -> bool {
    '0' <= c && c <= '9'
}

/// ASCII letter (`[[:alpha:]]`).
pub open spec fn is_alpha(c: char) -> bool {
    ('a' <= c && c <= 'z') || ('A' <= c && c <= 'Z')
}

/// ASCII letter or digit (`[[:alnum:]]`).
pub open spec fn is_alnum(c: char) -> bool {
    is_alpha(c) || is_digit(c)
}

/// The classes of characters that the grammar searches for.
#[derive(Clone, Copy)]
pub enum CharClass {
    Exactly(char),
    Digit,
    Alpha,
    Alnum,
}

pub open spec fn in_class(c: char, class: CharClass) -> bool {
    match class {
        CharClass::Exactly(d) => c == d,
        CharClass::Digit => is_digit(c),
        CharClass::Alpha => is_alpha(c),
        CharClass::Alnum => is_alnum(c),
    }
}

/// Index of the first character of `s` in `class`, or `s.len()` when there is none.
pub open spec fn first_in(s: Seq<char>, class: CharClass) -> int
    decreases s.len(),
{
    if s.len() == 0 {
        0
    } else if in_class(s[0], class) {
        0
    } else {
        1 + first_in(s.drop_first(), class)
    }
}

/// Number of characters at the start of `s` that are in `class`.
pub open spec fn run_of(s: Seq<char>, class: CharClass) -> int
    decreases s.len(),
{
    if s.len() == 0 {
        0
    } else if in_class(s[0], class) {
        1 + run_of(s.drop_first(), class)
    } else {
        0
    }
}

/// `s` without its leading white space.
pub open spec fn trim_start(s: Seq<char>) -> Seq<char>
    decreases s.len(),
{
    if s.len() > 0 && is_white_space(s[0]) {
        trim_start(s.drop_first())
    } else {
        s
    }
}

/// `s` without its trailing white space.
pub open spec fn trim_end(s: Seq<char>) -> Seq<char>
    decreases s.len(),
{
    if s.len() > 0 && is_white_space(s.last()) {
        trim_end(s.drop_last())
    } else {
        s
    }
}

/// `s` without leading and trailing white space (`str::trim`).
pub open spec fn trim(s: Seq<char>) -> Seq<char> {
    trim_end(trim_start(s))
}

/// Number of bytes of the UTF-8 encoding of `c`.
pub open spec fn utf8_width(c: char) -> int {
    if (c as u32) < 0x80 {
        1
    } else if (c as u32) < 0x800 {
        2
    } else if (c as u32) < 0x10000 {
        3
    } else {
        4
    }
}

/// The number of leading characters of `s` whose UTF-8 encoding takes exactly
/// `bytes` bytes, if `bytes` falls on a character boundary of `s` (`str::split_at`).
pub open spec fn chars_in_bytes(s: Seq<char>, bytes: int) -> Option<int>
    decreases s.len(),
{
    if bytes == 0 {
        Some(0)
    } else if s.len() == 0 || bytes < utf8_width(s[0]) {
        None
    } else {
        match chars_in_bytes(s.drop_first(), bytes - utf8_width(s[0])) {
            Some(k) => Some(k + 1),
            None => None,
        }
    }
}

pub proof fn lemma_first_in(s: Seq<char>, class: CharClass, i: int)
    requires
        0 <= i <= s.len(),
        forall|k: int| 0 <= k < i ==> !in_class(#[trigger] s[k], class),
        i == s.len() || in_class(s[i], class),
    ensures
        first_in(s, class) == i,
    decreases i,
{
    if i > 0 {
        lemma_first_in(s.drop_first(), class, i - 1);
    }
}

pub proof fn lemma_first_in_bounds(s: Seq<char>, class: CharClass)
    ensures
        0 <= first_in(s, class) <= s.len(),
        first_in(s, class) < s.len() ==> in_class(s[first_in(s, class)], class),
        forall|k: int| 0 <= k < first_in(s, class) ==> !in_class(#[trigger] s[k], class),
    decreases s.len(),
{
    if s.len() > 0 && !in_class(s[0], class) {
        lemma_first_in_bounds(s.drop_first(), class);
        assert forall|k: int| 0 <= k < first_in(s, class) implies !in_class(#[trigger] s[k], class) by {
            if k > 0 {
                assert(s[k] == s.drop_first()[k - 1]);
            }
        }
    }
}

pub proof fn lemma_run_of(s: Seq<char>, class: CharClass, i: int)
    requires
        0 <= i <= s.len(),
        forall|k: int| 0 <= k < i ==> in_class(#[trigger] s[k], class),
        i == s.len() || !in_class(s[i], class),
    ensures
        run_of(s, class) == i,
    decreases i,
{
    if i > 0 {
        lemma_run_of(s.drop_first(), class, i - 1);
    }
}

pub proof fn lemma_run_of_positive(s: Seq<char>, class: CharClass)
    requires
        s.len() > 0,
        in_class(s[0], class),
    ensures
        run_of(s, class) >= 1,
{
    lemma_run_of_bounds(s.drop_first(), class);
}

pub proof fn lemma_run_of_bounds(s: Seq<char>, class: CharClass)
    ensures
        0 <= run_of(s, class) <= s.len(),
    decreases s.len(),
{
    if s.len() > 0 && in_class(s[0], class) {
        lemma_run_of_bounds(s.drop_first(), class);
    }
}

pub proof fn lemma_trim_start(s: Seq<char>, a: int)
    requires
        0 <= a <= s.len(),
        forall|k: int| 0 <= k < a ==> is_white_space(#[trigger] s[k]),
        a == s.len() || !is_white_space(s[a]),
    ensures
        trim_start(s) == s.subrange(a, s.len() as int),
    decreases a,
{
    if a > 0 {
        lemma_trim_start(s.drop_first(), a - 1);
        assert(s.drop_first().subrange(a - 1, s.len() - 1) =~= s.subrange(a, s.len() as int));
    } else {
        assert(s.subrange(0, s.len() as int) =~= s);
    }
}

pub proof fn lemma_trim_end(s: Seq<char>, b: int)
    requires
        0 <= b <= s.len(),
        forall|k: int| b <= k < s.len() ==> is_white_space(#[trigger] s[k]),
        b == 0 || !is_white_space(s[b - 1]),
    ensures
        trim_end(s) == s.subrange(0, b),
    decreases s.len() - b,
{
    if b < s.len() {
        lemma_trim_end(s.drop_last(), b);
        assert(s.drop_last().subrange(0, b) =~= s.subrange(0, b));
    } else {
        assert(s.subrange(0, b) =~= s);
    }
}

/// A sequence with no white space at either end is its own trimming.
pub proof fn lemma_trim_unchanged(s: Seq<char>)
    requires
        s.len() > 0 ==> !is_white_space(s[0]) && !is_white_space(s.last()),
    ensures
        trim(s) == s,
{
    lemma_trim_start(s, 0);
    assert(s.subrange(0, s.len() as int) =~= s);
    lemma_trim_end(s, s.len() as int);
}

/// Trimming twice is trimming once.
pub proof fn lemma_trim_idempotent(s: Seq<char>)
    ensures
        trim(trim(s)) == trim(s),
{
    lemma_trim_start_shape(s);
    let t = trim_start(s);
    lemma_trim_end_shape(t);
    let u = trim_end(t);
    if u.len() > 0 {
        assert(u[0] == t[0]);
    }
    lemma_trim_unchanged(u);
}

proof fn lemma_trim_start_shape(s: Seq<char>)
    ensures
        trim_start(s).len() > 0 ==> !is_white_space(trim_start(s)[0]),
    decreases s.len(),
{
    if s.len() > 0 && is_white_space(s[0]) {
        lemma_trim_start_shape(s.drop_first());
    }
}

proof fn lemma_trim_end_shape(s: Seq<char>)
    ensures
        trim_end(s).len() > 0 ==> !is_white_space(trim_end(s).last()),
        trim_end(s) == s.subrange(0, trim_end(s).len() as int),
        trim_end(s).len() <= s.len(),
    decreases s.len(),
{
    if s.len() > 0 && is_white_space(s.last()) {
        lemma_trim_end_shape(s.drop_last());
        assert(s.drop_last().subrange(0, trim_end(s).len() as int) =~= s.subrange(
            0,
            trim_end(s).len() as int,
        ));
    } else {
        assert(s.subrange(0, s.len() as int) =~= s);
    }
}

/// Trimming keeps out every character that the sequence keeps out.
pub proof fn lemma_trim_avoids(s: Seq<char>, c: char)
    requires
        forall|k: int| 0 <= k < s.len() ==> #[trigger] s[k] != c,
    ensures
        forall|k: int| 0 <= k < trim(s).len() ==> #[trigger] trim(s)[k] != c,
{
    lemma_trim_start_avoids(s, c);
    lemma_trim_end_avoids(trim_start(s), c);
}

proof fn lemma_trim_start_avoids(s: Seq<char>, c: char)
    requires
        forall|k: int| 0 <= k < s.len() ==> #[trigger] s[k] != c,
    ensures
        forall|k: int| 0 <= k < trim_start(s).len() ==> #[trigger] trim_start(s)[k] != c,
    decreases s.len(),
{
    if s.len() > 0 && is_white_space(s[0]) {
        assert forall|k: int| 0 <= k < s.drop_first().len() implies #[trigger] s.drop_first()[k]
            != c by {
            assert(s.drop_first()[k] == s[k + 1]);
        }
        lemma_trim_start_avoids(s.drop_first(), c);
        assert(trim_start(s) == trim_start(s.drop_first()));
    } else {
        assert(trim_start(s) == s);
    }
}

proof fn lemma_trim_end_avoids(s: Seq<char>, c: char)
    requires
        forall|k: int| 0 <= k < s.len() ==> #[trigger] s[k] != c,
    ensures
        forall|k: int| 0 <= k < trim_end(s).len() ==> #[trigger] trim_end(s)[k] != c,
    decreases s.len(),
{
    if s.len() > 0 && is_white_space(s.last()) {
        assert forall|k: int| 0 <= k < s.drop_last().len() implies #[trigger] s.drop_last()[k]
            != c by {
            assert(s.drop_last()[k] == s[k]);
        }
        lemma_trim_end_avoids(s.drop_last(), c);
        assert(trim_end(s) == trim_end(s.drop_last()));
    } else {
        assert(trim_end(s) == s);
    }
}

/// Trimming never lengthens a sequence.
pub proof fn lemma_trim_len(s: Seq<char>)
    ensures
        trim(s).len() <= s.len(),
{
    lemma_trim_start_len(s);
    lemma_trim_end_len(trim_start(s));
}

proof fn lemma_trim_start_len(s: Seq<char>)
    ensures
        trim_start(s).len() <= s.len(),
    decreases s.len(),
{
    if s.len() > 0 && is_white_space(s[0]) {
        lemma_trim_start_len(s.drop_first());
    }
}

proof fn lemma_trim_end_len(s: Seq<char>)
    ensures
        trim_end(s).len() <= s.len(),
    decreases s.len(),
{
    if s.len() > 0 && is_white_space(s.last()) {
        lemma_trim_end_len(s.drop_last());
    }
}

pub proof fn lemma_chars_in_bytes_step(s: Seq<char>, bytes: int, k: int, used: int)
    requires
        0 <= k < s.len(),
        0 <= used,
        used + utf8_width(s[k]) <= bytes,
        bytes - used > 0,
    ensures
        chars_in_bytes(s.skip(k), bytes - used) == (match chars_in_bytes(
            s.skip(k + 1),
            bytes - used - utf8_width(s[k]),
        ) {
            Some(j) => Some(j + 1),
            None => None::<int>,
        }),
{
    assert(s.skip(k).drop_first() =~= s.skip(k + 1));
}

pub proof fn lemma_chars_in_bytes_bounds(s: Seq<char>, bytes: int)
    ensures
        chars_in_bytes(s, bytes) matches Some(k) ==> 0 <= k <= s.len(),
    decreases s.len(),
{
    if bytes != 0 && s.len() > 0 && bytes >= utf8_width(s[0]) {
        lemma_chars_in_bytes_bounds(s.drop_first(), bytes - utf8_width(s[0]));
    }
}

/// Wraps `String::push`: the string grows by the character.
#[verifier::external_body]
pub(crate) fn push_char(s: &mut String, c: char)
    ensures
        final(s)@ == old(s)@.push(c),
{
    s.push(c);
}

/// The characters of `s`, in order.
pub fn chars_of(s: &str) -> (r: Vec<char>)
    ensures
        r@ == s@,
{
    let mut r: Vec<char> = Vec::new();
    for c in it: s.chars()
        invariant
            r@ == it.seq().take(it.index() as int),
            it.seq() == s@,
    {
        r.push(c);
    }
    r
}

/// The string of one character.
pub fn char_string(c: char) -> (r: String)
    ensures
        r@ == seq![c],
{
    let mut r = String::new();
    push_char(&mut r, c);
    assert(r@ =~= seq![c]);
    r
}

/// The characters `v[lo..hi]` as a string.
pub fn substring(v: &Vec<char>, lo: usize, hi: usize) -> (r: String)
    requires
        lo <= hi <= v.len(),
    ensures
        r@ == v@.subrange(lo as int, hi as int),
{
    let mut r = String::new();
    let mut i = lo;
    while i < hi
        invariant
            lo <= i <= hi <= v.len(),
            r@ == v@.subrange(lo as int, i as int),
        decreases hi - i,
    {
        push_char(&mut r, v[i]);
        i = i + 1;
        assert(r@ =~= v@.subrange(lo as int, i as int));
    }
    r
}

pub fn char_in_class(c: char, class: CharClass) -> (r: bool)
    ensures
        r == in_class(c, class),
{
    match class {
        CharClass::Exactly(d) => c == d,
        CharClass::Digit => '0' <= c && c <= '9',
        CharClass::Alpha => ('a' <= c && c <= 'z') || ('A' <= c && c <= 'Z'),
        CharClass::Alnum => ('a' <= c && c <= 'z') || ('A' <= c && c <= 'Z') || ('0' <= c && c
            <= '9'),
    }
}

pub fn white_space(c: char) -> (r: bool)
    ensures
        r == is_white_space(c),
{
    ('\u{9}' <= c && c <= '\u{d}') || c == ' ' || c == '\u{85}' || c == '\u{a0}' || c
        == '\u{1680}' || ('\u{2000}' <= c && c <= '\u{200a}') || c == '\u{2028}' || c
        == '\u{2029}' || c == '\u{202f}' || c == '\u{205f}' || c == '\u{3000}'
}

/// Index in `v` of the first character of `v[lo..hi]` in `class`, or `hi`.
pub fn find_in(v: &Vec<char>, lo: usize, hi: usize, class: CharClass) -> (r: usize)
    requires
        lo <= hi <= v.len(),
    ensures
        r == lo + first_in(v@.subrange(lo as int, hi as int), class),
        lo <= r <= hi,
        r < hi ==> in_class(v@[r as int], class),
        forall|k: int| lo <= k < r ==> !in_class(#[trigger] v@[k], class),
{
    let ghost s = v@.subrange(lo as int, hi as int);
    let mut i = lo;
    while i < hi && !char_in_class(v[i], class)
        invariant
            lo <= i <= hi <= v.len(),
            forall|k: int| lo <= k < i ==> !in_class(#[trigger] v@[k], class),
        decreases hi - i,
    {
        i = i + 1;
    }
    proof {
        assert forall|k: int| 0 <= k < i - lo implies !in_class(#[trigger] s[k], class) by {
            assert(s[k] == v@[lo + k]);
        }
        lemma_first_in(s, class, i - lo);
    }
    i
}

/// Index in `v` just after the run of characters in `class` that starts at `lo`.
pub fn run_in(v: &Vec<char>, lo: usize, hi: usize, class: CharClass) -> (r: usize)
    requires
        lo <= hi <= v.len(),
    ensures
        r == lo + run_of(v@.subrange(lo as int, hi as int), class),
        lo <= r <= hi,
        forall|k: int| lo <= k < r ==> in_class(#[trigger] v@[k], class),
{
    let ghost s = v@.subrange(lo as int, hi as int);
    let mut i = lo;
    while i < hi && char_in_class(v[i], class)
        invariant
            lo <= i <= hi <= v.len(),
            forall|k: int| lo <= k < i ==> in_class(#[trigger] v@[k], class),
        decreases hi - i,
    {
        i = i + 1;
    }
    proof {
        assert forall|k: int| 0 <= k < i - lo implies in_class(#[trigger] s[k], class) by {
            assert(s[k] == v@[lo + k]);
        }
        lemma_run_of(s, class, i - lo);
    }
    i
}

/// The bounds of `trim(v[lo..hi])` within `v`.
pub fn trim_range(v: &Vec<char>, lo: usize, hi: usize) -> (r: (usize, usize))
    requires
        lo <= hi <= v.len(),
    ensures
        lo <= r.0 <= r.1 <= hi,
        trim(v@.subrange(lo as int, hi as int)) == v@.subrange(r.0 as int, r.1 as int),
{
    let ghost s = v@.subrange(lo as int, hi as int);
    let mut a = lo;
    while a < hi && white_space(v[a])
        invariant
            lo <= a <= hi <= v.len(),
            forall|k: int| lo <= k < a ==> is_white_space(#[trigger] v@[k]),
        decreases hi - a,
    {
        a = a + 1;
    }
    let mut b = hi;
    while b > a && white_space(v[b - 1])
        invariant
            lo <= a <= b <= hi <= v.len(),
            forall|k: int| b <= k < hi ==> is_white_space(#[trigger] v@[k]),
        decreases b - a,
    {
        b = b - 1;
    }
    proof {
        assert forall|k: int| 0 <= k < a - lo implies is_white_space(#[trigger] s[k]) by {
            assert(s[k] == v@[lo + k]);
        }
        lemma_trim_start(s, a - lo);
        let t = s.subrange(a - lo, s.len() as int);
        assert(t =~= v@.subrange(a as int, hi as int));
        assert forall|k: int| b - a <= k < t.len() implies is_white_space(#[trigger] t[k]) by {
            assert(t[k] == v@[a + k]);
        }
        lemma_trim_end(t, b - a);
        assert(t.subrange(0, b - a) =~= v@.subrange(a as int, b as int));
    }
    (a, b)
}

/// UTF-8 width of a character, computed.
pub fn char_width(c: char) -> (r: usize)
    ensures
        r == utf8_width(c),
{
    let u = c as u32;
    if u < 0x80 {
        1
    } else if u < 0x800 {
        2
    } else if u < 0x10000 {
        3
    } else {
        4
    }
}

/// `lo + k` where `k` is `chars_in_bytes(v[lo..hi], bytes)`, if there is one.
pub fn char_boundary(v: &Vec<char>, lo: usize, hi: usize, bytes: usize) -> (r: Option<usize>)
    requires
        lo <= hi <= v.len(),
    ensures
        r == (match chars_in_bytes(v@.subrange(lo as int, hi as int), bytes as int) {
            Some(k) => Some((lo + k) as usize),
            None => None::<usize>,
        }),
{
    let ghost s = v@.subrange(lo as int, hi as int);
    let mut i = lo;
    let mut used: usize = 0;
    assert(s.skip(0) =~= s);
    while used < bytes
        invariant
            lo <= i <= hi <= v.len(),
            used <= bytes,
            s == v@.subrange(lo as int, hi as int),
            chars_in_bytes(s, bytes as int) == (match chars_in_bytes(
                s.skip(i - lo),
                bytes - used,
            ) {
                Some(j) => Some(j + (i - lo)),
                None => None::<int>,
            }),
        decreases bytes - used,
    {
        if i == hi {
            assert(s.skip(i - lo).len() == 0);
            return None;
        }
        let w = char_width(v[i]);
        assert(s[i - lo] == v@[i as int]);
        if bytes - used < w {
            return None;
        }
        proof {
            lemma_chars_in_bytes_step(s, bytes as int, i - lo, used as int);
        }
        used = used + w;
        i = i + 1;
    }
    Some(i)
}

} // verus!

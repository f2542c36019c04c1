//! The formula grammar. A formula is read by trying, in order: a bracketed
//! part, a sum or difference, a product, quotient or power, a numeral, and a
//! name. Each rule splits the text at a character and reads the pieces as
//! formulas again. The specification functions below state what each rule
//! gives; `Err(())` stands for the inputs on which reading cannot finish
//! (a missing piece where one is needed, or a split that falls inside a
//! character).
use vstd::prelude::*;

use super::text::{
    char_boundary, chars_in_bytes, chars_of, find_in, first_in, in_class, is_digit,
    lemma_chars_in_bytes_bounds, lemma_first_in_bounds, lemma_run_of_positive, run_in, run_of,
    substring, trim, trim_range, char_string, lemma_trim_len, CharClass, is_alpha,
    is_white_space, lemma_first_in, lemma_run_of, lemma_trim_idempotent, lemma_trim_unchanged,
    utf8_width, lemma_trim_avoids, lemma_run_of_bounds, is_alnum,
};
use super::{
    leaf, leftmost, level, node, rightmost, view_opt, with_leftmost, with_rightmost,
    view_seq, ComplexNode, ComplexNodeType, Kind, Number, ParseError, Tree, lemma_vector_view,
};

verus! {

/// The bracket rule applies (the pattern `\(.*\)` matches): some '(' is
/// followed, later on the same line, by a ')'.
pub open spec fn has_bracket_pair(t: Seq<char>) -> bool {
    exists|i: int, j: int|
        0 <= i < j < t.len() && #[trigger] t[i] == '(' && #[trigger] t[j] == ')' && (forall|k: int|
            i < k < j ==> t[k] != '\n')
}

/// Scanning `s` from position `k` with `depth` brackets open, the position
/// of the character at which no bracket is open any more; `s.len()` if
/// that never happens.
pub open spec fn closing(s: Seq<char>, k: int, depth: int) -> int
    decreases s.len() - k,
{
    if k < 0 || k >= s.len() {
        s.len() as int
    } else {
        let d = if s[k] == '(' {
            depth + 1
        } else if s[k] == ')' {
            depth - 1
        } else {
            depth
        };
        if d <= 0 {
            k
        } else {
            closing(s, k + 1, d)
        }
    }
}

/// Index of the first numeral of `s` (a digit, or a '-' right before a
/// digit), or `s.len()` when there is none.
pub open spec fn numeral_start(s: Seq<char>) -> int
    decreases s.len(),
{
    if s.len() == 0 {
        0
    } else if is_digit(s[0]) || (s[0] == '-' && s.len() > 1 && is_digit(s[1])) {
        0
    } else {
        1 + numeral_start(s.drop_first())
    }
}

/// End of the numeral `-?[0-9]+\.?[0-9]*` that starts at `p`.
pub open spec fn numeral_end(t: Seq<char>, p: int) -> int {
    let a = if 0 <= p < t.len() && t[p] == '-' {
        p + 1
    } else {
        p
    };
    let q = a + run_of(t.subrange(a, t.len() as int), CharClass::Digit);
    if 0 <= q < t.len() && t[q] == '.' {
        q + 1 + run_of(t.subrange(q + 1, t.len() as int), CharClass::Digit)
    } else {
        q
    }
}

/// The pieces of a tree when a rule splits at `[p, e)`: `kind` for the
/// node, the text before for its left child and the text after for its
/// right child.
pub open spec fn split_around(kind: Kind, t: Seq<char>, p: int, e: int) -> Result<Option<Tree>, ()>
    decreases t.len(), 2int,
{
    if 0 <= p < e <= t.len() {
        let l = spec_parse(t.subrange(0, p));
        let r = spec_parse(t.subrange(e, t.len() as int));
        match (l, r) {
            (Ok(lt), Ok(rt)) => Ok(Some(node(kind, lt, rt))),
            _ => Err(()),
        }
    } else {
        Err(())
    }
}

/// Sums and differences: split at the first '+', else at the first '-'.
pub open spec fn spec_addition(t: Seq<char>) -> Result<Option<Tree>, ()>
    decreases t.len(), 3int,
{
    let p = first_in(t, CharClass::Exactly('+'));
    let m = first_in(t, CharClass::Exactly('-'));
    if p < t.len() {
        split_around(Kind::Add, t, p, p + 1)
    } else if m < t.len() {
        split_around(Kind::Sub, t, m, m + 1)
    } else {
        Ok(None)
    }
}

/// Products, quotients and powers: split at the first '*', else '/', else '^'.
pub open spec fn spec_multiplication(t: Seq<char>) -> Result<Option<Tree>, ()>
    decreases t.len(), 3int,
{
    let a = first_in(t, CharClass::Exactly('*'));
    let d = first_in(t, CharClass::Exactly('/'));
    let p = first_in(t, CharClass::Exactly('^'));
    if a < t.len() {
        split_around(Kind::Mul, t, a, a + 1)
    } else if d < t.len() {
        split_around(Kind::Div, t, d, d + 1)
    } else if p < t.len() {
        split_around(Kind::Pow, t, p, p + 1)
    } else {
        Ok(None)
    }
}

/// A numeral: a real number, its text as written, with the text before and
/// after as children.
pub open spec fn spec_numerics(t: Seq<char>) -> Result<Option<Tree>, ()>
    decreases t.len(), 3int,
{
    let p = numeral_start(t);
    if p < t.len() {
        let e = numeral_end(t, p);
        split_around(Kind::Scalar(t.subrange(p, e), seq!['0']), t, p, e)
    } else {
        Ok(None)
    }
}

/// A name: the first letter with the letters and digits after it, with the
/// text before and after as children.
pub open spec fn spec_letters(t: Seq<char>) -> Result<Option<Tree>, ()>
    decreases t.len(), 3int,
{
    let p = first_in(t, CharClass::Alpha);
    if p < t.len() {
        let e = p + run_of(t.subrange(p, t.len() as int), CharClass::Alnum);
        split_around(Kind::Name(t.subrange(p, e)), t, p, e)
    } else {
        Ok(None)
    }
}

/// The comma-separated pieces of `c`, each read as a formula; every piece
/// must give a tree.
pub open spec fn spec_pieces(c: Seq<char>) -> Result<Seq<Tree>, ()>
    decreases c.len(), 5int,
{
    let j = first_in(c, CharClass::Exactly(','));
    proof {
        lemma_first_in_bounds(c, CharClass::Exactly(','));
    }
    match spec_parse(c.subrange(0, j)) {
        Ok(Some(n)) => if j < c.len() {
            match spec_pieces(c.subrange(j + 1, c.len() as int)) {
                Ok(ns) => Ok(seq![n] + ns),
                Err(_) => Err(()),
            }
        } else {
            Ok(seq![n])
        },
        _ => Err(()),
    }
}

/// A vector: text with a comma is the vector of its comma-separated pieces.
pub open spec fn spec_vector(c: Seq<char>) -> Result<Option<Tree>, ()>
    decreases c.len(), 6int,
{
    if first_in(c, CharClass::Exactly(',')) < c.len() {
        match spec_pieces(c) {
            Ok(ns) => Ok(Some(leaf(Kind::Vector(ns)))),
            Err(_) => Err(()),
        }
    } else {
        Ok(None)
    }
}

/// How a bracketed part `c` joins the formula `l` before it and `r` after it.
pub open spec fn join_brackets(l: Option<Tree>, r: Option<Tree>, c: Option<Tree>) -> Result<
    Option<Tree>,
    (),
> {
    match (l, r, c) {
        (Some(lt), Some(rt), Some(ct)) => if level(rightmost(lt).kind) > level(
            leftmost(rt).kind,
        ) {
            Ok(Some(with_leftmost(rt, with_rightmost(lt, ct))))
        } else {
            Ok(Some(with_rightmost(lt, with_leftmost(rt, ct))))
        },
        (Some(lt), None, Some(ct)) => Ok(Some(with_rightmost(lt, ct))),
        (None, Some(rt), Some(ct)) => Ok(Some(with_leftmost(rt, ct))),
        (None, None, _) => Ok(c),
        _ => Err(()),
    }
}

/// Brackets: the text from the first '(' to the ')' that closes it is read
/// on its own (as a vector when it holds a comma) and joined with the text
/// before and after it. The text after is cut at the byte offset equal to the
/// number of characters scanned.
pub open spec fn spec_brakets(t: Seq<char>) -> Result<Option<Tree>, ()>
    decreases t.len(), 3int,
{
    if !has_bracket_pair(t) {
        Ok(None)
    } else {
        let i = first_in(t, CharClass::Exactly('('));
        let rest = t.subrange(i + 1, t.len() as int);
        let m = closing(rest, 0, 1);
        let index = if m < rest.len() {
            m + 1
        } else {
            rest.len() as int
        };
        match chars_in_bytes(rest, index) {
            Some(k) => bracket_parts(t, i, m, k),
            None => Err(()),
        }
    }
}

/// The bracket rule once the cuts are known: `t[..i]` before the '(' at `i`,
/// the bracketed text `rest[..m]` and the text `rest[k..]` after it, where
/// `rest` is the text after the '('.
pub open spec fn bracket_parts(t: Seq<char>, i: int, m: int, k: int) -> Result<Option<Tree>, ()>
    decreases t.len(), 2int,
{
    let rest = t.subrange(i + 1, t.len() as int);
    if 0 <= i < t.len() && 0 <= m <= rest.len() && 0 <= k <= rest.len() {
        let l = spec_parse(t.subrange(0, i));
        let r = spec_parse(rest.subrange(k, rest.len() as int));
        let c = match spec_vector(rest.subrange(0, m)) {
            Ok(None) => spec_parse(rest.subrange(0, m)),
            x => x,
        };
        match (l, r, c) {
            (Ok(lt), Ok(rt), Ok(ct)) => join_brackets(lt, rt, ct),
            _ => Err(()),
        }
    } else {
        Err(())
    }
}

/// What reading the formula `s` gives: `Ok(None)` for a formula with
/// nothing in it, `Ok(Some(tree))`, or `Err(())` when reading cannot finish.
pub open spec fn spec_parse(s: Seq<char>) -> Result<Option<Tree>, ()>
    decreases s.len(), 4int,
{
    let t = trim(s);
    proof {
        lemma_trim_len(s);
    }
    if t.len() == 0 {
        Ok(None)
    } else {
        match spec_brakets(t) {
            Ok(None) => match spec_addition(t) {
                Ok(None) => match spec_multiplication(t) {
                    Ok(None) => match spec_numerics(t) {
                        Ok(None) => spec_letters(t),
                        x => x,
                    },
                    x => x,
                },
                x => x,
            },
            x => x,
        }
    }
}


/// The outcome of a reading agrees with what the grammar gives.
pub open spec fn agrees(r: Result<Option<Box<ComplexNode>>, ParseError>, s: Result<Option<Tree>, ()>) -> bool {
    match r {
        Ok(o) => s == Ok::<Option<Tree>, ()>(view_opt(o)),
        Err(_) => s is Err,
    }
}

proof fn lemma_closing_bounds(s: Seq<char>, k: int, depth: int)
    requires
        0 <= k,
    ensures
        k <= s.len() ==> k <= closing(s, k, depth) <= s.len(),
        k > s.len() ==> closing(s, k, depth) == s.len(),
    decreases s.len() - k,
{
    if k < s.len() {
        let d = if s[k] == '(' {
            depth + 1
        } else if s[k] == ')' {
            depth - 1
        } else {
            depth
        };
        if d > 0 {
            lemma_closing_bounds(s, k + 1, d);
        }
    }
}

proof fn lemma_bracket_open(t: Seq<char>)
    requires
        has_bracket_pair(t),
    ensures
        first_in(t, CharClass::Exactly('(')) < t.len(),
{
    let (i, j) = choose|i: int, j: int|
        0 <= i < j < t.len() && #[trigger] t[i] == '(' && #[trigger] t[j] == ')' && (forall|k: int|
            i < k < j ==> t[k] != '\n');
    lemma_first_in_bounds(t, CharClass::Exactly('('));
    if first_in(t, CharClass::Exactly('(')) >= t.len() {
        assert(!in_class(t[i], CharClass::Exactly('(')));
    }
}

spec fn starts_numeral(s: Seq<char>, k: int) -> bool {
    is_digit(s[k]) || (s[k] == '-' && k + 1 < s.len() && is_digit(s[k + 1]))
}

proof fn lemma_numeral_start(s: Seq<char>, i: int)
    requires
        0 <= i <= s.len(),
        forall|k: int| 0 <= k < i ==> !#[trigger] starts_numeral(s, k),
        i == s.len() || starts_numeral(s, i),
    ensures
        numeral_start(s) == i,
    decreases i,
{
    if i > 0 {
        assert(!starts_numeral(s, 0));
        assert forall|k: int| 0 <= k < i - 1 implies !#[trigger] starts_numeral(s.drop_first(), k) by {
            assert(!starts_numeral(s, k + 1));
        }
        if i < s.len() {
            assert(starts_numeral(s, i));
        }
        lemma_numeral_start(s.drop_first(), i - 1);
    } else if s.len() > 0 {
        assert(starts_numeral(s, 0));
    }
}

/// Whether `v[lo..hi]` has a bracket pair.
fn bracket_pair(v: &Vec<char>, lo: usize, hi: usize) -> (r: bool)
    requires
        lo <= hi <= v.len(),
    ensures
        r == has_bracket_pair(v@.subrange(lo as int, hi as int)),
{
    let ghost t = v@.subrange(lo as int, hi as int);
    let mut open = false;
    let ghost mut op: int = 0;
    let mut k = lo;
    while k < hi
        invariant
            lo <= k <= hi <= v.len(),
            t == v@.subrange(lo as int, hi as int),
            open ==> lo <= op < k && v@[op] == '(' && forall|m: int| op < m < k ==> v@[m] != '\n',
            !open ==> forall|i: int|
                lo <= i < k && v@[i] == '(' ==> exists|m: int| i < m < k && v@[m] == '\n',
            forall|i: int, j: int|
                lo <= i < j < k && v@[i] == '(' && v@[j] == ')' ==> exists|m: int|
                    i < m < j && v@[m] == '\n',
        decreases hi - k,
    {
        let c = v[k];
        if c == ')' && open {
            proof {
                assert(t[op - lo] == '(' && t[k - lo] == ')');
                assert forall|m: int| op - lo < m < k - lo implies t[m] != '\n' by {
                    assert(t[m] == v@[lo + m]);
                }
            }
            return true;
        }
        if c == '\n' {
            open = false;
        } else if c == '(' {
            open = true;
            proof {
                op = k as int;
            }
        }
        k = k + 1;
    }
    proof {
        assert forall|i: int, j: int|
            0 <= i < j < t.len() && #[trigger] t[i] == '(' && #[trigger] t[j] == ')' implies !(
            forall|m: int| i < m < j ==> t[m] != '\n') by {
            assert(v@[lo + i] == '(' && v@[lo + j] == ')');
            let m = choose|m: int| lo + i < m < lo + j && v@[m] == '\n';
            assert(t[m - lo] == '\n');
        }
    }
    false
}

/// `lo + closing(v[lo..hi], 0, 1)`.
fn closing_index(v: &Vec<char>, lo: usize, hi: usize) -> (r: usize)
    requires
        lo <= hi <= v.len(),
    ensures
        r == lo + closing(v@.subrange(lo as int, hi as int), 0, 1),
        lo <= r <= hi,
{
    let ghost t = v@.subrange(lo as int, hi as int);
    // brackets open besides the one that opened before `lo`
    let mut inner: usize = 0;
    let mut k = lo;
    proof {
        lemma_closing_bounds(t, 0, 1);
    }
    while k < hi
        invariant
            lo <= k <= hi <= v.len(),
            t == v@.subrange(lo as int, hi as int),
            inner <= k - lo,
            closing(t, 0, 1) == closing(t, k - lo, inner + 1),
        decreases hi - k,
    {
        let c = v[k];
        assert(t[k - lo] == c);
        if c == '(' {
            inner = inner + 1;
        } else if c == ')' {
            if inner == 0 {
                return k;
            }
            inner = inner - 1;
        }
        k = k + 1;
    }
    hi
}

/// `lo + numeral_start(v[lo..hi])`.
fn numeral_index(v: &Vec<char>, lo: usize, hi: usize) -> (r: usize)
    requires
        lo <= hi <= v.len(),
    ensures
        r == lo + numeral_start(v@.subrange(lo as int, hi as int)),
        lo <= r <= hi,
        r < hi ==> is_digit(v@[r as int]) || (v@[r as int] == '-' && r + 1 < hi && is_digit(
            v@[r + 1],
        )),
{
    let ghost t = v@.subrange(lo as int, hi as int);
    let mut i = lo;
    while i < hi && !(('0' <= v[i] && v[i] <= '9') || (v[i] == '-' && i + 1 < hi && '0' <= v[i
        + 1] && v[i + 1] <= '9'))
        invariant
            lo <= i <= hi <= v.len(),
            t == v@.subrange(lo as int, hi as int),
            forall|k: int| 0 <= k < i - lo ==> !#[trigger] starts_numeral(t, k),
        decreases hi - i,
    {
        proof {
            assert(t[i - lo] == v@[i as int]);
            if i + 1 < hi {
                assert(t[i - lo + 1] == v@[i + 1]);
            }
        }
        i = i + 1;
    }
    proof {
        if i < hi {
            assert(t[i - lo] == v@[i as int]);
            if i + 1 < hi {
                assert(t[i - lo + 1] == v@[i + 1]);
            }
        }
        lemma_numeral_start(t, i - lo);
    }
    i
}

/// The error of a missing piece: the message `unwrap` gives on `None`.
fn unwrap_failure() -> (r: ParseError)
    ensures
        r matches ParseError::Unknown(m) && m@ == "called `Option::unwrap()` on a `None` value"@,
{
    ParseError::Unknown(String::from_str("called `Option::unwrap()` on a `None` value"))
}

/// The error of a cut that falls inside a character.
fn boundary_failure() -> (r: ParseError)
    ensures
        r matches ParseError::Unknown(m) && m@ == "byte index is not a char boundary"@,
{
    ParseError::Unknown(String::from_str("byte index is not a char boundary"))
}


/// The trees `xs` in front of the pieces `r`, if there are pieces.
pub open spec fn prepend(xs: Seq<Tree>, r: Result<Seq<Tree>, ()>) -> Result<Seq<Tree>, ()> {
    match r {
        Ok(ys) => Ok(xs + ys),
        Err(_) => Err(()),
    }
}

impl ComplexNode {
    /// Reads the formula `s`. `Err` is returned exactly where reading cannot
    /// finish: a bracket, or a piece of a vector, that holds no formula, or
    /// a cut that falls inside a character.
    pub fn try_parse(s: &str) -> (r: Result<Option<Box<ComplexNode>>, ParseError>)
        ensures
            agrees(r, spec_parse(s@)),
    {
        let v = chars_of(s);
        assert(v@.subrange(0, v@.len() as int) =~= s@);
        Self::parse_range(&v, 0, v.len())
    }

    /// Reads the formula `s`: `None` when it holds nothing, else its tree.
    pub fn parse(s: &str) -> (r: Option<Box<ComplexNode>>)
        requires
            spec_parse(s@) is Ok,
        ensures
            spec_parse(s@) == Ok::<Option<Tree>, ()>(view_opt(r)),
    {
        match Self::try_parse(s) {
            Ok(x) => x,
            Err(_) => {
                assert(false);
                None
            },
        }
    }

    fn parse_range(v: &Vec<char>, lo: usize, hi: usize) -> (r: Result<
        Option<Box<ComplexNode>>,
        ParseError,
    >)
        requires
            lo <= hi <= v.len(),
        ensures
            agrees(r, spec_parse(v@.subrange(lo as int, hi as int))),
        decreases hi - lo, 4int,
    {
        let (a, b) = trim_range(v, lo, hi);
        if a == b {
            return Ok(None);
        }
        let x = Self::brakets(v, a, b)?;
        if x.is_some() {
            return Ok(x);
        }
        let x = Self::addition(v, a, b)?;
        if x.is_some() {
            return Ok(x);
        }
        let x = Self::multiplication(v, a, b)?;
        if x.is_some() {
            return Ok(x);
        }
        let x = Self::numerics(v, a, b)?;
        if x.is_some() {
            return Ok(x);
        }
        Self::letters(v, a, b)
    }

    /// A node of type `t` whose children are read from `v[lo..p]` and `v[e..hi]`.
    fn split_node(
        v: &Vec<char>,
        lo: usize,
        hi: usize,
        p: usize,
        e: usize,
        t: ComplexNodeType,
        Ghost(kind): Ghost<Kind>,
    ) -> (r: Result<Option<Box<ComplexNode>>, ParseError>)
        requires
            lo <= p < e <= hi <= v.len(),
            (ComplexNode { t, left: None, right: None })@.kind == kind,
        ensures
            agrees(
                r,
                split_around(kind, v@.subrange(lo as int, hi as int), p - lo, e - lo),
            ),
        decreases hi - lo, 2int,
    {
        let ghost s = v@.subrange(lo as int, hi as int);
        assert(s.subrange(0, p - lo) =~= v@.subrange(lo as int, p as int));
        assert(s.subrange(e - lo, s.len() as int) =~= v@.subrange(e as int, hi as int));
        let left = Self::parse_range(v, lo, p)?;
        let right = Self::parse_range(v, e, hi)?;
        Ok(Some(Box::new(ComplexNode { t, left, right })))
    }

    fn addition(v: &Vec<char>, lo: usize, hi: usize) -> (r: Result<
        Option<Box<ComplexNode>>,
        ParseError,
    >)
        requires
            lo <= hi <= v.len(),
        ensures
            agrees(r, spec_addition(v@.subrange(lo as int, hi as int))),
        decreases hi - lo, 3int,
    {
        let p = find_in(v, lo, hi, CharClass::Exactly('+'));
        if p < hi {
            return Self::split_node(v, lo, hi, p, p + 1, ComplexNodeType::Add, Ghost(Kind::Add));
        }
        let m = find_in(v, lo, hi, CharClass::Exactly('-'));
        if m < hi {
            return Self::split_node(v, lo, hi, m, m + 1, ComplexNodeType::Sub, Ghost(Kind::Sub));
        }
        Ok(None)
    }

    fn multiplication(v: &Vec<char>, lo: usize, hi: usize) -> (r: Result<
        Option<Box<ComplexNode>>,
        ParseError,
    >)
        requires
            lo <= hi <= v.len(),
        ensures
            agrees(r, spec_multiplication(v@.subrange(lo as int, hi as int))),
        decreases hi - lo, 3int,
    {
        let a = find_in(v, lo, hi, CharClass::Exactly('*'));
        if a < hi {
            return Self::split_node(v, lo, hi, a, a + 1, ComplexNodeType::Mul, Ghost(Kind::Mul));
        }
        let d = find_in(v, lo, hi, CharClass::Exactly('/'));
        if d < hi {
            return Self::split_node(v, lo, hi, d, d + 1, ComplexNodeType::Div, Ghost(Kind::Div));
        }
        let p = find_in(v, lo, hi, CharClass::Exactly('^'));
        if p < hi {
            return Self::split_node(v, lo, hi, p, p + 1, ComplexNodeType::Pow, Ghost(Kind::Pow));
        }
        Ok(None)
    }

    fn numerics(v: &Vec<char>, lo: usize, hi: usize) -> (r: Result<
        Option<Box<ComplexNode>>,
        ParseError,
    >)
        requires
            lo <= hi <= v.len(),
        ensures
            agrees(r, spec_numerics(v@.subrange(lo as int, hi as int))),
        decreases hi - lo, 3int,
    {
        let ghost t = v@.subrange(lo as int, hi as int);
        let p = numeral_index(v, lo, hi);
        if p == hi {
            return Ok(None);
        }
        assert(t[p - lo] == v@[p as int]);
        let a = if v[p] == '-' {
            assert(t[p - lo + 1] == v@[p + 1]);
            p + 1
        } else {
            p
        };
        let q = run_in(v, a, hi, CharClass::Digit);
        assert(t.subrange(a - lo, t.len() as int) =~= v@.subrange(a as int, hi as int));
        assert(q > a) by {
            lemma_run_of_positive(v@.subrange(a as int, hi as int), CharClass::Digit);
        }
        let e = if q < hi && v[q] == '.' {
            assert(t[q - lo] == v@[q as int]);
            assert(t.subrange(q + 1 - lo, t.len() as int) =~= v@.subrange(q + 1, hi as int));
            run_in(v, q + 1, hi, CharClass::Digit)
        } else {
            assert(q < hi ==> t[q - lo] == v@[q as int]);
            q
        };
        assert(e == lo + numeral_end(t, p - lo));
        let text = substring(v, p, e);
        let im = char_string('0');
        let ghost kind = Kind::Scalar(v@.subrange(p as int, e as int), seq!['0']);
        assert(t.subrange(p - lo, e - lo) =~= v@.subrange(p as int, e as int));
        Self::split_node(
            v,
            lo,
            hi,
            p,
            e,
            ComplexNodeType::Scalar(Number { re: text, im }),
            Ghost(kind),
        )
    }

    fn letters(v: &Vec<char>, lo: usize, hi: usize) -> (r: Result<
        Option<Box<ComplexNode>>,
        ParseError,
    >)
        requires
            lo <= hi <= v.len(),
        ensures
            agrees(r, spec_letters(v@.subrange(lo as int, hi as int))),
        decreases hi - lo, 3int,
    {
        let ghost t = v@.subrange(lo as int, hi as int);
        let p = find_in(v, lo, hi, CharClass::Alpha);
        if p == hi {
            return Ok(None);
        }
        let e = run_in(v, p, hi, CharClass::Alnum);
        assert(t.subrange(p - lo, t.len() as int) =~= v@.subrange(p as int, hi as int));
        assert(e > p) by {
            lemma_run_of_positive(v@.subrange(p as int, hi as int), CharClass::Alnum);
        }
        let name = substring(v, p, e);
        let ghost kind = Kind::Name(v@.subrange(p as int, e as int));
        assert(t.subrange(p - lo, e - lo) =~= v@.subrange(p as int, e as int));
        Self::split_node(v, lo, hi, p, e, ComplexNodeType::Name(name), Ghost(kind))
    }

    fn vector(v: &Vec<char>, lo: usize, hi: usize) -> (r: Result<
        Option<Box<ComplexNode>>,
        ParseError,
    >)
        requires
            lo <= hi <= v.len(),
        ensures
            agrees(r, spec_vector(v@.subrange(lo as int, hi as int))),
        decreases hi - lo, 6int,
    {
        let ghost whole = v@.subrange(lo as int, hi as int);
        let j0 = find_in(v, lo, hi, CharClass::Exactly(','));
        if j0 == hi {
            return Ok(None);
        }
        let mut items: Vec<ComplexNode> = Vec::new();
        let mut pos = lo;
        assert(view_seq(items@) =~= Seq::<Tree>::empty());
        assert(prepend(view_seq(items@), spec_pieces(whole)) == spec_pieces(whole));
        loop
            invariant
                lo <= pos <= hi <= v.len(),
                whole == v@.subrange(lo as int, hi as int),
                first_in(whole, CharClass::Exactly(',')) < whole.len(),
                prepend(view_seq(items@), spec_pieces(v@.subrange(pos as int, hi as int)))
                    == spec_pieces(whole),
            decreases hi - pos,
        {
            let ghost u = v@.subrange(pos as int, hi as int);
            let j = find_in(v, pos, hi, CharClass::Exactly(','));
            assert(u.subrange(0, j - pos) =~= v@.subrange(pos as int, j as int));
            let piece = match Self::parse_range(v, pos, j) {
                Ok(x) => x,
                Err(e) => {
                    return Err(e);
                },
            };
            let n = match piece {
                Some(n) => n,
                None => {
                    return Err(unwrap_failure());
                },
            };
            let ghost before = view_seq(items@);
            items.push(*n);
            assert(view_seq(items@) =~= before.push(n@));
            if j == hi {
                let ghost ns = view_seq(items@);
                let ghost iv = items@;
                assert(before + seq![n@] =~= ns);
                let r = ComplexNode { t: ComplexNodeType::Vector(items), left: None, right: None };
                proof {
                    lemma_vector_view(r);
                }
                return Ok(Some(Box::new(r)));
            }
            proof {
                let w = v@.subrange(j + 1, hi as int);
                assert(u.subrange(j - pos + 1, u.len() as int) =~= w);
                match spec_pieces(w) {
                    Ok(ns) => {
                        assert(before + (seq![n@] + ns) =~= view_seq(items@) + ns);
                    },
                    Err(_) => {},
                }
            }
            pos = j + 1;
        }
    }

    fn brakets(v: &Vec<char>, lo: usize, hi: usize) -> (r: Result<
        Option<Box<ComplexNode>>,
        ParseError,
    >)
        requires
            lo <= hi <= v.len(),
        ensures
            agrees(r, spec_brakets(v@.subrange(lo as int, hi as int))),
        decreases hi - lo, 3int,
    {
        let ghost t = v@.subrange(lo as int, hi as int);
        if !bracket_pair(v, lo, hi) {
            return Ok(None);
        }
        proof {
            lemma_bracket_open(t);
        }
        let i = find_in(v, lo, hi, CharClass::Exactly('('));
        let rs = i + 1;
        let ghost rest = t.subrange(i + 1 - lo, t.len() as int);
        assert(rest =~= v@.subrange(rs as int, hi as int));
        let m = closing_index(v, rs, hi);
        assert(t.len() == hi - lo);
        let index = if m < hi {
            m - rs + 1
        } else {
            hi - rs
        };
        let k = match char_boundary(v, rs, hi, index) {
            Some(k) => k,
            None => {
                return Err(boundary_failure());
            },
        };
        proof {
            lemma_chars_in_bytes_bounds(rest, index as int);
        }
        Self::bracket_parts(v, lo, hi, i, m, k)
    }

    /// The parts of a bracket: `v[lo..i]` before the '(' at `i`, the
    /// bracketed `v[i + 1..m]`, and `v[k..hi]` after it.
    fn bracket_parts(v: &Vec<char>, lo: usize, hi: usize, i: usize, m: usize, k: usize) -> (r:
        Result<Option<Box<ComplexNode>>, ParseError>)
        requires
            lo <= i < hi <= v.len(),
            i + 1 <= m <= hi,
            i + 1 <= k <= hi,
        ensures
            agrees(
                r,
                bracket_parts(v@.subrange(lo as int, hi as int), i - lo, m - (i + 1), k - (i + 1)),
            ),
        decreases hi - lo, 2int,
    {
        let ghost t = v@.subrange(lo as int, hi as int);
        let rs = i + 1;
        let ghost rest = t.subrange(i + 1 - lo, t.len() as int);
        assert(rest =~= v@.subrange(rs as int, hi as int));
        assert(t.subrange(0, i - lo) =~= v@.subrange(lo as int, i as int));
        assert(rest.subrange(k - rs, rest.len() as int) =~= v@.subrange(k as int, hi as int));
        assert(rest.subrange(0, m - rs) =~= v@.subrange(rs as int, m as int));
        let left = Self::parse_range(v, lo, i)?;
        let right = Self::parse_range(v, k, hi)?;
        let center = match Self::vector(v, rs, m)? {
            Some(x) => Some(x),
            None => Self::parse_range(v, rs, m)?,
        };
        Self::join(left, right, center)
    }

    /// Joins a bracketed part with the formulas before and after it.
    fn join(
        left: Option<Box<ComplexNode>>,
        right: Option<Box<ComplexNode>>,
        center: Option<Box<ComplexNode>>,
    ) -> (r: Result<Option<Box<ComplexNode>>, ParseError>)
        ensures
            agrees(r, join_brackets(view_opt(left), view_opt(right), view_opt(center))),
    {
        match left {
            Some(mut l) => match right {
                Some(mut r) => match center {
                    Some(c) => {
                        let lr = l.get_right().level();
                        let rl = r.get_left().level();
                        if lr > rl {
                            l.append_right(*c);
                            r.append_left(*l);
                            Ok(Some(r))
                        } else {
                            r.append_left(*c);
                            l.append_right(*r);
                            Ok(Some(l))
                        }
                    },
                    None => Err(unwrap_failure()),
                },
                None => match center {
                    Some(c) => {
                        l.append_right(*c);
                        Ok(Some(l))
                    },
                    None => Err(unwrap_failure()),
                },
            },
            None => match right {
                Some(mut r) => match center {
                    Some(c) => {
                        r.append_left(*c);
                        Ok(Some(r))
                    },
                    None => Err(unwrap_failure()),
                },
                None => Ok(center),
            },
        }
    }
}


/// Leading and trailing white space does not change what a formula reads as.
pub proof fn law_parse_ignores_outer_space(s: Seq<char>)
    ensures
        spec_parse(s) == spec_parse(trim(s)),
{
    lemma_trim_idempotent(s);
}

/// Text in which a rule's characters do not occur is left to the later rules.
proof fn lemma_absent(t: Seq<char>, c: char)
    requires
        forall|k: int| 0 <= k < t.len() ==> #[trigger] t[k] != c,
    ensures
        first_in(t, CharClass::Exactly(c)) == t.len(),
{
    lemma_first_in(t, CharClass::Exactly(c), t.len() as int);
}

/// A word of letters reads as that name.
pub proof fn law_parse_word(s: Seq<char>)
    requires
        s.len() > 0,
        forall|k: int| 0 <= k < s.len() ==> is_alpha(#[trigger] s[k]),
    ensures
        spec_parse(s) == Ok::<Option<Tree>, ()>(Some(leaf(Kind::Name(s)))),
{
    assert(!is_white_space(s[0]) && !is_white_space(s.last()));
    lemma_trim_unchanged(s);
    assert(!has_bracket_pair(s)) by {
        if has_bracket_pair(s) {
            let (i, j) = choose|i: int, j: int|
                0 <= i < j < s.len() && #[trigger] s[i] == '(' && #[trigger] s[j] == ')' && (forall|
                    k: int,
                | i < k < j ==> s[k] != '\n');
            assert(is_alpha(s[i]));
        }
    }
    lemma_absent(s, '+');
    lemma_absent(s, '-');
    lemma_absent(s, '*');
    lemma_absent(s, '/');
    lemma_absent(s, '^');
    assert forall|k: int| 0 <= k < s.len() implies !#[trigger] starts_numeral(s, k) by {
        assert(is_alpha(s[k]));
    }
    lemma_numeral_start(s, s.len() as int);
    lemma_first_in(s, CharClass::Alpha, 0);
    assert(s.subrange(0, s.len() as int) =~= s);
    lemma_run_of(s, CharClass::Alnum, s.len() as int);
    let empty = s.subrange(0, 0);
    assert(trim(empty).len() == 0);
    assert(spec_parse(empty) == Ok::<Option<Tree>, ()>(None));
    assert(s.subrange(s.len() as int, s.len() as int) =~= empty);
    assert(s.subrange(0, s.len() as int) =~= s);
    assert(spec_brakets(s) == Ok::<Option<Tree>, ()>(None));
    assert(spec_addition(s) == Ok::<Option<Tree>, ()>(None));
    assert(spec_multiplication(s) == Ok::<Option<Tree>, ()>(None));
    assert(spec_numerics(s) == Ok::<Option<Tree>, ()>(None));
    assert(split_around(Kind::Name(s), s, 0, s.len() as int) == Ok::<Option<Tree>, ()>(
        Some(leaf(Kind::Name(s))),
    ));
    assert(spec_letters(s) == Ok::<Option<Tree>, ()>(Some(leaf(Kind::Name(s)))));
}

/// A run of digits reads as that (real) number.
pub proof fn law_parse_digits(s: Seq<char>)
    requires
        s.len() > 0,
        forall|k: int| 0 <= k < s.len() ==> is_digit(#[trigger] s[k]),
    ensures
        spec_parse(s) == Ok::<Option<Tree>, ()>(Some(leaf(Kind::Scalar(s, seq!['0'])))),
{
    assert(!is_white_space(s[0]) && !is_white_space(s.last()));
    lemma_trim_unchanged(s);
    assert(!has_bracket_pair(s)) by {
        if has_bracket_pair(s) {
            let (i, j) = choose|i: int, j: int|
                0 <= i < j < s.len() && #[trigger] s[i] == '(' && #[trigger] s[j] == ')' && (forall|
                    k: int,
                | i < k < j ==> s[k] != '\n');
            assert(is_digit(s[i]));
        }
    }
    lemma_absent(s, '+');
    lemma_absent(s, '-');
    lemma_absent(s, '*');
    lemma_absent(s, '/');
    lemma_absent(s, '^');
    lemma_numeral_start(s, 0);
    assert(s.subrange(0, s.len() as int) =~= s);
    lemma_run_of(s, CharClass::Digit, s.len() as int);
    assert(numeral_end(s, 0) == s.len());
    let empty = s.subrange(0, 0);
    assert(trim(empty).len() == 0);
    assert(spec_parse(empty) == Ok::<Option<Tree>, ()>(None));
    assert(s.subrange(s.len() as int, s.len() as int) =~= empty);
    assert(spec_brakets(s) == Ok::<Option<Tree>, ()>(None));
    assert(spec_addition(s) == Ok::<Option<Tree>, ()>(None));
    assert(spec_multiplication(s) == Ok::<Option<Tree>, ()>(None));
    let k = Kind::Scalar(s, seq!['0']);
    assert(split_around(k, s, 0, s.len() as int) == Ok::<Option<Tree>, ()>(Some(leaf(k))));
    assert(spec_numerics(s) == Ok::<Option<Tree>, ()>(Some(leaf(k))));
}


proof fn lemma_closing_word(s: Seq<char>, k: int)
    requires
        s.len() > 0,
        s.last() == ')',
        0 <= k < s.len(),
        forall|i: int| 0 <= i < s.len() - 1 ==> is_alpha(#[trigger] s[i]),
    ensures
        closing(s, k, 1) == s.len() - 1,
    decreases s.len() - k,
{
    if k < s.len() - 1 {
        assert(is_alpha(s[k]));
        lemma_closing_word(s, k + 1);
    }
}

proof fn lemma_chars_in_bytes_ascii(s: Seq<char>, b: int)
    requires
        0 <= b <= s.len(),
        forall|i: int| 0 <= i < s.len() ==> (#[trigger] s[i] as u32) < 0x80,
    ensures
        chars_in_bytes(s, b) == Some(b),
    decreases b,
{
    if b > 0 {
        assert(utf8_width(s[0]) == 1);
        assert forall|i: int| 0 <= i < s.drop_first().len() implies (#[trigger] s.drop_first()[i]
            as u32) < 0x80 by {
            assert(s.drop_first()[i] == s[i + 1]);
        }
        lemma_chars_in_bytes_ascii(s.drop_first(), b - 1);
    }
}

/// A call `f(x)` of a name `f` on a name `x` reads as the name `f` with `x`
/// as its right child (a function and its argument).
pub proof fn law_parse_call(f: Seq<char>, x: Seq<char>)
    requires
        f.len() > 0,
        x.len() > 0,
        forall|k: int| 0 <= k < f.len() ==> is_alpha(#[trigger] f[k]),
        forall|k: int| 0 <= k < x.len() ==> is_alpha(#[trigger] x[k]),
    ensures
        spec_parse(f + seq!['('] + x + seq![')']) == Ok::<Option<Tree>, ()>(
            Some(Tree { kind: Kind::Name(f), left: None, right: Some(Box::new(leaf(Kind::Name(x)))) }),
        ),
{
    let s = f + seq!['('] + x + seq![')'];
    let n = f.len() as int;
    assert(s[0] == f[0] && is_alpha(f[0]));
    assert(s.last() == ')');
    lemma_trim_unchanged(s);
    assert(has_bracket_pair(s)) by {
        assert(s[n] == '(');
        assert(s[s.len() - 1] == ')');
        assert forall|k: int| n < k < s.len() - 1 implies s[k] != '\n' by {
            assert(s[k] == x[k - n - 1]);
            assert(is_alpha(x[k - n - 1]));
        }
    }
    assert forall|k: int| 0 <= k < n implies !in_class(#[trigger] s[k], CharClass::Exactly('(')) by {
        assert(s[k] == f[k]);
        assert(is_alpha(f[k]));
    }
    assert(s[n] == '(');
    lemma_first_in(s, CharClass::Exactly('('), n);
    let rest = s.subrange(n + 1, s.len() as int);
    assert(rest =~= x + seq![')']);
    assert forall|i: int| 0 <= i < rest.len() - 1 implies is_alpha(#[trigger] rest[i]) by {
        assert(rest[i] == x[i]);
    }
    lemma_closing_word(rest, 0);
    let m = x.len() as int;
    assert forall|i: int| 0 <= i < rest.len() implies (#[trigger] rest[i] as u32) < 0x80 by {
        if i < m {
            assert(rest[i] == x[i]);
            assert(is_alpha(x[i]));
        }
    }
    lemma_chars_in_bytes_ascii(rest, m + 1);
    assert(s.subrange(0, n) =~= f);
    law_parse_word(f);
    law_parse_word(x);
    assert(rest.subrange(0, m) =~= x);
    assert forall|k: int| 0 <= k < x.len() implies #[trigger] x[k] != ',' by {
        assert(is_alpha(x[k]));
    }
    lemma_absent(x, ',');
    assert(spec_vector(x) == Ok::<Option<Tree>, ()>(None));
    let empty = rest.subrange(m + 1, rest.len() as int);
    assert(empty.len() == 0);
    assert(trim(empty).len() == 0);
    assert(spec_parse(empty) == Ok::<Option<Tree>, ()>(None));
    let lt = leaf(Kind::Name(f));
    let ct = leaf(Kind::Name(x));
    assert(with_rightmost(lt, ct) == Tree {
        kind: Kind::Name(f),
        left: None,
        right: Some(Box::new(ct)),
    });
    assert(bracket_parts(s, n, m, m + 1) == Ok::<Option<Tree>, ()>(Some(with_rightmost(lt, ct))));
    assert(spec_brakets(s) == Ok::<Option<Tree>, ()>(Some(with_rightmost(lt, ct))));
}


proof fn lemma_numeral_start_bounds(s: Seq<char>)
    ensures
        0 <= numeral_start(s) <= s.len(),
        numeral_start(s) < s.len() ==> starts_numeral(s, numeral_start(s)),
    decreases s.len(),
{
    if s.len() > 0 && !(is_digit(s[0]) || (s[0] == '-' && s.len() > 1 && is_digit(s[1]))) {
        let d = s.drop_first();
        lemma_numeral_start_bounds(d);
        let p = numeral_start(d);
        if p < d.len() {
            assert(d[p] == s[p + 1]);
            if p + 1 < d.len() {
                assert(d[p + 1] == s[p + 2]);
            }
        }
    }
}

/// Where a numeral starts, it ends after at least one character and within the text.
proof fn lemma_numeral_end_bounds(t: Seq<char>, p: int)
    requires
        0 <= p < t.len(),
        starts_numeral(t, p),
    ensures
        p < numeral_end(t, p) <= t.len(),
{
    let a = if t[p] == '-' {
        p + 1
    } else {
        p
    };
    let sa = t.subrange(a, t.len() as int);
    assert(sa[0] == t[a]);
    lemma_run_of_positive(sa, CharClass::Digit);
    lemma_run_of_bounds(sa, CharClass::Digit);
    let q = a + run_of(sa, CharClass::Digit);
    if 0 <= q < t.len() && t[q] == '.' {
        lemma_run_of_bounds(t.subrange(q + 1, t.len() as int), CharClass::Digit);
    }
}

/// A split whose two sides both read gives a tree.
proof fn lemma_split_ok(kind: Kind, t: Seq<char>, p: int, e: int)
    requires
        0 <= p < e <= t.len(),
        spec_parse(t.subrange(0, p)) is Ok,
        spec_parse(t.subrange(e, t.len() as int)) is Ok,
    ensures
        split_around(kind, t, p, e) is Ok,
{
}

/// Text with no '(' always reads: it never needs a bracket, so reading it
/// cannot fail.
pub proof fn law_parse_without_brackets(s: Seq<char>)
    requires
        forall|k: int| 0 <= k < s.len() ==> #[trigger] s[k] != '(',
    ensures
        spec_parse(s) is Ok,
    decreases s.len(),
{
    let t = trim(s);
    lemma_trim_len(s);
    lemma_trim_avoids(s, '(');
    if t.len() == 0 {
        return;
    }
    assert(!has_bracket_pair(t)) by {
        if has_bracket_pair(t) {
            let (i, j) = choose|i: int, j: int|
                0 <= i < j < t.len() && #[trigger] t[i] == '(' && #[trigger] t[j] == ')' && (forall|
                    k: int,
                | i < k < j ==> t[k] != '\n');
        }
    }
    assert(spec_brakets(t) == Ok::<Option<Tree>, ()>(None));
    assert forall|p: int, e: int| 0 <= p < e <= t.len() implies #[trigger] spec_parse(
        t.subrange(0, p),
    ) is Ok && #[trigger] spec_parse(t.subrange(e, t.len() as int)) is Ok by {
        let l = t.subrange(0, p);
        let r = t.subrange(e, t.len() as int);
        assert forall|k: int| 0 <= k < l.len() implies #[trigger] l[k] != '(' by {
            assert(l[k] == t[k]);
        }
        assert forall|k: int| 0 <= k < r.len() implies #[trigger] r[k] != '(' by {
            assert(r[k] == t[e + k]);
        }
        law_parse_without_brackets(l);
        law_parse_without_brackets(r);
    }
    let plus = first_in(t, CharClass::Exactly('+'));
    let minus = first_in(t, CharClass::Exactly('-'));
    lemma_first_in_bounds(t, CharClass::Exactly('+'));
    lemma_first_in_bounds(t, CharClass::Exactly('-'));
    if plus < t.len() {
        lemma_split_ok(Kind::Add, t, plus, plus + 1);
    } else if minus < t.len() {
        lemma_split_ok(Kind::Sub, t, minus, minus + 1);
    }
    assert(spec_addition(t) is Ok);
    let times = first_in(t, CharClass::Exactly('*'));
    let over = first_in(t, CharClass::Exactly('/'));
    let power = first_in(t, CharClass::Exactly('^'));
    lemma_first_in_bounds(t, CharClass::Exactly('*'));
    lemma_first_in_bounds(t, CharClass::Exactly('/'));
    lemma_first_in_bounds(t, CharClass::Exactly('^'));
    if times < t.len() {
        lemma_split_ok(Kind::Mul, t, times, times + 1);
    } else if over < t.len() {
        lemma_split_ok(Kind::Div, t, over, over + 1);
    } else if power < t.len() {
        lemma_split_ok(Kind::Pow, t, power, power + 1);
    }
    assert(spec_multiplication(t) is Ok);
    lemma_numeral_start_bounds(t);
    let p = numeral_start(t);
    if p < t.len() {
        lemma_numeral_end_bounds(t, p);
        let e = numeral_end(t, p);
        lemma_split_ok(Kind::Scalar(t.subrange(p, e), seq!['0']), t, p, e);
    }
    assert(spec_numerics(t) is Ok);
    lemma_first_in_bounds(t, CharClass::Alpha);
    let a = first_in(t, CharClass::Alpha);
    if a < t.len() {
        let sa = t.subrange(a, t.len() as int);
        assert(sa[0] == t[a]);
        assert(is_alnum(sa[0]));
        lemma_run_of_positive(sa, CharClass::Alnum);
        lemma_run_of_bounds(sa, CharClass::Alnum);
        let e = a + run_of(sa, CharClass::Alnum);
        lemma_split_ok(Kind::Name(t.subrange(a, e)), t, a, e);
    }
    assert(spec_letters(t) is Ok);
}

/// How many brackets are left open after `s`: one more for each '(' and
/// one fewer for each ')'.
pub open spec fn open_brackets(s: Seq<char>) -> int
    decreases s.len(),
{
    if s.len() == 0 {
        0
    } else {
        open_brackets(s.drop_last()) + if s.last() == '(' {
            1int
        } else if s.last() == ')' {
            -1int
        } else {
            0int
        }
    }
}

/// Every bracket of `b` that opens is closed within `b`, and no ')' of `b`
/// closes a bracket opened before it.
pub open spec fn balanced(b: Seq<char>) -> bool {
    &&& open_brackets(b) == 0
    &&& forall|i: int| 0 <= i <= b.len() ==> open_brackets(#[trigger] b.take(i)) >= 0
}

proof fn lemma_closing_balanced(b: Seq<char>, r: Seq<char>, k: int)
    requires
        balanced(b),
        0 <= k <= b.len(),
    ensures
        closing(b + seq![')'] + r, k, 1 + open_brackets(b.take(k))) == b.len(),
    decreases b.len() - k,
{
    let s = b + seq![')'] + r;
    if k < b.len() {
        assert(s[k] == b[k]);
        assert(b.take(k + 1).drop_last() =~= b.take(k));
        assert(b.take(k + 1).last() == b[k]);
        assert(open_brackets(b.take(k + 1)) >= 0);
        lemma_closing_balanced(b, r, k + 1);
    } else {
        assert(s[k] == ')');
        assert(b.take(k) =~= b);
    }
}

/// A bracket closes at its matching ')': after the '(' of `f(b)r`, where the
/// text `b` is balanced (it may hold brackets of its own), the scan ends at
/// the ')' right after `b`, not at an earlier ')' inside `b`.
pub proof fn law_bracket_closes_at_match(b: Seq<char>, r: Seq<char>)
    requires
        balanced(b),
    ensures
        closing(b + seq![')'] + r, 0, 1) == b.len(),
{
    assert(b.take(0).len() == 0);
    lemma_closing_balanced(b, r, 0);
}

/// The kind of node that a sign of a sum or difference gives.
pub open spec fn sum_kind(o: char) -> Kind {
    if o == '+' {
        Kind::Add
    } else {
        Kind::Sub
    }
}

/// The kind of node that a sign of a product, quotient or power gives.
pub open spec fn product_kind(o: char) -> Kind {
    if o == '*' {
        Kind::Mul
    } else if o == '/' {
        Kind::Div
    } else {
        Kind::Pow
    }
}

proof fn lemma_no_brackets_balanced(c: Seq<char>)
    requires
        forall|k: int| 0 <= k < c.len() ==> is_alpha(#[trigger] c[k]),
    ensures
        balanced(c),
{
    assert forall|i: int| 0 <= i <= c.len() implies open_brackets(#[trigger] c.take(i)) == 0 by {
        lemma_open_brackets_zero(c, i);
    }
    assert(c.take(c.len() as int) =~= c);
}

proof fn lemma_open_brackets_zero(c: Seq<char>, i: int)
    requires
        0 <= i <= c.len(),
        forall|k: int| 0 <= k < c.len() ==> is_alpha(#[trigger] c[k]),
    ensures
        open_brackets(c.take(i)) == 0,
    decreases i,
{
    if i > 0 {
        assert(c.take(i).drop_last() =~= c.take(i - 1));
        assert(c.take(i).last() == c[i - 1]);
        assert(is_alpha(c[i - 1]));
        lemma_open_brackets_zero(c, i - 1);
    }
}

proof fn lemma_parse_nothing(e: Seq<char>)
    requires
        e.len() == 0,
    ensures
        spec_parse(e) == Ok::<Option<Tree>, ()>(None),
{
    assert(trim(e).len() == 0) by {
        lemma_trim_len(e);
    }
}

/// A word followed by the sign of a sum or difference reads as that sum or
/// difference with the word on its left and nothing on its right.
proof fn lemma_parse_word_sign(a: Seq<char>, o: char)
    requires
        a.len() > 0,
        forall|k: int| 0 <= k < a.len() ==> is_alpha(#[trigger] a[k]),
        o == '+' || o == '-',
    ensures
        spec_parse(a + seq![o]) == Ok::<Option<Tree>, ()>(
            Some(node(sum_kind(o), Some(leaf(Kind::Name(a))), None)),
        ),
{
    let t = a + seq![o];
    let n = a.len() as int;
    assert(t[0] == a[0] && is_alpha(a[0]));
    assert(t.last() == o);
    lemma_trim_unchanged(t);
    assert forall|k: int| 0 <= k < n implies #[trigger] t[k] == a[k] && is_alpha(t[k]) by {}
    assert(!has_bracket_pair(t)) by {
        if has_bracket_pair(t) {
            let (i, j) = choose|i: int, j: int|
                0 <= i < j < t.len() && #[trigger] t[i] == '(' && #[trigger] t[j] == ')' && (forall|
                    k: int,
                | i < k < j ==> t[k] != '\n');
            assert(t[i] == a[i] && is_alpha(a[i]));
        }
    }
    assert(spec_brakets(t) == Ok::<Option<Tree>, ()>(None));
    assert(t.subrange(0, n) =~= a);
    law_parse_word(a);
    lemma_parse_nothing(t.subrange(n + 1, t.len() as int));
    if o == '+' {
        lemma_first_in(t, CharClass::Exactly('+'), n);
    } else {
        lemma_first_in(t, CharClass::Exactly('+'), t.len() as int);
        lemma_first_in(t, CharClass::Exactly('-'), n);
    }
    assert(split_around(sum_kind(o), t, n, n + 1) == Ok::<Option<Tree>, ()>(
        Some(node(sum_kind(o), Some(leaf(Kind::Name(a))), None)),
    ));
}

/// The sign of a product, quotient or power followed by a word reads as that
/// operation with nothing on its left and the word on its right.
proof fn lemma_parse_sign_word(o: char, b: Seq<char>)
    requires
        b.len() > 0,
        forall|k: int| 0 <= k < b.len() ==> is_alpha(#[trigger] b[k]),
        o == '*' || o == '/' || o == '^',
    ensures
        spec_parse(seq![o] + b) == Ok::<Option<Tree>, ()>(
            Some(node(product_kind(o), None, Some(leaf(Kind::Name(b))))),
        ),
{
    let t = seq![o] + b;
    assert(t[0] == o);
    assert(t.last() == b.last() && is_alpha(b[b.len() - 1]));
    lemma_trim_unchanged(t);
    assert forall|k: int| 1 <= k < t.len() implies #[trigger] t[k] == b[k - 1] && is_alpha(t[k]) by {}
    assert(!has_bracket_pair(t)) by {
        if has_bracket_pair(t) {
            let (i, j) = choose|i: int, j: int|
                0 <= i < j < t.len() && #[trigger] t[i] == '(' && #[trigger] t[j] == ')' && (forall|
                    k: int,
                | i < k < j ==> t[k] != '\n');
            assert(t[j] == b[j - 1] && is_alpha(b[j - 1]));
        }
    }
    assert(spec_brakets(t) == Ok::<Option<Tree>, ()>(None));
    lemma_absent(t, '+');
    lemma_absent(t, '-');
    assert(spec_addition(t) == Ok::<Option<Tree>, ()>(None));
    assert(t.subrange(1, t.len() as int) =~= b);
    law_parse_word(b);
    lemma_parse_nothing(t.subrange(0, 0));
    if o == '*' {
        lemma_first_in(t, CharClass::Exactly('*'), 0);
    } else if o == '/' {
        lemma_absent(t, '*');
        lemma_first_in(t, CharClass::Exactly('/'), 0);
    } else {
        lemma_absent(t, '*');
        lemma_absent(t, '/');
        lemma_first_in(t, CharClass::Exactly('^'), 0);
    }
    assert(split_around(product_kind(o), t, 0, 1) == Ok::<Option<Tree>, ()>(
        Some(node(product_kind(o), None, Some(leaf(Kind::Name(b))))),
    ));
    assert(spec_multiplication(t) == Ok::<Option<Tree>, ()>(
        Some(node(product_kind(o), None, Some(leaf(Kind::Name(b))))),
    ));
}

/// A bracket between a sum and a product binds to the product: in
/// `a+(c)*b` (any sign of a sum or difference before the bracket, any sign
/// of a product, quotient or power after it, and words `a`, `c`, `b`) the
/// bracketed part is the left operand of the product, and the product is
/// the right operand of the sum: `a+((c)*b)`, not `(a+(c))*b`.
pub proof fn law_bracket_binds_to_product(a: Seq<char>, o1: char, c: Seq<char>, o2: char, b: Seq<char>)
    requires
        a.len() > 0,
        c.len() > 0,
        b.len() > 0,
        forall|k: int| 0 <= k < a.len() ==> is_alpha(#[trigger] a[k]),
        forall|k: int| 0 <= k < c.len() ==> is_alpha(#[trigger] c[k]),
        forall|k: int| 0 <= k < b.len() ==> is_alpha(#[trigger] b[k]),
        o1 == '+' || o1 == '-',
        o2 == '*' || o2 == '/' || o2 == '^',
    ensures
        spec_parse(a + seq![o1, '('] + c + seq![')', o2] + b) == Ok::<Option<Tree>, ()>(
            Some(
                Tree {
                    kind: sum_kind(o1),
                    left: Some(Box::new(leaf(Kind::Name(a)))),
                    right: Some(
                        Box::new(
                            Tree {
                                kind: product_kind(o2),
                                left: Some(Box::new(leaf(Kind::Name(c)))),
                                right: Some(Box::new(leaf(Kind::Name(b)))),
                            },
                        ),
                    ),
                },
            ),
        ),
{
    let s = a + seq![o1, '('] + c + seq![')', o2] + b;
    let n = a.len() as int;
    let m = c.len() as int;
    assert forall|k: int| 0 <= k < n implies #[trigger] s[k] == a[k] by {}
    assert forall|k: int| 0 <= k < m implies #[trigger] s[n + 2 + k] == c[k] by {}
    assert(s[n] == o1 && s[n + 1] == '(' && s[n + 2 + m] == ')' && s[n + 3 + m] == o2);
    assert(s[0] == a[0] && is_alpha(a[0]));
    assert(s.last() == b.last() && is_alpha(b[b.len() - 1]));
    lemma_trim_unchanged(s);
    assert(has_bracket_pair(s)) by {
        assert(s[n + 1] == '(');
        assert(s[n + 2 + m] == ')');
        assert forall|k: int| n + 1 < k < n + 2 + m implies s[k] != '\n' by {
            assert(s[n + 2 + (k - n - 2)] == c[k - n - 2]);
            assert(is_alpha(c[k - n - 2]));
        }
    }
    assert forall|k: int| 0 <= k < n + 1 implies !in_class(#[trigger] s[k], CharClass::Exactly('(')) by {
        if k < n {
            assert(s[k] == a[k] && is_alpha(a[k]));
        }
    }
    lemma_first_in(s, CharClass::Exactly('('), n + 1);
    let rest = s.subrange(n + 2, s.len() as int);
    let after = seq![o2] + b;
    assert(rest =~= c + seq![')'] + after);
    lemma_no_brackets_balanced(c);
    law_bracket_closes_at_match(c, after);
    assert forall|i: int| 0 <= i < rest.len() implies (#[trigger] rest[i] as u32) < 0x80 by {
        if i < m {
            assert(rest[i] == c[i] && is_alpha(c[i]));
        } else if i > m + 1 {
            assert(rest[i] == b[i - m - 2] && is_alpha(b[i - m - 2]));
        }
    }
    lemma_chars_in_bytes_ascii(rest, m + 1);
    assert(spec_brakets(s) == bracket_parts(s, n + 1, m, m + 1));
    assert(s.subrange(0, n + 1) =~= a + seq![o1]);
    lemma_parse_word_sign(a, o1);
    assert(rest.subrange(m + 1, rest.len() as int) =~= after);
    lemma_parse_sign_word(o2, b);
    assert(rest.subrange(0, m) =~= c);
    law_parse_word(c);
    assert forall|k: int| 0 <= k < c.len() implies #[trigger] c[k] != ',' by {
        assert(is_alpha(c[k]));
    }
    lemma_absent(c, ',');
    assert(spec_vector(c) == Ok::<Option<Tree>, ()>(None));
    let lt = node(sum_kind(o1), Some(leaf(Kind::Name(a))), None);
    let rt = node(product_kind(o2), None, Some(leaf(Kind::Name(b))));
    let ct = leaf(Kind::Name(c));
    assert(rightmost(lt) == lt);
    assert(leftmost(rt) == rt);
    assert(level(lt.kind) == 0 && level(rt.kind) == 1);
    assert(join_brackets(Some(lt), Some(rt), Some(ct)) == Ok::<Option<Tree>, ()>(
        Some(with_rightmost(lt, with_leftmost(rt, ct))),
    ));
}

} // verus!

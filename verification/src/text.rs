//! Character-level text handling shared by the parsers and printers of the
//! library: conversion between strings and character vectors, whitespace
//! trimming, splitting, searching, decimal printing and decimal parsing.
//!
//! Every operation is stated over `Seq<char>`, the view of `String` and `&str`.
use vstd::prelude::*;

verus! {

broadcast use vstd::string::group_string_axioms;

// ---------------------------------------------------------------------------
// Conversions
// ---------------------------------------------------------------------------

/// The characters of `s`, in order.
pub fn chars_of(s: &str) -> (v: Vec<char>)
    ensures
        v@ == s@,
{
    let mut v: Vec<char> = Vec::new();
    for c in it: s.chars()
        invariant
            v@ == it.seq().take(it.index() as int),
            it.seq() == s@,
    {
        v.push(c);
    }
    v
}

/// `String::push`: appends one character.
#[verifier::external_body]
pub(crate) fn push_char(s: &mut String, c: char)
    ensures
        final(s)@ == old(s)@.push(c),
{
    s.push(c);
}

/// Appends the characters of `v` to `out`.
pub fn push_chars(out: &mut String, v: &Vec<char>)
    ensures
        final(out)@ == old(out)@ + v@,
{
    let mut i: usize = 0;
    while i < v.len()
        invariant
            i <= v.len(),
            out@ == old(out)@ + v@.take(i as int),
        decreases v.len() - i,
    {
        push_char(out, v[i]);
        assert(v@.take(i as int).push(v@[i as int]) =~= v@.take(i + 1));
        assert(old(out)@ + v@.take(i as int).push(v@[i as int]) =~= (old(out)@ + v@.take(
            i as int,
        )).push(v@[i as int]));
        i += 1;
    }
    assert(v@.take(v.len() as int) =~= v@);
}

/// A new string holding exactly the characters of `v`.
pub fn string_of(v: &Vec<char>) -> (s: String)
    ensures
        s@ == v@,
{
    let mut s = String::new();
    push_chars(&mut s, v);
    assert(Seq::<char>::empty() + v@ =~= v@);
    s
}

/// Appends the characters of `s` to `out`.
pub fn push_str(out: &mut String, s: &str)
    ensures
        final(out)@ == old(out)@ + s@,
{
    let v = chars_of(s);
    push_chars(out, &v);
}

/// A new string holding exactly the characters of `s`.
pub fn owned(s: &str) -> (r: String)
    ensures
        r@ == s@,
{
    let v = chars_of(s);
    string_of(&v)
}

/// Whether two character vectors hold the same characters.
pub fn chars_eq(a: &Vec<char>, b: &Vec<char>) -> (r: bool)
    ensures
        r == (a@ == b@),
{
    if a.len() != b.len() {
        return false;
    }
    let mut i: usize = 0;
    while i < a.len()
        invariant
            a.len() == b.len(),
            i <= a.len(),
            forall|j: int| 0 <= j < i ==> a@[j] == b@[j],
        decreases a.len() - i,
    {
        if a[i] != b[i] {
            return false;
        }
        i += 1;
    }
    assert(a@ =~= b@);
    true
}

/// Whether two strings hold the same characters.
pub fn str_eq(a: &str, b: &str) -> (r: bool)
    ensures
        r == (a@ == b@),
{
    let va = chars_of(a);
    let vb = chars_of(b);
    chars_eq(&va, &vb)
}

// ---------------------------------------------------------------------------
// Whitespace and trimming
// ---------------------------------------------------------------------------

/// The Unicode `White_Space` property, which `char::is_whitespace` tests.
pub open spec fn is_ws(c: char) -> bool {
    let u = c as u32;
    ||| 0x09 <= u <= 0x0D
    ||| u == 0x20
    ||| u == 0x85
    ||| u == 0xA0
    ||| u == 0x1680
    ||| 0x2000 <= u <= 0x200A
    ||| u == 0x2028
    ||| u == 0x2029
    ||| u == 0x202F
    ||| u == 0x205F
    ||| u == 0x3000
}

/// Tests the `White_Space` property of one character.
pub fn is_ws_char(c: char) -> (r: bool)
    ensures
        r == is_ws(c),
{
    let u = c as u32;
    (0x09 <= u && u <= 0x0D) || u == 0x20 || u == 0x85 || u == 0xA0 || u == 0x1680 || (0x2000
        <= u && u <= 0x200A) || u == 0x2028 || u == 0x2029 || u == 0x202F || u == 0x205F || u
        == 0x3000
}

/// Number of leading characters of `s` that satisfy `p`.
pub open spec fn lead_by(s: Seq<char>, p: spec_fn(char) -> bool) -> nat
    decreases s.len(),
{
    if s.len() > 0 && p(s[0]) {
        1 + lead_by(s.drop_first(), p)
    } else {
        0
    }
}

/// Number of trailing characters of `s` that satisfy `p`.
pub open spec fn trail_by(s: Seq<char>, p: spec_fn(char) -> bool) -> nat
    decreases s.len(),
{
    if s.len() > 0 && p(s.last()) {
        1 + trail_by(s.drop_last(), p)
    } else {
        0
    }
}

/// `s` without its leading characters that satisfy `p` (`trim_start_matches`).
pub open spec fn trim_start_by(s: Seq<char>, p: spec_fn(char) -> bool) -> Seq<char> {
    s.skip(lead_by(s, p) as int)
}

/// `s` without its trailing characters that satisfy `p` (`trim_end_matches`).
pub open spec fn trim_end_by(s: Seq<char>, p: spec_fn(char) -> bool) -> Seq<char> {
    s.take(s.len() - trail_by(s, p))
}

/// Whitespace as a predicate.
pub open spec fn ws() -> spec_fn(char) -> bool {
    |c: char| is_ws(c)
}

/// Equality with one character, as a predicate.
pub open spec fn is_char(c: char) -> spec_fn(char) -> bool {
    |d: char| d == c
}

/// `str::trim`: `s` without leading and trailing whitespace.
pub open spec fn trim(s: Seq<char>) -> Seq<char> {
    trim_end_by(trim_start_by(s, ws()), ws())
}

pub proof fn lemma_lead_by(s: Seq<char>, p: spec_fn(char) -> bool, k: int)
    requires
        0 <= k <= s.len(),
        forall|j: int| 0 <= j < k ==> p(s[j]),
        k == s.len() || !p(s[k]),
    ensures
        lead_by(s, p) == k,
    decreases k,
{
    if k > 0 {
        assert forall|j: int| 0 <= j < k - 1 implies p(s.drop_first()[j]) by {
            assert(s.drop_first()[j] == s[j + 1]);
        }
        if k - 1 < s.drop_first().len() {
            assert(s.drop_first()[k - 1] == s[k]);
        }
        lemma_lead_by(s.drop_first(), p, k - 1);
    }
}

pub proof fn lemma_trail_by(s: Seq<char>, p: spec_fn(char) -> bool, k: int)
    requires
        0 <= k <= s.len(),
        forall|j: int| s.len() - k <= j < s.len() ==> p(s[j]),
        k == s.len() || !p(s[s.len() - k - 1]),
    ensures
        trail_by(s, p) == k,
    decreases k,
{
    if k > 0 {
        let t = s.drop_last();
        assert forall|j: int| t.len() - (k - 1) <= j < t.len() implies p(t[j]) by {
            assert(t[j] == s[j]);
        }
        if k - 1 < t.len() {
            assert(t[t.len() - (k - 1) - 1] == s[s.len() - k - 1]);
        }
        lemma_trail_by(t, p, k - 1);
    }
}

/// Index of the first character of `v` that is not whitespace, or `v.len()`.
pub fn lead_ws_len(v: &Vec<char>) -> (k: usize)
    ensures
        k == lead_by(v@, ws()),
        k <= v.len(),
{
    let mut i: usize = 0;
    while i < v.len() && is_ws_char(v[i])
        invariant
            i <= v.len(),
            forall|j: int| 0 <= j < i ==> is_ws(v@[j]),
        decreases v.len() - i,
    {
        i += 1;
    }
    proof {
        lemma_lead_by(v@, ws(), i as int);
    }
    i
}

/// Number of trailing whitespace characters of `v`.
pub fn trail_ws_len(v: &Vec<char>) -> (k: usize)
    ensures
        k == trail_by(v@, ws()),
        k <= v.len(),
{
    let mut k: usize = 0;
    while k < v.len() && is_ws_char(v[v.len() - 1 - k])
        invariant
            k <= v.len(),
            forall|j: int| v.len() - k <= j < v.len() ==> is_ws(v@[j]),
        decreases v.len() - k,
    {
        k += 1;
    }
    proof {
        lemma_trail_by(v@, ws(), k as int);
    }
    k
}

/// Number of leading characters of `v` equal to `c`.
pub fn lead_char_len(v: &Vec<char>, c: char) -> (k: usize)
    ensures
        k == lead_by(v@, is_char(c)),
        k <= v.len(),
{
    let mut i: usize = 0;
    while i < v.len() && v[i] == c
        invariant
            i <= v.len(),
            forall|j: int| 0 <= j < i ==> v@[j] == c,
        decreases v.len() - i,
    {
        i += 1;
    }
    proof {
        lemma_lead_by(v@, is_char(c), i as int);
    }
    i
}

/// Number of trailing characters of `v` equal to `c`.
pub fn trail_char_len(v: &Vec<char>, c: char) -> (k: usize)
    ensures
        k == trail_by(v@, is_char(c)),
        k <= v.len(),
{
    let mut k: usize = 0;
    while k < v.len() && v[v.len() - 1 - k] == c
        invariant
            k <= v.len(),
            forall|j: int| v.len() - k <= j < v.len() ==> v@[j] == c,
        decreases v.len() - k,
    {
        k += 1;
    }
    proof {
        lemma_trail_by(v@, is_char(c), k as int);
    }
    k
}

/// The characters `v[from..to]`.
pub fn slice_chars(v: &Vec<char>, from: usize, to: usize) -> (r: Vec<char>)
    requires
        from <= to <= v.len(),
    ensures
        r@ == v@.subrange(from as int, to as int),
{
    let mut r: Vec<char> = Vec::new();
    let mut i = from;
    while i < to
        invariant
            from <= i <= to <= v.len(),
            r@ == v@.subrange(from as int, i as int),
        decreases to - i,
    {
        r.push(v[i]);
        assert(v@.subrange(from as int, i as int).push(v@[i as int]) =~= v@.subrange(
            from as int,
            i + 1,
        ));
        i += 1;
    }
    r
}

/// `str::trim` on a character vector.
pub fn trim_chars(v: &Vec<char>) -> (r: Vec<char>)
    ensures
        r@ == trim(v@),
{
    let a = lead_ws_len(v);
    let rest = slice_chars(v, a, v.len());
    assert(rest@ == trim_start_by(v@, ws()));
    let b = trail_ws_len(&rest);
    slice_chars(&rest, 0, rest.len() - b)
}

// ---------------------------------------------------------------------------
// Searching and splitting
// ---------------------------------------------------------------------------

/// Whether `s` begins with `p`.
pub open spec fn starts_with(s: Seq<char>, p: Seq<char>) -> bool {
    p.len() <= s.len() && s.take(p.len() as int) == p
}

/// Tests whether `v` begins with the characters of `p`.
pub fn starts_with_chars(v: &Vec<char>, p: &str) -> (r: bool)
    ensures
        r == starts_with(v@, p@),
{
    let pv = chars_of(p);
    if pv.len() > v.len() {
        return false;
    }
    let mut i: usize = 0;
    while i < pv.len()
        invariant
            pv@ == p@,
            pv.len() <= v.len(),
            i <= pv.len(),
            forall|j: int| 0 <= j < i ==> v@[j] == pv@[j],
        decreases pv.len() - i,
    {
        if v[i] != pv[i] {
            proof {
                let t = v@.take(pv.len() as int);
                assert(t[i as int] == v@[i as int]);
                assert(t[i as int] != p@[i as int]);
                assert(t != p@);
            }
            return false;
        }
        i += 1;
    }
    assert(v@.take(pv.len() as int) =~= pv@);
    true
}

/// Index of the first occurrence of `c` in `s`.
pub open spec fn find_first(s: Seq<char>, c: char) -> Option<int>
    decreases s.len(),
{
    if s.len() == 0 {
        None
    } else if s[0] == c {
        Some(0)
    } else {
        match find_first(s.drop_first(), c) {
            Some(i) => Some(i + 1),
            None => None,
        }
    }
}

/// Index of the last occurrence of `c` in `s`.
pub open spec fn find_last(s: Seq<char>, c: char) -> Option<int>
    decreases s.len(),
{
    if s.len() == 0 {
        None
    } else if s.last() == c {
        Some(s.len() - 1)
    } else {
        find_last(s.drop_last(), c)
    }
}

pub proof fn lemma_find_first(s: Seq<char>, c: char, k: int)
    requires
        0 <= k <= s.len(),
        forall|j: int| 0 <= j < k ==> s[j] != c,
    ensures
        k < s.len() && s[k] == c ==> find_first(s, c) == Some(k),
        k == s.len() ==> find_first(s, c) is None,
    decreases k,
{
    if k > 0 {
        assert forall|j: int| 0 <= j < k - 1 implies s.drop_first()[j] != c by {
            assert(s.drop_first()[j] == s[j + 1]);
        }
        lemma_find_first(s.drop_first(), c, k - 1);
    }
}

pub proof fn lemma_find_last(s: Seq<char>, c: char, k: int)
    requires
        0 <= k <= s.len(),
        forall|j: int| s.len() - k <= j < s.len() ==> s[j] != c,
    ensures
        k < s.len() && s[s.len() - k - 1] == c ==> find_last(s, c) == Some(s.len() - k - 1),
        k == s.len() ==> find_last(s, c) is None,
    decreases k,
{
    if k > 0 {
        let t = s.drop_last();
        assert forall|j: int| t.len() - (k - 1) <= j < t.len() implies t[j] != c by {
            assert(t[j] == s[j]);
        }
        lemma_find_last(t, c, k - 1);
        if k < s.len() {
            assert(t[t.len() - (k - 1) - 1] == s[s.len() - k - 1]);
        }
    }
}

/// `str::find` for one character.
pub fn find_char(v: &Vec<char>, c: char) -> (r: Option<usize>)
    ensures
        match r {
            Some(i) => i < v.len() && find_first(v@, c) == Some(i as int),
            None => find_first(v@, c) is None,
        },
{
    let mut i: usize = 0;
    while i < v.len()
        invariant
            i <= v.len(),
            forall|j: int| 0 <= j < i ==> v@[j] != c,
        decreases v.len() - i,
    {
        if v[i] == c {
            proof {
                lemma_find_first(v@, c, i as int);
            }
            return Some(i);
        }
        i += 1;
    }
    proof {
        lemma_find_first(v@, c, i as int);
    }
    None
}

/// `str::rfind` for one character.
pub fn rfind_char(v: &Vec<char>, c: char) -> (r: Option<usize>)
    ensures
        match r {
            Some(i) => i < v.len() && find_last(v@, c) == Some(i as int),
            None => find_last(v@, c) is None,
        },
{
    let mut k: usize = 0;
    while k < v.len()
        invariant
            k <= v.len(),
            forall|j: int| v.len() - k <= j < v.len() ==> v@[j] != c,
        decreases v.len() - k,
    {
        if v[v.len() - 1 - k] == c {
            proof {
                lemma_find_last(v@, c, k as int);
            }
            return Some(v.len() - 1 - k);
        }
        k += 1;
    }
    proof {
        lemma_find_last(v@, c, k as int);
    }
    None
}

/// `str::split` on one character: the pieces between the occurrences of `sep`.
pub open spec fn split(s: Seq<char>, sep: char) -> Seq<Seq<char>>
    decreases s.len(),
{
    if s.len() == 0 {
        seq![Seq::<char>::empty()]
    } else {
        let prev = split(s.drop_last(), sep);
        if s.last() == sep {
            prev.push(Seq::<char>::empty())
        } else {
            prev.update(prev.len() - 1, prev.last().push(s.last()))
        }
    }
}

pub proof fn lemma_split_nonempty(s: Seq<char>, sep: char)
    ensures
        split(s, sep).len() >= 1,
    decreases s.len(),
{
    if s.len() > 0 {
        lemma_split_nonempty(s.drop_last(), sep);
    }
}

/// The views of a sequence of character vectors.
pub open spec fn views(parts: Seq<Vec<char>>) -> Seq<Seq<char>> {
    parts.map_values(|p: Vec<char>| p@)
}

/// `str::split` on one character, returning the pieces.
pub fn split_chars(v: &Vec<char>, sep: char) -> (parts: Vec<Vec<char>>)
    ensures
        views(parts@) == split(v@, sep),
{
    let mut done: Vec<Vec<char>> = Vec::new();
    let mut cur: Vec<char> = Vec::new();
    let mut i: usize = 0;
    while i < v.len()
        invariant
            i <= v.len(),
            views(done@).push(cur@) == split(v@.take(i as int), sep),
        decreases v.len() - i,
    {
        let ghost prev = views(done@).push(cur@);
        assert(v@.take(i + 1).drop_last() =~= v@.take(i as int));
        if v[i] == sep {
            let piece = cur;
            done.push(piece);
            cur = Vec::new();
            assert(views(done@) =~= prev);
        } else {
            cur.push(v[i]);
            assert(views(done@).push(cur@) =~= prev.update(
                prev.len() - 1,
                prev.last().push(v@[i as int]),
            ));
        }
        i += 1;
    }
    assert(v@.take(v.len() as int) =~= v@);
    let ghost before = views(done@).push(cur@);
    done.push(cur);
    assert(views(done@) =~= before);
    done
}

/// Number of occurrences of `c` in `v`, found in one pass.
pub open spec fn count_char(s: Seq<char>, c: char) -> nat
    decreases s.len(),
{
    if s.len() == 0 {
        0
    } else {
        count_char(s.drop_last(), c) + if s.last() == c {
            1nat
        } else {
            0nat
        }
    }
}

pub proof fn lemma_split_len(s: Seq<char>, sep: char)
    ensures
        split(s, sep).len() == count_char(s, sep) + 1,
    decreases s.len(),
{
    if s.len() > 0 {
        lemma_split_len(s.drop_last(), sep);
    }
}

// ---------------------------------------------------------------------------
// Decimal printing
// ---------------------------------------------------------------------------

/// The ASCII digit for `d < 10`.
pub open spec fn digit_char(d: nat) -> char {
    ((d + 48) as u8) as char
}

/// Decimal digits of `n`, most significant first, without leading zeros.
pub open spec fn nat_digits(n: nat) -> Seq<char>
    decreases n,
{
    if n < 10 {
        seq![digit_char(n)]
    } else {
        nat_digits(n / 10).push(digit_char(n % 10))
    }
}

/// What `format!("{}", n)` prints for an integer `n`.
pub open spec fn decimal(n: int) -> Seq<char> {
    if n < 0 {
        seq!['-'] + nat_digits((-n) as nat)
    } else {
        nat_digits(n as nat)
    }
}

fn digit_of(d: u64) -> (c: char)
    requires
        d < 10,
    ensures
        c == digit_char(d as nat),
{
    let b: u8 = (d as u8) + 48;
    b as char
}

/// Appends the decimal digits of `n`.
pub fn push_u64(out: &mut String, n: u64)
    ensures
        final(out)@ == old(out)@ + nat_digits(n as nat),
    decreases n,
{
    if n < 10 {
        push_char(out, digit_of(n));
        assert(old(out)@.push(digit_char(n as nat)) =~= old(out)@ + nat_digits(n as nat));
    } else {
        push_u64(out, n / 10);
        push_char(out, digit_of(n % 10));
        assert((old(out)@ + nat_digits((n / 10) as nat)).push(digit_char((n % 10) as nat))
            =~= old(out)@ + nat_digits(n as nat));
    }
}

/// Appends the decimal representation of `n`, with a leading `-` when negative.
pub fn push_i64(out: &mut String, n: i64)
    ensures
        final(out)@ == old(out)@ + decimal(n as int),
{
    if n < 0 {
        push_char(out, '-');
        let m: u64 = if n == i64::MIN {
            9223372036854775808u64
        } else {
            (-n) as u64
        };
        push_u64(out, m);
        assert(old(out)@.push('-') + nat_digits(m as nat) =~= old(out)@ + (seq!['-']
            + nat_digits(m as nat)));
    } else {
        push_u64(out, n as u64);
    }
}

/// The decimal representation of `n`, as `n.to_string()` gives it.
pub fn u64_to_string(n: u64) -> (s: String)
    ensures
        s@ == nat_digits(n as nat),
{
    let mut s = String::new();
    push_u64(&mut s, n);
    assert(Seq::<char>::empty() + nat_digits(n as nat) =~= nat_digits(n as nat));
    s
}

// ---------------------------------------------------------------------------
// Decimal parsing
// ---------------------------------------------------------------------------

/// The ways `str::parse` of an integer type can fail (`IntErrorKind`).
#[derive(Clone, Copy, Debug, PartialEq, Eq)]
pub enum IntErrorKind {
    Empty,
    InvalidDigit,
    PosOverflow,
    NegOverflow,
}

impl IntErrorKind {
    /// The message `ParseIntError` displays for this kind.
    pub open spec fn message(self) -> Seq<char> {
        match self {
            IntErrorKind::Empty => "cannot parse integer from empty string"@,
            IntErrorKind::InvalidDigit => "invalid digit found in string"@,
            IntErrorKind::PosOverflow => "number too large to fit in target type"@,
            IntErrorKind::NegOverflow => "number too small to fit in target type"@,
        }
    }

    /// The message `ParseIntError` displays for this kind.
    pub fn to_message(&self) -> (s: String)
        ensures
            s@ == self.message(),
    {
        match self {
            IntErrorKind::Empty => owned("cannot parse integer from empty string"),
            IntErrorKind::InvalidDigit => owned("invalid digit found in string"),
            IntErrorKind::PosOverflow => owned("number too large to fit in target type"),
            IntErrorKind::NegOverflow => owned("number too small to fit in target type"),
        }
    }
}

pub open spec fn is_digit(c: char) -> bool {
    '0' <= c <= '9'
}

pub open spec fn digit_value(c: char) -> int {
    (c as u32) - 48
}

/// Accumulates the digits of `ds` onto `acc`, left to right, as a non-negative
/// number, failing on the first non-digit or once the value passes `max`.
pub open spec fn acc_pos(acc: int, ds: Seq<char>, max: int) -> Result<int, IntErrorKind>
    decreases ds.len(),
{
    if ds.len() == 0 {
        Ok(acc)
    } else if !is_digit(ds[0]) {
        Err(IntErrorKind::InvalidDigit)
    } else if acc * 10 + digit_value(ds[0]) > max {
        Err(IntErrorKind::PosOverflow)
    } else {
        acc_pos(acc * 10 + digit_value(ds[0]), ds.drop_first(), max)
    }
}

/// Like `acc_pos`, for a negative number bounded below by `min`.
pub open spec fn acc_neg(acc: int, ds: Seq<char>, min: int) -> Result<int, IntErrorKind>
    decreases ds.len(),
{
    if ds.len() == 0 {
        Ok(acc)
    } else if !is_digit(ds[0]) {
        Err(IntErrorKind::InvalidDigit)
    } else if acc * 10 - digit_value(ds[0]) < min {
        Err(IntErrorKind::NegOverflow)
    } else {
        acc_neg(acc * 10 - digit_value(ds[0]), ds.drop_first(), min)
    }
}

/// `str::parse` of a decimal integer of a type with bounds `min..=max`
/// (`min < 0` for the signed types, `min == 0` for the unsigned ones).
pub open spec fn parse_int(s: Seq<char>, min: int, max: int) -> Result<int, IntErrorKind> {
    if s.len() == 0 {
        Err(IntErrorKind::Empty)
    } else if (s[0] == '+' || s[0] == '-') && s.len() == 1 {
        Err(IntErrorKind::InvalidDigit)
    } else if s[0] == '+' {
        acc_pos(0, s.drop_first(), max)
    } else if s[0] == '-' && min < 0 {
        acc_neg(0, s.drop_first(), min)
    } else {
        acc_pos(0, s, max)
    }
}

fn parse_pos(v: &Vec<char>, start: usize, max: u64) -> (r: Result<u64, IntErrorKind>)
    requires
        start <= v.len(),
    ensures
        match r {
            Ok(n) => acc_pos(0, v@.skip(start as int), max as int) == Ok::<int, IntErrorKind>(
                n as int,
            ),
            Err(e) => acc_pos(0, v@.skip(start as int), max as int) == Err::<int, IntErrorKind>(
                e,
            ),
        },
        r is Ok ==> r->Ok_0 <= max,
{
    let mut acc: u64 = 0;
    let mut i = start;
    while i < v.len()
        invariant
            start <= i <= v.len(),
            acc <= max,
            acc_pos(0, v@.skip(start as int), max as int) == acc_pos(
                acc as int,
                v@.skip(i as int),
                max as int,
            ),
        decreases v.len() - i,
    {
        let c = v[i];
        assert(v@.skip(i as int)[0] == c);
        assert(v@.skip(i as int).drop_first() =~= v@.skip(i + 1));
        if !('0' <= c && c <= '9') {
            return Err(IntErrorKind::InvalidDigit);
        }
        let d: u32 = (c as u32) - 48;
        let next: u128 = (acc as u128) * 10 + (d as u128);
        if next > max as u128 {
            return Err(IntErrorKind::PosOverflow);
        }
        acc = next as u64;
        i += 1;
    }
    assert(v@.skip(i as int).len() == 0);
    Ok(acc)
}

fn parse_neg(v: &Vec<char>, start: usize, min: i64) -> (r: Result<i64, IntErrorKind>)
    requires
        start <= v.len(),
        min <= 0,
    ensures
        match r {
            Ok(n) => acc_neg(0, v@.skip(start as int), min as int) == Ok::<int, IntErrorKind>(
                n as int,
            ),
            Err(e) => acc_neg(0, v@.skip(start as int), min as int) == Err::<int, IntErrorKind>(
                e,
            ),
        },
{
    let mut acc: i64 = 0;
    let mut i = start;
    while i < v.len()
        invariant
            start <= i <= v.len(),
            min <= acc <= 0,
            acc_neg(0, v@.skip(start as int), min as int) == acc_neg(
                acc as int,
                v@.skip(i as int),
                min as int,
            ),
        decreases v.len() - i,
    {
        let c = v[i];
        assert(v@.skip(i as int)[0] == c);
        assert(v@.skip(i as int).drop_first() =~= v@.skip(i + 1));
        if !('0' <= c && c <= '9') {
            return Err(IntErrorKind::InvalidDigit);
        }
        let d: u32 = (c as u32) - 48;
        let next: i128 = (acc as i128) * 10 - (d as i128);
        if next < min as i128 {
            return Err(IntErrorKind::NegOverflow);
        }
        acc = next as i64;
        i += 1;
    }
    assert(v@.skip(i as int).len() == 0);
    Ok(acc)
}

/// `str::parse::<u64>`-style parsing of an unsigned integer no larger than `max`.
pub fn parse_unsigned(v: &Vec<char>, max: u64) -> (r: Result<u64, IntErrorKind>)
    ensures
        match r {
            Ok(n) => parse_int(v@, 0, max as int) == Ok::<int, IntErrorKind>(n as int),
            Err(e) => parse_int(v@, 0, max as int) == Err::<int, IntErrorKind>(e),
        },
{
    if v.len() == 0 {
        return Err(IntErrorKind::Empty);
    }
    if (v[0] == '+' || v[0] == '-') && v.len() == 1 {
        return Err(IntErrorKind::InvalidDigit);
    }
    if v[0] == '+' {
        assert(v@.skip(1) =~= v@.drop_first());
        parse_pos(v, 1, max)
    } else {
        assert(v@.skip(0) =~= v@);
        parse_pos(v, 0, max)
    }
}

/// `str::parse::<i64>`-style parsing of a signed integer within `min..=max`.
pub fn parse_signed(v: &Vec<char>, min: i64, max: i64) -> (r: Result<i64, IntErrorKind>)
    requires
        min < 0 <= max,
    ensures
        match r {
            Ok(n) => parse_int(v@, min as int, max as int) == Ok::<int, IntErrorKind>(n as int),
            Err(e) => parse_int(v@, min as int, max as int) == Err::<int, IntErrorKind>(e),
        },
{
    if v.len() == 0 {
        return Err(IntErrorKind::Empty);
    }
    if (v[0] == '+' || v[0] == '-') && v.len() == 1 {
        return Err(IntErrorKind::InvalidDigit);
    }
    if v[0] == '-' {
        assert(v@.skip(1) =~= v@.drop_first());
        parse_neg(v, 1, min)
    } else {
        let start: usize = if v[0] == '+' { 1 } else { 0 };
        assert(start == 1 ==> v@.skip(1) =~= v@.drop_first());
        assert(v@.skip(0) =~= v@);
        match parse_pos(v, start, max as u64) {
            Ok(n) => Ok(n as i64),
            Err(e) => Err(e),
        }
    }
}

// ---------------------------------------------------------------------------
// Printing then parsing gives the number back
// ---------------------------------------------------------------------------

proof fn lemma_digit_char(k: nat)
    requires
        k < 10,
    ensures
        is_digit(digit_char(k)),
        digit_value(digit_char(k)) == k,
        digit_char(k) != '+',
        digit_char(k) != '-',
{
}

proof fn lemma_acc_pos_push(acc: int, ds: Seq<char>, d: char, max: int)
    requires
        is_digit(d),
    ensures
        acc_pos(acc, ds.push(d), max) == (match acc_pos(acc, ds, max) {
            Ok(v) => if v * 10 + digit_value(d) > max {
                Err(IntErrorKind::PosOverflow)
            } else {
                Ok(v * 10 + digit_value(d))
            },
            Err(e) => Err(e),
        }),
    decreases ds.len(),
{
    reveal_with_fuel(acc_pos, 2);
    if ds.len() > 0 {
        assert(ds.push(d)[0] == ds[0]);
        assert(ds.push(d).drop_first() =~= ds.drop_first().push(d));
        if is_digit(ds[0]) && acc * 10 + digit_value(ds[0]) <= max {
            lemma_acc_pos_push(acc * 10 + digit_value(ds[0]), ds.drop_first(), d, max);
        }
    } else {
        assert(ds.push(d).drop_first() =~= Seq::<char>::empty());
    }
}

proof fn lemma_acc_neg_push(acc: int, ds: Seq<char>, d: char, min: int)
    requires
        is_digit(d),
    ensures
        acc_neg(acc, ds.push(d), min) == (match acc_neg(acc, ds, min) {
            Ok(v) => if v * 10 - digit_value(d) < min {
                Err(IntErrorKind::NegOverflow)
            } else {
                Ok(v * 10 - digit_value(d))
            },
            Err(e) => Err(e),
        }),
    decreases ds.len(),
{
    reveal_with_fuel(acc_neg, 2);
    if ds.len() > 0 {
        assert(ds.push(d)[0] == ds[0]);
        assert(ds.push(d).drop_first() =~= ds.drop_first().push(d));
        if is_digit(ds[0]) && acc * 10 - digit_value(ds[0]) >= min {
            lemma_acc_neg_push(acc * 10 - digit_value(ds[0]), ds.drop_first(), d, min);
        }
    } else {
        assert(ds.push(d).drop_first() =~= Seq::<char>::empty());
    }
}

/// The digits of `n` are ASCII digits and there is at least one.
pub proof fn lemma_nat_digits_shape(n: nat)
    ensures
        nat_digits(n).len() >= 1,
        forall|i: int| 0 <= i < nat_digits(n).len() ==> is_digit(#[trigger] nat_digits(n)[i]),
    decreases n,
{
    if n < 10 {
        lemma_digit_char(n);
    } else {
        lemma_nat_digits_shape(n / 10);
        lemma_digit_char(n % 10);
        assert forall|i: int| 0 <= i < nat_digits(n).len() implies is_digit(
            #[trigger] nat_digits(n)[i],
        ) by {
            if i < nat_digits(n / 10).len() {
                assert(nat_digits(n)[i] == nat_digits(n / 10)[i]);
            }
        }
    }
}

proof fn lemma_acc_pos_digits(n: nat, max: int)
    requires
        n <= max,
    ensures
        acc_pos(0, nat_digits(n), max) == Ok::<int, IntErrorKind>(n as int),
    decreases n,
{
    reveal_with_fuel(acc_pos, 2);
    if n < 10 {
        lemma_digit_char(n);
        assert(nat_digits(n).drop_first() =~= Seq::<char>::empty());
    } else {
        lemma_digit_char(n % 10);
        assert(n / 10 * 10 + n % 10 == n);
        lemma_acc_pos_digits(n / 10, max);
        lemma_acc_pos_push(0, nat_digits(n / 10), digit_char(n % 10), max);
    }
}

proof fn lemma_acc_neg_digits(n: nat, min: int)
    requires
        -n >= min,
    ensures
        acc_neg(0, nat_digits(n), min) == Ok::<int, IntErrorKind>(-n),
    decreases n,
{
    reveal_with_fuel(acc_neg, 2);
    if n < 10 {
        lemma_digit_char(n);
        assert(nat_digits(n).drop_first() =~= Seq::<char>::empty());
    } else {
        lemma_digit_char(n % 10);
        assert(-(n / 10) * 10 - n % 10 == -n);
        lemma_acc_neg_digits(n / 10, min);
        lemma_acc_neg_push(0, nat_digits(n / 10), digit_char(n % 10), min);
    }
}

/// Parsing what `decimal` prints gives the number back, for every number in
/// the bounds of the parsed type.
pub proof fn lemma_parse_decimal(n: int, min: int, max: int)
    requires
        min <= n <= max,
        min <= 0 <= max,
    ensures
        parse_int(decimal(n), min, max) == Ok::<int, IntErrorKind>(n),
{
    if n < 0 {
        let ds = nat_digits((-n) as nat);
        lemma_nat_digits_shape((-n) as nat);
        lemma_acc_neg_digits((-n) as nat, min);
        assert(decimal(n).drop_first() =~= ds);
    } else {
        lemma_nat_digits_shape(n as nat);
        lemma_acc_pos_digits(n as nat, max);
        lemma_digit_char(0);
        assert(is_digit(decimal(n)[0]));
    }
}

// ---------------------------------------------------------------------------
// Facts about splitting and trimming
// ---------------------------------------------------------------------------

/// A text without the separator splits into itself alone.
pub proof fn lemma_split_no_sep(a: Seq<char>, sep: char)
    requires
        forall|i: int| 0 <= i < a.len() ==> a[i] != sep,
    ensures
        split(a, sep) == seq![a],
    decreases a.len(),
{
    if a.len() > 0 {
        assert forall|i: int| 0 <= i < a.drop_last().len() implies a.drop_last()[i] != sep by {
            assert(a.drop_last()[i] == a[i]);
        }
        assert(a.last() == a[a.len() - 1]);
        lemma_split_no_sep(a.drop_last(), sep);
        assert(a.drop_last().push(a.last()) =~= a);
        let prev = split(a.drop_last(), sep);
        assert(prev.len() == 1);
        assert(prev.last() == a.drop_last());
        assert(prev.update(0, a.drop_last().push(a.last())) =~= seq![a]);
    } else {
        assert(a =~= Seq::<char>::empty());
    }
}

/// Splitting at a separator between two texts splits each of them.
pub proof fn lemma_split_concat(a: Seq<char>, b: Seq<char>, sep: char)
    ensures
        split(a + seq![sep] + b, sep) == split(a, sep) + split(b, sep),
    decreases b.len(),
{
    lemma_split_nonempty(a, sep);
    if b.len() == 0 {
        assert(a + seq![sep] + b =~= a.push(sep));
        assert((a + seq![sep] + b).drop_last() =~= a);
        assert(split(a, sep).push(Seq::<char>::empty()) =~= split(a, sep) + seq![
            Seq::<char>::empty(),
        ]);
    } else {
        let s = a + seq![sep] + b;
        assert(s.drop_last() =~= a + seq![sep] + b.drop_last());
        assert(s.last() == b.last());
        lemma_split_concat(a, b.drop_last(), sep);
        lemma_split_nonempty(b.drop_last(), sep);
        let x = split(b.drop_last(), sep);
        let pa = split(a, sep);
        if b.last() == sep {
            assert((pa + x).push(Seq::<char>::empty()) =~= pa + x.push(Seq::<char>::empty()));
        } else {
            assert((pa + x).update((pa + x).len() - 1, (pa + x).last().push(b.last())) =~= pa
                + x.update(x.len() - 1, x.last().push(b.last())));
        }
    }
}

/// No leading character satisfies `p` when the first one does not.
pub proof fn lemma_lead_by_zero(s: Seq<char>, p: spec_fn(char) -> bool)
    requires
        s.len() == 0 || !p(s[0]),
    ensures
        lead_by(s, p) == 0,
{
}

/// No trailing character satisfies `p` when the last one does not.
pub proof fn lemma_trail_by_zero(s: Seq<char>, p: spec_fn(char) -> bool)
    requires
        s.len() == 0 || !p(s.last()),
    ensures
        trail_by(s, p) == 0,
{
}

} // verus!

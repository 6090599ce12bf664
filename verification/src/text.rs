//! Text as sequences of characters: searching, comparing, trimming and building strings.

use vstd::prelude::*;
use vstd::string::*;

verus! {

// ---------------------------------------------------------------------------
// What the operations mean
// ---------------------------------------------------------------------------
/// `p` stands in `s` at `i`.
pub open spec fn occurs_at(s: Seq<char>, p: Seq<char>, i: int) -> bool {
    0 <= i && i + p.len() <= s.len() && s.subrange(i, i + p.len()) == p
}

/// `p` stands somewhere in `s`.
pub open spec fn has_text(s: Seq<char>, p: Seq<char>) -> bool {
    exists|i: int| occurs_at(s, p, i)
}

/// `s` begins with `p`.
pub open spec fn begins_with(s: Seq<char>, p: Seq<char>) -> bool {
    occurs_at(s, p, 0)
}

/// `s` ends with `p`.
pub open spec fn finishes_with(s: Seq<char>, p: Seq<char>) -> bool {
    occurs_at(s, p, s.len() - p.len())
}

/// `i` is the first place of `p` in `s`.
pub open spec fn first_at(s: Seq<char>, p: Seq<char>, i: int) -> bool {
    occurs_at(s, p, i) && forall|j: int| 0 <= j < i ==> !occurs_at(s, p, j)
}

/// The ASCII letters `A` to `Z` in lower case; any other character as it is.
pub open spec fn ascii_lower(c: char) -> char {
    if 'A' <= c && c <= 'Z' {
        ((c as u8) + 32) as char
    } else {
        c
    }
}

/// Equal but for the case of ASCII letters.
pub open spec fn same_ignoring_case(a: Seq<char>, b: Seq<char>) -> bool {
    a.len() == b.len() && forall|i: int|
        0 <= i < a.len() ==> ascii_lower(#[trigger] a[i]) == ascii_lower(b[i])
}

/// `a` stands before `b` in the order of code points.
pub open spec fn text_less(a: Seq<char>, b: Seq<char>) -> bool
    decreases a.len(),
{
    if b.len() == 0 {
        false
    } else if a.len() == 0 {
        true
    } else {
        a[0] < b[0] || a[0] == b[0] && text_less(a.drop_first(), b.drop_first())
    }
}

/// `s` with every occurrence of `from`, taken from the left and without overlap, replaced.
pub open spec fn replaced(s: Seq<char>, from: Seq<char>, to: Seq<char>) -> Seq<char>
    decreases s.len(),
{
    if s.len() == 0 || from.len() == 0 {
        s
    } else if begins_with(s, from) {
        to + replaced(s.skip(from.len() as int), from, to)
    } else {
        seq![s[0]] + replaced(s.drop_first(), from, to)
    }
}

/// The characters with the Unicode property White_Space.
pub open spec fn white_space(c: char) -> bool {
    ||| '\u{9}' <= c && c <= '\u{d}'
    ||| c == ' ' || c == '\u{85}' || c == '\u{a0}' || c == '\u{1680}'
    ||| '\u{2000}' <= c && c <= '\u{200a}'
    ||| c == '\u{2028}' || c == '\u{2029}' || c == '\u{202f}' || c == '\u{205f}' || c == '\u{3000}'
}

/// `s` without the characters at its beginning that satisfy `f`.
pub open spec fn without_prefix(s: Seq<char>, f: spec_fn(char) -> bool) -> Seq<char>
    decreases s.len(),
{
    if s.len() > 0 && f(s[0]) {
        without_prefix(s.drop_first(), f)
    } else {
        s
    }
}

/// `s` without the characters at its end that satisfy `f`.
pub open spec fn without_suffix(s: Seq<char>, f: spec_fn(char) -> bool) -> Seq<char>
    decreases s.len(),
{
    if s.len() > 0 && f(s.last()) {
        without_suffix(s.drop_last(), f)
    } else {
        s
    }
}

/// `s` without white space at either end.
pub open spec fn trimmed(s: Seq<char>) -> Seq<char> {
    without_suffix(without_prefix(s, |c: char| white_space(c)), |c: char| white_space(c))
}

/// `s` without double quotes at either end.
pub open spec fn unquoted(s: Seq<char>) -> Seq<char> {
    without_suffix(without_prefix(s, |c: char| c == '"'), |c: char| c == '"')
}

/// What follows the last `sep` in `s`; all of `s` where there is none.
pub open spec fn after_last(s: Seq<char>, sep: char) -> Seq<char>
    decreases s.len(),
{
    if s.len() == 0 || s.last() == sep {
        Seq::empty()
    } else {
        after_last(s.drop_last(), sep).push(s.last())
    }
}

/// What precedes the first `sep` in `s`; all of `s` where there is none.
pub open spec fn before_first(s: Seq<char>, sep: char) -> Seq<char>
    decreases s.len(),
{
    if s.len() == 0 || s[0] == sep {
        Seq::empty()
    } else {
        seq![s[0]] + before_first(s.drop_first(), sep)
    }
}

/// What precedes the last `sep` in `s`; all of `s` where there is none.
pub open spec fn before_last(s: Seq<char>, sep: char) -> Seq<char>
    decreases s.len(),
{
    if !s.contains(sep) {
        s
    } else if s.last() == sep {
        s.drop_last()
    } else {
        before_last(s.drop_last(), sep)
    }
}

/// How often `c` stands in `s`.
pub open spec fn count_char(s: Seq<char>, c: char) -> nat
    decreases s.len(),
{
    if s.len() == 0 {
        0
    } else {
        count_char(s.drop_last(), c) + if s.last() == c {
            1nat
        } else {
            0nat
        }
    }
}

/// The decimal digit `d`.
pub open spec fn digit(d: nat) -> char {
    (48 + d) as char
}

/// `n` in decimal, without leading zeros.
pub open spec fn decimal(n: nat) -> Seq<char>
    decreases n,
{
    if n < 10 {
        seq![digit(n)]
    } else {
        decimal(n / 10).push(digit(n % 10))
    }
}

pub open spec fn is_digit(c: char) -> bool {
    '0' <= c && c <= '9'
}

pub open spec fn all_digits(s: Seq<char>) -> bool {
    forall|i: int| 0 <= i < s.len() ==> is_digit(#[trigger] s[i])
}

/// The number that a string of decimal digits writes.
pub open spec fn digits_value(s: Seq<char>) -> nat
    decreases s.len(),
{
    if s.len() == 0 {
        0
    } else {
        digits_value(s.drop_last()) * 10 + ((s.last() as nat) - 48) as nat
    }
}

/// The digits of a number that may carry a plus sign.
pub open spec fn unsigned_digits(s: Seq<char>) -> Seq<char> {
    if s.len() > 0 && s[0] == '+' {
        s.drop_first()
    } else {
        s
    }
}

/// The unsigned 64-bit number that `s` writes in decimal, where it writes one.
pub open spec fn parsed_u64(s: Seq<char>) -> Option<u64> {
    let d = unsigned_digits(s);
    if d.len() > 0 && all_digits(d) && digits_value(d) <= u64::MAX {
        Some(digits_value(d) as u64)
    } else {
        None
    }
}

/// The parts in order, with `sep` between neighbours.
pub open spec fn joined(parts: Seq<Seq<char>>, sep: Seq<char>) -> Seq<char>
    decreases parts.len(),
{
    if parts.len() == 0 {
        Seq::empty()
    } else if parts.len() == 1 {
        parts[0]
    } else {
        joined(parts.drop_last(), sep) + sep + parts.last()
    }
}

/// The characters of each string.
pub open spec fn texts(v: Seq<String>) -> Seq<Seq<char>> {
    v.map_values(|s: String| s@)
}

/// The characters of an optional text.
pub open spec fn opt_str(o: Option<&str>) -> Option<Seq<char>> {
    match o {
        Some(s) => Some(s@),
        None => None,
    }
}

/// The characters of an optional string.
pub open spec fn opt_text(o: Option<String>) -> Option<Seq<char>> {
    match o {
        Some(s) => Some(s@),
        None => None,
    }
}

/// The hexadecimal digit `d` in lower case.
pub open spec fn hex_digit(d: int) -> char {
    if d < 10 {
        (48 + d) as char
    } else {
        (87 + d) as char
    }
}

/// Two lower-case hexadecimal digits for each byte.
pub open spec fn hex(bytes: Seq<u8>) -> Seq<char> {
    Seq::new(
        2 * bytes.len(),
        |i: int|
            if i % 2 == 0 {
                hex_digit(bytes[i / 2] as int / 16)
            } else {
                hex_digit(bytes[i / 2] as int % 16)
            },
    )
}

/// `str::to_lowercase` of the standard library: the text with every character replaced by
/// its Unicode lower case. The tables of that mapping are left unsaid.
pub uninterp spec fn lowercase(s: Seq<char>) -> Seq<char>;

// ---------------------------------------------------------------------------
// Standard-library calls
// ---------------------------------------------------------------------------
/// `String::push` appends one character.
pub assume_specification[ String::push ](s: &mut String, c: char)
    ensures
        final(s)@ == old(s)@.push(c),
;

/// `str::to_lowercase`: the result is a function of the text alone, named `lowercase`.
#[verifier::external_body]
pub(crate) fn to_lowercase(s: &str) -> (r: String)
    ensures
        r@ == lowercase(s@),
{
    s.to_lowercase()
}

// ---------------------------------------------------------------------------
// Conversions
// ---------------------------------------------------------------------------
/// The characters of `s`.
pub fn chars_of(s: &str) -> (r: Vec<char>)
    ensures
        r@ == s@,
{
    let mut r: Vec<char> = Vec::new();
    for c in it: s.chars()
        invariant
            r@ == s@.take(it.index() as int),
            it.seq() == s@,
    {
        r.push(c);
        assert(s@.take(it.index() as int + 1) =~= s@.take(it.index() as int).push(c));
    }
    assert(s@.take(s@.len() as int) =~= s@);
    r
}

/// The string of the characters from `from` up to `to`.
pub fn string_of(c: &[char], from: usize, to: usize) -> (r: String)
    requires
        from <= to <= c@.len(),
    ensures
        r@ == c@.subrange(from as int, to as int),
{
    let mut r = String::new();
    let mut i: usize = from;
    while i < to
        invariant
            from <= i <= to <= c@.len(),
            r@ =~= c@.subrange(from as int, i as int),
        decreases to - i,
    {
        r.push(c[i]);
        i += 1;
    }
    r
}

/// `a` followed by `b`.
pub fn concat(a: &str, b: &str) -> (r: String)
    ensures
        r@ == a@ + b@,
{
    let mut r = a.to_owned();
    r.append(b);
    r
}

/// `a`, `b` and `c`, one after another.
pub fn concat3(a: &str, b: &str, c: &str) -> (r: String)
    ensures
        r@ == a@ + b@ + c@,
{
    let mut r = a.to_owned();
    r.append(b);
    r.append(c);
    r
}

/// An optional text as an optional string.
pub fn own_opt(o: Option<&str>) -> (r: Option<String>)
    ensures
        opt_text(r) == opt_str(o),
{
    match o {
        Some(s) => Some(s.to_owned()),
        None => None,
    }
}

/// A copy of an optional string.
pub fn clone_opt(o: &Option<String>) -> (r: Option<String>)
    ensures
        opt_text(r) == opt_text(*o),
{
    match o {
        Some(s) => Some(s.clone()),
        None => None,
    }
}

// ---------------------------------------------------------------------------
// Comparing
// ---------------------------------------------------------------------------
/// Whether `p` stands in `s` at `i`.
pub fn matches_at(s: &[char], p: &[char], i: usize) -> (r: bool)
    ensures
        r == occurs_at(s@, p@, i as int),
{
    let n: usize = s.len();
    let m: usize = p.len();
    if i > n || m > n - i {
        return false;
    }
    let mut k: usize = 0;
    while k < m
        invariant
            k <= m,
            m == p@.len(),
            n == s@.len(),
            i + m <= n,
            forall|j: int| 0 <= j < k ==> s@[i + j] == #[trigger] p@[j],
        decreases m - k,
    {
        if s[i + k] != p[k] {
            assert(s@.subrange(i as int, i + m)[k as int] != p@[k as int]);
            return false;
        }
        k += 1;
    }
    assert(s@.subrange(i as int, i + m) =~= p@);
    true
}

/// Whether the two texts are the same.
pub fn text_eq(a: &str, b: &str) -> (r: bool)
    ensures
        r == (a@ == b@),
{
    let x = chars_of(a);
    let y = chars_of(b);
    let r = x.len() == y.len() && matches_at(&x, &y, 0);
    proof {
        assert(x@.subrange(0, x@.len() as int) =~= x@);
    }
    r
}

fn lower_char(c: char) -> (r: char)
    ensures
        r == ascii_lower(c),
{
    if 'A' <= c && c <= 'Z' {
        (c as u8 + 32) as char
    } else {
        c
    }
}

/// Whether the two texts are the same but for the case of ASCII letters.
pub fn eq_ignore_ascii_case(a: &str, b: &str) -> (r: bool)
    ensures
        r == same_ignoring_case(a@, b@),
{
    let x = chars_of(a);
    let y = chars_of(b);
    if x.len() != y.len() {
        return false;
    }
    let n: usize = x.len();
    let mut i: usize = 0;
    while i < n
        invariant
            i <= n,
            n == x@.len(),
            n == y@.len(),
            x@ == a@,
            y@ == b@,
            forall|j: int| 0 <= j < i ==> ascii_lower(#[trigger] x@[j]) == ascii_lower(y@[j]),
        decreases n - i,
    {
        if lower_char(x[i]) != lower_char(y[i]) {
            assert(ascii_lower(x@[i as int]) != ascii_lower(y@[i as int]));
            return false;
        }
        i += 1;
    }
    true
}

/// Whether `s` begins with `p`.
pub fn starts_with(s: &str, p: &str) -> (r: bool)
    ensures
        r == begins_with(s@, p@),
{
    matches_at(&chars_of(s), &chars_of(p), 0)
}

/// Whether `s` ends with `p`.
pub fn ends_with(s: &str, p: &str) -> (r: bool)
    ensures
        r == finishes_with(s@, p@),
{
    let x = chars_of(s);
    let y = chars_of(p);
    x.len() >= y.len() && matches_at(&x, &y, x.len() - y.len())
}

/// The first place of `p` in `s` from `from` on.
pub fn find_from(s: &[char], p: &[char], from: usize) -> (r: Option<usize>)
    requires
        from <= s@.len(),
    ensures
        match r {
            Some(i) => {
                &&& from <= i
                &&& i + p@.len() <= s@.len()
                &&& first_at(s@.skip(from as int), p@, i - from)
            },
            None => !has_text(s@.skip(from as int), p@),
        },
{
    let n: usize = s.len();
    let mut i: usize = from;
    let ghost tail = s@.skip(from as int);
    while i < n
        invariant
            from <= i <= n,
            n == s@.len(),
            tail == s@.skip(from as int),
            forall|j: int| 0 <= j < i - from ==> !occurs_at(tail, p@, j),
        decreases n - i,
    {
        if matches_at(s, p, i) {
            assert(tail.subrange(i - from, i - from + p@.len()) =~= s@.subrange(
                i as int,
                i + p@.len(),
            ));
            return Some(i);
        }
        proof {
            if occurs_at(tail, p@, i - from) {
                assert(tail.subrange(i - from, i - from + p@.len()) =~= s@.subrange(
                    i as int,
                    i + p@.len(),
                ));
            }
        }
        i += 1;
    }
    if p.len() == 0 {
        assert(tail.subrange(n - from, n - from + 0) =~= p@);
        return Some(n);
    }
    assert forall|j: int| !occurs_at(tail, p@, j) by {
        if occurs_at(tail, p@, j) {
            assert(j < n - from);
        }
    }
    None
}

/// Whether `p` stands somewhere in `s`.
pub fn contains_text(s: &str, p: &str) -> (r: bool)
    ensures
        r == has_text(s@, p@),
{
    let x = chars_of(s);
    let y = chars_of(p);
    assert(x@.skip(0) =~= x@);
    match find_from(&x, &y, 0) {
        Some(_) => true,
        None => false,
    }
}

/// Whether `a` stands before `b` in the order of code points.
pub fn text_lt(a: &str, b: &str) -> (r: bool)
    ensures
        r == text_less(a@, b@),
{
    let x = chars_of(a);
    let y = chars_of(b);
    let n: usize = x.len();
    let m: usize = y.len();
    let mut i: usize = 0;
    assert(x@.skip(0) =~= x@);
    assert(y@.skip(0) =~= y@);
    while i < n && i < m
        invariant
            i <= n,
            i <= m,
            n == x@.len(),
            m == y@.len(),
            x@ == a@,
            y@ == b@,
            text_less(a@, b@) == text_less(x@.skip(i as int), y@.skip(i as int)),
        decreases n - i,
    {
        if x[i] < y[i] {
            return true;
        }
        if x[i] > y[i] {
            return false;
        }
        assert(x@.skip(i as int).drop_first() =~= x@.skip(i + 1));
        assert(y@.skip(i as int).drop_first() =~= y@.skip(i + 1));
        i += 1;
    }
    i == n && i < m
}

/// Nothing stands before itself.
pub proof fn lemma_less_irreflexive(a: Seq<char>)
    ensures
        !text_less(a, a),
    decreases a.len(),
{
    if a.len() > 0 {
        lemma_less_irreflexive(a.drop_first());
    }
}

/// The order of texts is transitive.
pub proof fn lemma_less_transitive(a: Seq<char>, b: Seq<char>, c: Seq<char>)
    requires
        text_less(a, b),
        text_less(b, c),
    ensures
        text_less(a, c),
    decreases a.len(),
{
    if a.len() > 0 && a[0] == b[0] && b[0] == c[0] {
        lemma_less_transitive(a.drop_first(), b.drop_first(), c.drop_first());
    }
}

/// Of two different texts one stands before the other.
pub proof fn lemma_less_total(a: Seq<char>, b: Seq<char>)
    requires
        a != b,
    ensures
        text_less(a, b) || text_less(b, a),
    decreases a.len(),
{
    if a.len() == 0 || b.len() == 0 {
        assert(a.len() == 0 && b.len() == 0 ==> a =~= b);
    } else if a[0] == b[0] {
        assert(a =~= seq![a[0]] + a.drop_first());
        assert(b =~= seq![b[0]] + b.drop_first());
        lemma_less_total(a.drop_first(), b.drop_first());
    }
}

// ---------------------------------------------------------------------------
// Cutting
// ---------------------------------------------------------------------------
/// Whether `c` is white space.
pub fn is_white_space(c: char) -> (r: bool)
    ensures
        r == white_space(c),
{
    ('\u{9}' <= c && c <= '\u{d}') || c == ' ' || c == '\u{85}' || c == '\u{a0}' || c == '\u{1680}'
        || ('\u{2000}' <= c && c <= '\u{200a}') || c == '\u{2028}' || c == '\u{2029}' || c
        == '\u{202f}' || c == '\u{205f}' || c == '\u{3000}'
}

/// `s` without white space at either end.
pub fn trim(s: &str) -> (r: String)
    ensures
        r@ == trimmed(s@),
{
    let c = chars_of(s);
    let ghost f = |x: char| white_space(x);
    let mut from: usize = 0;
    let mut to: usize = c.len();
    assert(c@.skip(0) =~= c@);
    while from < to && is_white_space(c[from])
        invariant
            from <= to,
            to == c@.len(),
            f == (|x: char| white_space(x)),
            without_prefix(c@, f) == without_prefix(c@.skip(from as int), f),
        decreases to - from,
    {
        assert(c@.skip(from as int).drop_first() =~= c@.skip(from + 1));
        from += 1;
    }
    let ghost mid = c@.skip(from as int);
    assert(without_prefix(c@, f) == mid);
    assert(mid =~= c@.subrange(from as int, to as int));
    while from < to && is_white_space(c[to - 1])
        invariant
            from <= to <= c@.len(),
            f == (|x: char| white_space(x)),
            without_suffix(mid, f) == without_suffix(c@.subrange(from as int, to as int), f),
        decreases to - from,
    {
        assert(c@.subrange(from as int, to as int).drop_last() =~= c@.subrange(
            from as int,
            to - 1,
        ));
        to -= 1;
    }
    string_of(&c, from, to)
}

/// `s` without double quotes at either end.
pub fn trim_quotes(s: &str) -> (r: String)
    ensures
        r@ == unquoted(s@),
{
    let c = chars_of(s);
    let ghost f = |x: char| x == '"';
    let mut from: usize = 0;
    let mut to: usize = c.len();
    assert(c@.skip(0) =~= c@);
    while from < to && c[from] == '"'
        invariant
            from <= to,
            to == c@.len(),
            f == (|x: char| x == '"'),
            without_prefix(c@, f) == without_prefix(c@.skip(from as int), f),
        decreases to - from,
    {
        assert(c@.skip(from as int).drop_first() =~= c@.skip(from + 1));
        from += 1;
    }
    let ghost mid = c@.skip(from as int);
    assert(without_prefix(c@, f) == mid);
    assert(mid =~= c@.subrange(from as int, to as int));
    while from < to && c[to - 1] == '"'
        invariant
            from <= to <= c@.len(),
            f == (|x: char| x == '"'),
            without_suffix(mid, f) == without_suffix(c@.subrange(from as int, to as int), f),
        decreases to - from,
    {
        assert(c@.subrange(from as int, to as int).drop_last() =~= c@.subrange(
            from as int,
            to - 1,
        ));
        to -= 1;
    }
    string_of(&c, from, to)
}

proof fn lemma_after_last(s: Seq<char>, sep: char, i: int)
    requires
        0 <= i <= s.len(),
        i == 0 || s[i - 1] == sep,
        forall|j: int| i <= j < s.len() ==> s[j] != sep,
    ensures
        after_last(s, sep) == s.skip(i),
    decreases s.len(),
{
    if i == s.len() {
        assert(s.skip(i) =~= Seq::empty());
    } else {
        lemma_after_last(s.drop_last(), sep, i);
        assert(s.drop_last().skip(i).push(s.last()) =~= s.skip(i));
    }
}

/// What follows the last `sep` in `s`; all of `s` where there is none.
pub fn rsplit_last(s: &str, sep: char) -> (r: String)
    ensures
        r@ == after_last(s@, sep),
{
    let c = chars_of(s);
    let n: usize = c.len();
    let mut i: usize = n;
    while i > 0 && c[i - 1] != sep
        invariant
            i <= n,
            n == c@.len(),
            forall|j: int| i <= j < n ==> c@[j] != sep,
        decreases i,
    {
        i -= 1;
    }
    proof {
        lemma_after_last(c@, sep, i as int);
        assert(c@.skip(i as int) =~= c@.subrange(i as int, n as int));
    }
    string_of(&c, i, n)
}

proof fn lemma_before_first(s: Seq<char>, sep: char, i: int)
    requires
        0 <= i <= s.len(),
        i == s.len() || s[i] == sep,
        forall|j: int| 0 <= j < i ==> s[j] != sep,
    ensures
        before_first(s, sep) == s.take(i),
    decreases s.len(),
{
    if i == 0 {
        assert(s.take(0) =~= Seq::empty());
    } else {
        lemma_before_first(s.drop_first(), sep, i - 1);
        assert(seq![s[0]] + s.drop_first().take(i - 1) =~= s.take(i));
    }
}

/// What precedes the first `sep` in `s`; all of `s` where there is none.
pub fn split_first(s: &str, sep: char) -> (r: String)
    ensures
        r@ == before_first(s@, sep),
{
    let c = chars_of(s);
    let n: usize = c.len();
    let mut i: usize = 0;
    while i < n && c[i] != sep
        invariant
            i <= n,
            n == c@.len(),
            forall|j: int| 0 <= j < i ==> c@[j] != sep,
        decreases n - i,
    {
        i += 1;
    }
    proof {
        lemma_before_first(c@, sep, i as int);
        assert(c@.take(i as int) =~= c@.subrange(0, i as int));
    }
    string_of(&c, 0, i)
}

proof fn lemma_before_last(s: Seq<char>, sep: char, i: int)
    requires
        0 <= i < s.len(),
        s[i] == sep,
        forall|j: int| i < j < s.len() ==> s[j] != sep,
    ensures
        before_last(s, sep) == s.take(i),
    decreases s.len(),
{
    assert(s.contains(sep));
    if i == s.len() - 1 {
        assert(s.drop_last() =~= s.take(i));
    } else {
        lemma_before_last(s.drop_last(), sep, i);
        assert(s.drop_last().take(i) =~= s.take(i));
    }
}

/// What precedes the last `sep` in `s`; all of `s` where there is none.
pub fn cut_at_last(s: &str, sep: char) -> (r: String)
    ensures
        r@ == before_last(s@, sep),
{
    let c = chars_of(s);
    let n: usize = c.len();
    let mut i: usize = n;
    while i > 0 && c[i - 1] != sep
        invariant
            i <= n,
            n == c@.len(),
            forall|j: int| i <= j < n ==> c@[j] != sep,
        decreases i,
    {
        i -= 1;
    }
    if i == 0 {
        assert(!c@.contains(sep));
        assert(c@.subrange(0, n as int) =~= c@);
        string_of(&c, 0, n)
    } else {
        proof {
            lemma_before_last(c@, sep, i - 1);
            assert(c@.take(i - 1) =~= c@.subrange(0, i - 1));
        }
        string_of(&c, 0, i - 1)
    }
}

/// How often `c` stands in `s`.
pub fn count_of(s: &str, c: char) -> (r: usize)
    ensures
        r == count_char(s@, c),
{
    let x = chars_of(s);
    let n: usize = x.len();
    let mut i: usize = 0;
    let mut k: usize = 0;
    while i < n
        invariant
            i <= n,
            n == x@.len(),
            k <= i,
            k == count_char(x@.take(i as int), c),
        decreases n - i,
    {
        assert(x@.take(i + 1).drop_last() =~= x@.take(i as int));
        if x[i] == c {
            k += 1;
        }
        i += 1;
    }
    assert(x@.take(n as int) =~= x@);
    k
}

/// `s` with every occurrence of `from` replaced by `to`.
pub fn replace_all(s: &str, from: &str, to: &str) -> (r: String)
    requires
        from@.len() > 0,
    ensures
        r@ == replaced(s@, from@, to@),
{
    let c = chars_of(s);
    let p = chars_of(from);
    let n: usize = c.len();
    let mut r = String::new();
    let mut i: usize = 0;
    assert(c@.skip(0) =~= c@);
    assert(r@ + replaced(c@, from@, to@) =~= replaced(c@, from@, to@));
    while i < n
        invariant
            i <= n,
            n == c@.len(),
            c@ == s@,
            p@ == from@,
            from@.len() > 0,
            replaced(s@, from@, to@) == r@ + replaced(c@.skip(i as int), from@, to@),
        decreases n - i,
    {
        let ghost rest = c@.skip(i as int);
        if matches_at(&c, &p, i) {
            proof {
                assert(rest.subrange(0, p@.len() as int) =~= c@.subrange(i as int, i + p@.len()));
                assert(begins_with(rest, from@));
                assert(rest.skip(p@.len() as int) =~= c@.skip(i + p@.len()));
                assert(r@ + (to@ + replaced(rest.skip(p@.len() as int), from@, to@)) =~= (r@ + to@)
                    + replaced(rest.skip(p@.len() as int), from@, to@));
            }
            r.append(to);
            i += p.len();
        } else {
            proof {
                if begins_with(rest, from@) {
                    assert(rest.subrange(0, p@.len() as int) =~= c@.subrange(
                        i as int,
                        i + p@.len(),
                    ));
                }
                assert(rest.drop_first() =~= c@.skip(i + 1));
                assert(r@ + (seq![rest[0]] + replaced(rest.drop_first(), from@, to@)) =~= r@.push(
                    rest[0],
                ) + replaced(rest.drop_first(), from@, to@));
            }
            r.push(c[i]);
            i += 1;
        }
    }
    assert(c@.skip(n as int) =~= Seq::empty());
    assert(r@ + Seq::empty() =~= r@);
    r
}

/// The strings in order, with `sep` between neighbours.
pub fn join(parts: &Vec<String>, sep: &str) -> (r: String)
    ensures
        r@ == joined(texts(parts@), sep@),
{
    let n: usize = parts.len();
    let mut r = String::new();
    let mut i: usize = 0;
    let ghost all = texts(parts@);
    while i < n
        invariant
            i <= n,
            n == parts@.len(),
            all == texts(parts@),
            r@ == joined(all.take(i as int), sep@),
        decreases n - i,
    {
        assert(all.take(i + 1).drop_last() =~= all.take(i as int));
        assert(all.take(i + 1).last() == parts@[i as int]@);
        if i > 0 {
            r.append(sep);
            r.append(parts[i].as_str());
        } else {
            r.append(parts[i].as_str());
            assert(r@ =~= parts@[0]@);
        }
        i += 1;
    }
    assert(all.take(n as int) =~= all);
    r
}

// ---------------------------------------------------------------------------
// Numbers
// ---------------------------------------------------------------------------
/// Appends `n` in decimal.
pub fn push_decimal(buf: &mut String, n: u128)
    ensures
        final(buf)@ == old(buf)@ + decimal(n as nat),
    decreases n,
{
    if n >= 10 {
        push_decimal(buf, n / 10);
    }
    let d: u8 = (n % 10) as u8;
    buf.push((48 + d) as char);
    assert(buf@ =~= old(buf)@ + decimal(n as nat));
}

/// `n` in decimal.
pub fn decimal_text(n: u128) -> (r: String)
    ensures
        r@ == decimal(n as nat),
{
    let mut r = String::new();
    push_decimal(&mut r, n);
    assert(r@ =~= decimal(n as nat));
    r
}

/// The value of a digit string is at least that of a shorter beginning of it.
proof fn lemma_digits_grow(s: Seq<char>, k: int)
    requires
        0 <= k <= s.len(),
        all_digits(s),
    ensures
        digits_value(s.take(k)) <= digits_value(s),
    decreases s.len() - k,
{
    if k == s.len() {
        assert(s.take(k) =~= s);
    } else {
        lemma_digits_grow(s, k + 1);
        assert(s.take(k + 1).drop_last() =~= s.take(k));
        assert(is_digit(s[k]));
    }
}

/// The unsigned 64-bit number that `s` writes in decimal, where it writes one.
pub fn parse_u64(s: &str) -> (r: Option<u64>)
    ensures
        r == parsed_u64(s@),
{
    let c = chars_of(s);
    let n: usize = c.len();
    let from: usize = if n > 0 && c[0] == '+' {
        1
    } else {
        0
    };
    let ghost d = unsigned_digits(s@);
    assert(d =~= c@.skip(from as int));
    if from == n {
        return None;
    }
    let mut v: u64 = 0;
    let mut i: usize = from;
    assert(d.take(0) =~= Seq::empty());
    while i < n
        invariant
            from <= i <= n,
            from <= 1,
            n == c@.len(),
            d == c@.skip(from as int),
            d == unsigned_digits(s@),
            all_digits(d.take(i - from)),
            v == digits_value(d.take(i - from)),
        decreases n - i,
    {
        if c[i] < '0' || c[i] > '9' {
            assert(!is_digit(d[i - from]));
            return None;
        }
        let ghost done = d.take(i - from + 1);
        assert(done.drop_last() =~= d.take(i - from));
        assert(done.last() == c@[i as int]);
        assert forall|j: int| 0 <= j < done.len() implies is_digit(#[trigger] done[j]) by {
            if j < i - from {
                assert(done[j] == d.take(i - from)[j]);
            }
        }
        let x: u64 = (c[i] as u32 - 48) as u64;
        let wide: u128 = v as u128 * 10 + x as u128;
        if wide > 0xFFFF_FFFF_FFFF_FFFF {
            proof {
                if all_digits(d) {
                    lemma_digits_grow(d, i - from + 1);
                }
            }
            return None;
        }
        v = wide as u64;
        i += 1;
    }
    assert(d.take(n - from) =~= d);
    Some(v)
}

fn hex_char(d: u8) -> (r: char)
    requires
        d < 16,
    ensures
        r == hex_digit(d as int),
{
    if d < 10 {
        (48 + d) as char
    } else {
        (87 + d) as char
    }
}

/// Two lower-case hexadecimal digits for each byte.
pub fn hex_text(bytes: &[u8]) -> (r: String)
    ensures
        r@ == hex(bytes@),
{
    let n: usize = bytes.len();
    let mut r = String::new();
    let mut i: usize = 0;
    while i < n
        invariant
            i <= n,
            n == bytes@.len(),
            r@ =~= hex(bytes@).take(2 * i),
            r@.len() == 2 * i,
        decreases n - i,
    {
        r.push(hex_char(bytes[i] / 16));
        r.push(hex_char(bytes[i] % 16));
        i += 1;
    }
    assert(hex(bytes@).take(2 * n) =~= hex(bytes@));
    r
}

// ---------------------------------------------------------------------------
// What holds of them
// ---------------------------------------------------------------------------
/// One text stands in another at a place if and only if each of its characters stands there in turn.
pub proof fn law_occurs(s: Seq<char>, p: Seq<char>, i: int)
    ensures
        occurs_at(s, p, i) <==> 0 <= i && i + p.len() <= s.len() && forall|k: int|
            0 <= k < p.len() ==> #[trigger] p[k] == s[i + k],
{
    if 0 <= i && i + p.len() <= s.len() {
        let c = s.subrange(i, i + p.len());
        if c == p {
            assert forall|k: int| 0 <= k < p.len() implies #[trigger] p[k] == s[i + k] by {
                assert(c[k] == p[k]);
            }
        }
        if forall|k: int| 0 <= k < p.len() ==> #[trigger] p[k] == s[i + k] {
            assert(c =~= p);
        }
    }
}

/// A text begins with another if and only if it is that with something behind it.
pub proof fn law_begins_with(s: Seq<char>, p: Seq<char>)
    ensures
        begins_with(s, p) <==> exists|t: Seq<char>| s == #[trigger] (p + t),
{
    if begins_with(s, p) {
        let t = s.skip(p.len() as int);
        assert(s =~= s.subrange(0, p.len() as int) + t);
        assert(s == p + t);
    }
    if exists|t: Seq<char>| s == #[trigger] (p + t) {
        let t = choose|t: Seq<char>| s == #[trigger] (p + t);
        assert(s.subrange(0, p.len() as int) =~= p);
    }
}

/// A text ends with another if and only if it is that with something before it.
pub proof fn law_finishes_with(s: Seq<char>, p: Seq<char>)
    ensures
        finishes_with(s, p) <==> exists|t: Seq<char>| s == #[trigger] (t + p),
{
    if finishes_with(s, p) {
        let t = s.take(s.len() - p.len());
        assert(s =~= t + s.subrange(s.len() - p.len(), s.len() as int));
        assert(s == t + p);
    }
    if exists|t: Seq<char>| s == #[trigger] (t + p) {
        let t = choose|t: Seq<char>| s == #[trigger] (t + p);
        assert(s.subrange(s.len() - p.len(), s.len() as int) =~= p);
    }
}

/// A text holds another if and only if it is that with something on both sides of it.
pub proof fn law_has_text(s: Seq<char>, p: Seq<char>)
    ensures
        has_text(s, p) <==> exists|t: Seq<char>, u: Seq<char>| s == #[trigger] (t + p + u),
{
    if has_text(s, p) {
        let i = choose|i: int| occurs_at(s, p, i);
        let t = s.take(i);
        let u = s.skip(i + p.len());
        assert(s =~= t + s.subrange(i, i + p.len()) + u);
        assert(s == t + p + u);
    }
    if exists|t: Seq<char>, u: Seq<char>| s == #[trigger] (t + p + u) {
        let (t, u) = choose|t: Seq<char>, u: Seq<char>| s == #[trigger] (t + p + u);
        assert(s.subrange(t.len() as int, (t.len() + p.len()) as int) =~= p);
        assert(occurs_at(s, p, t.len() as int));
    }
}

/// Two texts are the same but for case if and only if they are equally long, and at each place the
/// characters are the same, or are the same ASCII letter in its two cases, which lie 32 apart.
pub proof fn law_same_ignoring_case(a: Seq<char>, b: Seq<char>)
    ensures
        same_ignoring_case(a, b) <==> a.len() == b.len() && forall|i: int|
            0 <= i < a.len() ==> {
                ||| #[trigger] a[i] == b[i]
                ||| 65 <= a[i] as int <= 90 && b[i] as int == a[i] as int + 32
                ||| 65 <= b[i] as int <= 90 && a[i] as int == b[i] as int + 32
            },
{
    if a.len() == b.len() {
        assert forall|i: int| 0 <= i < a.len() implies (ascii_lower(#[trigger] a[i]) == ascii_lower(
            b[i],
        ) <==> {
            ||| a[i] == b[i]
            ||| 65 <= a[i] as int <= 90 && b[i] as int == a[i] as int + 32
            ||| 65 <= b[i] as int <= 90 && a[i] as int == b[i] as int + 32
        }) by {
            lemma_ascii_lower(a[i]);
            lemma_ascii_lower(b[i]);
        }
    }
}

proof fn lemma_ascii_lower(c: char)
    ensures
        ascii_lower(c) as int == if 65 <= c as int <= 90 {
            c as int + 32
        } else {
            c as int
        },
{
}

/// One text stands before another if and only if, where they first differ, its character is the
/// lower one, or it ends there and the other does not.
pub proof fn law_text_order(a: Seq<char>, b: Seq<char>)
    ensures
        text_less(a, b) <==> exists|k: int|
            #![trigger a.take(k)]
            0 <= k <= a.len() && k < b.len() && a.take(k) == b.take(k) && (k == a.len() || (a[k] as int)
                < (b[k] as int)),
    decreases a.len(),
{
    let holds = exists|k: int|
        #![trigger a.take(k)]
        0 <= k <= a.len() && k < b.len() && a.take(k) == b.take(k) && (k == a.len() || (a[k] as int)
            < (b[k] as int));
    if a.len() == 0 {
        if b.len() > 0 {
            assert(a.take(0) =~= b.take(0));
        }
    } else if b.len() > 0 {
        let x = a.drop_first();
        let y = b.drop_first();
        law_text_order(x, y);
        if a[0] < b[0] {
            assert(a.take(0) =~= b.take(0));
        }
        if a[0] == b[0] && text_less(x, y) {
            let k = choose|k: int|
                #![trigger x.take(k)]
                0 <= k <= x.len() && k < y.len() && x.take(k) == y.take(k) && (k == x.len() || (x[k] as int)
                    < (y[k] as int));
            assert(a.take(k + 1) =~= seq![a[0]] + x.take(k));
            assert(b.take(k + 1) =~= seq![b[0]] + y.take(k));
            assert(a.take(k + 1) == b.take(k + 1));
        }
        if holds {
            let k = choose|k: int|
                #![trigger a.take(k)]
                0 <= k <= a.len() && k < b.len() && a.take(k) == b.take(k) && (k == a.len() || (a[k] as int)
                    < (b[k] as int));
            if k > 0 {
                assert(a.take(k)[0] == a[0] && b.take(k)[0] == b[0]);
                assert(x.take(k - 1) =~= a.take(k).skip(1));
                assert(y.take(k - 1) =~= b.take(k).skip(1));
                assert(x.take(k - 1) == y.take(k - 1));
                assert(text_less(x, y));
            }
        }
    }
}

/// Replacing changes the first occurrence of a text and then goes on behind it; a text that does not
/// hold it stays as it is.
pub proof fn law_replaced(s: Seq<char>, from: Seq<char>, to: Seq<char>, i: int)
    requires
        from.len() > 0,
    ensures
        !has_text(s, from) ==> replaced(s, from, to) == s,
        first_at(s, from, i) ==> replaced(s, from, to) == s.take(i) + to + replaced(
            s.skip(i + from.len()),
            from,
            to,
        ),
    decreases s.len(),
{
    if !has_text(s, from) {
        assert(!occurs_at(s, from, 0));
        if s.len() > 0 {
            let t = s.drop_first();
            assert(!has_text(t, from)) by {
                if has_text(t, from) {
                    let j = choose|j: int| occurs_at(t, from, j);
                    assert(s.subrange(j + 1, j + 1 + from.len()) =~= t.subrange(j, j + from.len()));
                    assert(occurs_at(s, from, j + 1));
                }
            }
            law_replaced(t, from, to, i - 1);
            assert(seq![s[0]] + t =~= s);
        }
    }
    if first_at(s, from, i) {
        if i == 0 {
            assert(s.take(0) + to =~= to);
        } else {
            assert(!occurs_at(s, from, 0));
            let t = s.drop_first();
            assert(first_at(t, from, i - 1)) by {
                assert(t.subrange(i - 1, i - 1 + from.len()) =~= s.subrange(i, i + from.len()));
                assert forall|j: int| 0 <= j < i - 1 implies !occurs_at(t, from, j) by {
                    assert(!occurs_at(s, from, j + 1));
                    if occurs_at(t, from, j) {
                        assert(s.subrange(j + 1, j + 1 + from.len()) =~= t.subrange(
                            j,
                            j + from.len(),
                        ));
                    }
                }
            }
            law_replaced(t, from, to, i - 1);
            assert(t.skip(i - 1 + from.len()) =~= s.skip(i + from.len()));
            assert(seq![s[0]] + (t.take(i - 1) + to + replaced(s.skip(i + from.len()), from, to))
                =~= s.take(i) + to + replaced(s.skip(i + from.len()), from, to));
        }
    }
}

/// Trimming takes white space off both ends, and nothing else: a text with none at its ends stays,
/// whatever white space is put round it.
pub proof fn law_trimmed(a: Seq<char>, s: Seq<char>, b: Seq<char>)
    requires
        forall|i: int| 0 <= i < a.len() ==> white_space(#[trigger] a[i]),
        forall|i: int| 0 <= i < b.len() ==> white_space(#[trigger] b[i]),
        s.len() > 0 ==> !white_space(s[0]) && !white_space(s.last()),
    ensures
        trimmed(a + s + b) == s,
{
    let f = |c: char| white_space(c);
    if s.len() > 0 {
        assert(a + s + b =~= a + (s + b));
        lemma_without_prefix(a, s + b, f);
        lemma_without_suffix(s, b, f);
    } else {
        assert(a + s + b =~= (a + b) + s);
        lemma_without_prefix(a + b, s, f);
        assert(s + Seq::<char>::empty() =~= s);
    }
}

/// Double quotes are taken off both ends, and nothing else.
pub proof fn law_unquoted(a: Seq<char>, s: Seq<char>, b: Seq<char>)
    requires
        forall|i: int| 0 <= i < a.len() ==> #[trigger] a[i] == '"',
        forall|i: int| 0 <= i < b.len() ==> #[trigger] b[i] == '"',
        s.len() > 0 ==> s[0] != '"' && s.last() != '"',
    ensures
        unquoted(a + s + b) == s,
{
    let f = |c: char| c == '"';
    if s.len() > 0 {
        assert(a + s + b =~= a + (s + b));
        lemma_without_prefix(a, s + b, f);
        lemma_without_suffix(s, b, f);
    } else {
        assert(a + s + b =~= (a + b) + s);
        lemma_without_prefix(a + b, s, f);
        assert(s + Seq::<char>::empty() =~= s);
    }
}

proof fn lemma_without_prefix(a: Seq<char>, s: Seq<char>, f: spec_fn(char) -> bool)
    requires
        forall|i: int| 0 <= i < a.len() ==> f(#[trigger] a[i]),
        s.len() > 0 ==> !f(s[0]),
    ensures
        without_prefix(a + s, f) == s,
    decreases a.len(),
{
    if a.len() == 0 {
        assert(a + s =~= s);
    } else {
        assert(f(a[0]));
        assert((a + s).drop_first() =~= a.drop_first() + s);
        lemma_without_prefix(a.drop_first(), s, f);
    }
}

proof fn lemma_without_suffix(s: Seq<char>, b: Seq<char>, f: spec_fn(char) -> bool)
    requires
        forall|i: int| 0 <= i < b.len() ==> f(#[trigger] b[i]),
        s.len() > 0 ==> !f(s.last()),
    ensures
        without_suffix(s + b, f) == s,
    decreases b.len(),
{
    if b.len() == 0 {
        assert(s + b =~= s);
    } else {
        assert(f(b.last()));
        assert((s + b).drop_last() =~= s + b.drop_last());
        lemma_without_suffix(s, b.drop_last(), f);
    }
}

/// White space is the tab and the four controls behind it, the space, and the spaces and separators
/// of Unicode; a digit or a letter is none.
pub proof fn law_white_space(c: char)
    ensures
        white_space(c) <==> {
            let n = c as int;
            ||| 9 <= n <= 13 || n == 32 || n == 0x85 || n == 0xA0 || n == 0x1680
            ||| 0x2000 <= n <= 0x200A
            ||| n == 0x2028 || n == 0x2029 || n == 0x202F || n == 0x205F || n == 0x3000
        },
{
}

/// A text is parted at a separator: what follows the last one, what precedes the last one, and what
/// precedes the first one.
pub proof fn law_parted(a: Seq<char>, sep: char, b: Seq<char>)
    ensures
        !b.contains(sep) ==> after_last(a.push(sep) + b, sep) == b,
        !b.contains(sep) ==> before_last(a.push(sep) + b, sep) == a,
        !a.contains(sep) ==> before_first(a.push(sep) + b, sep) == a,
        !a.contains(sep) ==> after_last(a, sep) == a && before_last(a, sep) == a && before_first(
            a,
            sep,
        ) == a,
{
    let s = a.push(sep) + b;
    if !b.contains(sep) {
        assert forall|j: int| a.len() < j < s.len() implies s[j] != sep by {
            assert(s[j] == b[j - a.len() - 1]);
            assert(b.contains(b[j - a.len() - 1]));
        }
        lemma_after_last(s, sep, (a.len() + 1) as int);
        assert(s.skip((a.len() + 1) as int) =~= b);
        lemma_before_last(s, sep, a.len() as int);
        assert(s.take(a.len() as int) =~= a);
    }
    if !a.contains(sep) {
        assert forall|j: int| 0 <= j < a.len() implies a[j] != sep by {
            assert(a.contains(a[j]));
        }
        lemma_before_first(s, sep, a.len() as int);
        assert(s.take(a.len() as int) =~= a);
        lemma_before_first(a, sep, a.len() as int);
        assert(a.take(a.len() as int) =~= a);
        lemma_after_last(a, sep, 0);
        assert(a.skip(0) =~= a);
    }
}

/// How often a character stands in a text: as often as in its two pieces together, and in itself
/// once.
pub proof fn law_count(a: Seq<char>, b: Seq<char>, c: char)
    ensures
        count_char(Seq::empty(), c) == 0,
        count_char(seq![c], c) == 1,
        count_char(a + b, c) == count_char(a, c) + count_char(b, c),
        !a.contains(c) ==> count_char(a, c) == 0,
    decreases a.len() + b.len(),
{
    assert(seq![c].drop_last() =~= Seq::empty());
    assert(count_char(seq![c].drop_last(), c) == 0);
    if b.len() > 0 {
        assert((a + b).drop_last() =~= a + b.drop_last());
        law_count(a, b.drop_last(), c);
    } else {
        assert(a + b =~= a);
        if a.len() > 0 {
            law_count(a.drop_last(), b, c);
            if !a.contains(c) {
                assert(a.contains(a.last()));
                assert forall|i: int| 0 <= i < a.len() - 1 implies a.drop_last()[i] != c by {
                    assert(a.contains(a[i]));
                }
            }
        }
    }
}

/// A number in decimal: one character for a number under ten, which is its digit; else that of a
/// tenth of it with the last digit behind. No number but zero begins with a zero.
pub proof fn law_decimal(n: nat)
    ensures
        n < 10 ==> decimal(n).len() == 1,
        n >= 10 ==> decimal(n).drop_last() == decimal(n / 10),
        decimal(n).len() > 0,
        decimal(n).last() as int == '0' as int + n % 10,
        n > 0 ==> decimal(n)[0] != '0',
        all_digits(decimal(n)),
        forall|i: int| 0 <= i < decimal(n).len() ==> '0' <= #[trigger] decimal(n)[i] <= '9',
        digits_value(decimal(n)) == n,
    decreases n,
{
    if n < 10 {
        assert(decimal(n) =~= seq![digit(n)]);
        assert(decimal(n).drop_last() =~= Seq::empty());
        assert(digits_value(decimal(n).drop_last()) == 0);
        assert(is_digit(decimal(n)[0]));
    } else {
        law_decimal(n / 10);
        assert(decimal(n).drop_last() =~= decimal(n / 10));
        assert forall|i: int| 0 <= i < decimal(n).len() implies '0' <= #[trigger] decimal(n)[i]
            <= '9' by {
            if i < decimal(n).len() - 1 {
                assert(decimal(n)[i] == decimal(n / 10)[i]);
            }
        }
    }
}

/// A number that was written in decimal is read back as that number, with or without a plus sign,
/// where it fits in 64 bits, and else not at all.
pub proof fn law_read_back(n: nat)
    ensures
        parsed_u64(decimal(n)) == if n <= u64::MAX {
            Some(n as u64)
        } else {
            None
        },
        parsed_u64(seq!['+'] + decimal(n)) == parsed_u64(decimal(n)),
{
    law_decimal(n);
    let d = decimal(n);
    assert(is_digit(d[0]));
    assert(unsigned_digits(d) == d);
    assert((seq!['+'] + d).drop_first() =~= d);
}

/// What is read as a number has nothing but digits behind an optional plus sign, and at least one;
/// leading zeros do not count, and each further digit makes ten times as much of those before it.
pub proof fn law_digits(s: Seq<char>, c: char)
    requires
        '0' <= c <= '9',
    ensures
        parsed_u64(s) is Some ==> s.len() > 0 && s != seq!['+'] && forall|i: int|
            0 <= i < s.len() ==> '0' <= #[trigger] s[i] <= '9' || i == 0 && s[i] == '+',
        parsed_u64(seq![c]) == Some((c as int - '0' as int) as u64),
        parsed_u64(s) is Some && parsed_u64(s)->0 * 10 + (c as int - '0' as int) <= u64::MAX
            ==> parsed_u64(s.push(c)) == Some(
            (parsed_u64(s)->0 * 10 + (c as int - '0' as int)) as u64,
        ),
        parsed_u64(s) is Some && parsed_u64(s)->0 * 10 + (c as int - '0' as int) > u64::MAX
            ==> parsed_u64(s.push(c)) is None,
{
    let d = unsigned_digits(s);
    if parsed_u64(s) is Some {
        assert forall|i: int| 0 <= i < s.len() implies '0' <= #[trigger] s[i] <= '9' || i == 0
            && s[i] == '+' by {
            if s[0] == '+' {
                if i > 0 {
                    assert(is_digit(d[i - 1]));
                }
            } else {
                assert(is_digit(d[i]));
            }
        }
        if s == seq!['+'] {
            assert(d =~= Seq::empty());
        }
        let e = unsigned_digits(s.push(c));
        assert(e =~= d.push(c));
        assert(e.drop_last() =~= d);
        assert(all_digits(e)) by {
            assert forall|i: int| 0 <= i < e.len() implies is_digit(#[trigger] e[i]) by {
                if i < d.len() {
                    assert(is_digit(d[i]));
                }
            }
        }
    }
    let one = seq![c];
    assert(unsigned_digits(one) =~= one);
    assert(one.drop_last() =~= Seq::empty());
    assert(digits_value(one.drop_last()) == 0);
    assert(all_digits(one));
}

/// Joined texts stand in their order with the separator between each two.
pub proof fn law_joined(parts: Seq<Seq<char>>, x: Seq<char>, sep: Seq<char>)
    ensures
        joined(Seq::empty(), sep) == Seq::<char>::empty(),
        joined(seq![x], sep) == x,
        parts.len() > 0 ==> joined(parts.push(x), sep) == joined(parts, sep) + sep + x,
{
    assert(parts.push(x).drop_last() =~= parts);
}

/// Bytes in hexadecimal: two characters for each byte, which are digits or the letters `a` to `f`,
/// and whose values make up the byte.
pub proof fn law_hex(b: Seq<u8>, i: int)
    requires
        0 <= i < b.len(),
    ensures
        hex(b).len() == 2 * b.len(),
        hex(b)[2 * i] as int == (b[i] / 16) as int + if b[i] / 16 < 10 {
            '0' as int
        } else {
            'a' as int - 10
        },
        hex(b)[2 * i + 1] as int == (b[i] % 16) as int + if b[i] % 16 < 10 {
            '0' as int
        } else {
            'a' as int - 10
        },
{
    assert((2 * i) / 2 == i);
    assert((2 * i + 1) / 2 == i);
}

/// The first place of a text in another is a place of it with no place of it before, and there is
/// one wherever there is any place.
pub proof fn law_first_place(s: Seq<char>, p: Seq<char>, i: int, j: int)
    ensures
        first_at(s, p, i) && occurs_at(s, p, j) ==> occurs_at(s, p, i) && i <= j,
        occurs_at(s, p, j) ==> exists|k: int| first_at(s, p, k),
    decreases j,
{
    if first_at(s, p, i) && occurs_at(s, p, j) && j < i {
        assert(!occurs_at(s, p, j));
    }
    if occurs_at(s, p, j) {
        if exists|m: int| 0 <= m < j && occurs_at(s, p, m) {
            let m = choose|m: int| 0 <= m < j && occurs_at(s, p, m);
            law_first_place(s, p, i, m);
        } else {
            assert(first_at(s, p, j));
        }
    }
}

/// Contracts speak of strings by their characters, of lists of them by each in turn, and of optional
/// ones by whether they are there.
pub proof fn law_texts(v: Seq<String>, i: int, a: Option<&str>, b: Option<String>)
    ensures
        texts(v).len() == v.len(),
        0 <= i < v.len() ==> texts(v)[i] == v[i]@,
        match a {
            Some(s) => opt_str(a) == Some(s@),
            None => opt_str(a) is None,
        },
        match b {
            Some(s) => opt_text(b) == Some(s@),
            None => opt_text(b) is None,
        },
{
}

} // verus!

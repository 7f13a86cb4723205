//! Character-level text: trimming, splitting, searching and the number formats
//! that the settings file and the log lines use.
//!
//! Every function is stated over the sequence of characters of its input, so
//! the contracts of the layers above can speak of text exactly.

use vstd::arithmetic::power::pow;
use vstd::prelude::*;

verus! {

/// Appends one character; `String::push` of the standard library.
pub assume_specification[ String::push ](s: &mut String, c: char)
    ensures
        final(s)@ == old(s)@.push(c),
;

// ---------------------------------------------------------------------------
// What the functions below compute
// ---------------------------------------------------------------------------

/// The characters with the Unicode `White_Space` property.
pub open spec fn is_space(c: char) -> bool {
    let n = c as u32;
    ||| 0x9 <= n <= 0xD
    ||| n == 0x20
    ||| n == 0x85
    ||| n == 0xA0
    ||| n == 0x1680
    ||| 0x2000 <= n <= 0x200A
    ||| n == 0x2028
    ||| n == 0x2029
    ||| n == 0x202F
    ||| n == 0x205F
    ||| n == 0x3000
}

/// `s` without the white space at its start.
pub open spec fn trim_start(s: Seq<char>) -> Seq<char>
    decreases s.len(),
{
    if s.len() > 0 && is_space(s[0]) {
        trim_start(s.drop_first())
    } else {
        s
    }
}

/// `s` without the white space at its end.
pub open spec fn trim_end(s: Seq<char>) -> Seq<char>
    decreases s.len(),
{
    if s.len() > 0 && is_space(s.last()) {
        trim_end(s.drop_last())
    } else {
        s
    }
}

/// `s` without the white space at either end.
pub open spec fn trim(s: Seq<char>) -> Seq<char> {
    trim_end(trim_start(s))
}

/// Whether trimming leaves `s` as it is.
pub open spec fn is_trimmed(s: Seq<char>) -> bool {
    s.len() > 0 ==> !is_space(s[0]) && !is_space(s.last())
}

/// The position of the first `c` in `s`, or the length of `s`.
pub open spec fn first_at(s: Seq<char>, c: char) -> int
    decreases s.len(),
{
    if s.len() == 0 || s[0] == c {
        0
    } else {
        1 + first_at(s.drop_first(), c)
    }
}

/// The pieces between the line feeds of `s`.
pub open spec fn lines(s: Seq<char>) -> Seq<Seq<char>>
    decreases s.len(),
{
    let i = first_at(s, '\n');
    if 0 <= i < s.len() {
        seq![s.take(i)] + lines(s.skip(i + 1))
    } else {
        seq![s]
    }
}

/// An ASCII capital made small; every other character as it is.
pub open spec fn lower_char(c: char) -> char {
    if 'A' <= c <= 'Z' {
        (c as u32 + 32) as char
    } else {
        c
    }
}

/// `s` with its ASCII capitals made small.
pub open spec fn lower(s: Seq<char>) -> Seq<char> {
    s.map_values(|c: char| lower_char(c))
}

/// Whether `needle` occurs in `hay` as a run of neighbouring characters.
pub open spec fn occurs_in(needle: Seq<char>, hay: Seq<char>) -> bool {
    exists|i: int| #[trigger] occurs_at(needle, hay, i)
}

/// Whether `needle` stands in `hay` from position `i` on.
pub open spec fn occurs_at(needle: Seq<char>, hay: Seq<char>, i: int) -> bool {
    &&& 0 <= i
    &&& i + needle.len() <= hay.len()
    &&& hay.subrange(i, i + needle.len()) == needle
}

/// Dictionary order by code point: `a` strictly before `b`.
pub open spec fn before(a: Seq<char>, b: Seq<char>) -> bool
    decreases a.len(),
{
    if b.len() == 0 {
        false
    } else if a.len() == 0 {
        true
    } else if a[0] != b[0] {
        a[0] < b[0]
    } else {
        before(a.drop_first(), b.drop_first())
    }
}

/// One decimal digit.
pub open spec fn digit(n: nat) -> char {
    (n % 10 + 48) as char
}

/// `n` in decimal, without leading zeros.
pub open spec fn decimal(n: nat) -> Seq<char>
    decreases n,
{
    if n < 10 {
        seq![digit(n)]
    } else {
        decimal(n / 10).push(digit(n))
    }
}

/// One hexadecimal digit, with small letters.
pub open spec fn hex_digit(n: nat) -> char {
    let d = n % 16;
    if d < 10 {
        (d + 48) as char
    } else {
        (d + 87) as char
    }
}

/// The lowest `width` hexadecimal digits of `n`.
pub open spec fn hex_digits(n: nat, width: nat) -> Seq<char>
    decreases width,
{
    if width == 0 {
        Seq::empty()
    } else {
        hex_digits(n / 16, (width - 1) as nat).push(hex_digit(n))
    }
}

/// `n` as `0x` and `width` hexadecimal digits.
pub open spec fn hex(n: nat, width: nat) -> Seq<char> {
    seq!['0', 'x'] + hex_digits(n, width)
}

/// The parts in order with `sep` between neighbours.
pub open spec fn joined(parts: Seq<Seq<char>>, sep: Seq<char>) -> Seq<char>
    decreases parts.len(),
{
    if parts.len() == 0 {
        Seq::empty()
    } else if parts.len() == 1 {
        parts[0]
    } else {
        joined(parts.drop_last(), sep) + sep + parts.last()
    }
}

/// The texts of a list of strings.
pub open spec fn texts(parts: Seq<String>) -> Seq<Seq<char>> {
    parts.map_values(|s: String| s@)
}

// ---------------------------------------------------------------------------
// Conversions
// ---------------------------------------------------------------------------

pub fn chars_of(s: &str) -> (r: Vec<char>)
    ensures
        r@ == s@,
{
    let mut out: Vec<char> = Vec::new();
    for c in it: s.chars()
        invariant
            out@ == s@.take(it.index()),
            it.seq() == s@,
    {
        out.push(c);
    }
    out
}

/// The text of `chars[from..to]`.
pub fn string_of(chars: &[char], from: usize, to: usize) -> (r: String)
    requires
        from <= to <= chars@.len(),
    ensures
        r@ == chars@.subrange(from as int, to as int),
{
    let mut out = String::new();
    let mut i: usize = from;
    while i < to
        invariant
            from <= i <= to <= chars@.len(),
            out@ == chars@.subrange(from as int, i as int),
        decreases to - i,
    {
        out.push(chars[i]);
        i += 1;
    }
    out
}

/// Whether two texts are the same.
pub fn same(a: &str, b: &str) -> (r: bool)
    ensures
        r == (a@ == b@),
{
    same_chars(&chars_of(a), &chars_of(b))
}

// ---------------------------------------------------------------------------
// Trimming and splitting
// ---------------------------------------------------------------------------

pub fn is_white_space(c: char) -> (r: bool)
    ensures
        r == is_space(c),
{
    let n: u32 = c as u32;
    (0x9 <= n && n <= 0xD) || n == 0x20 || n == 0x85 || n == 0xA0 || n == 0x1680 || (0x2000 <= n
        && n <= 0x200A) || n == 0x2028 || n == 0x2029 || n == 0x202F || n == 0x205F || n == 0x3000
}

proof fn lemma_trim_start_skip(s: Seq<char>, i: int)
    requires
        0 <= i <= s.len(),
        forall|j: int| 0 <= j < i ==> is_space(#[trigger] s[j]),
    ensures
        trim_start(s) == trim_start(s.skip(i)),
    decreases i,
{
    if i == 0 {
        assert(s.skip(0) =~= s);
    } else {
        lemma_trim_start_skip(s.drop_first(), i - 1);
        assert(s.drop_first().skip(i - 1) =~= s.skip(i));
    }
}

proof fn lemma_trim_end_take(s: Seq<char>, i: int)
    requires
        0 <= i <= s.len(),
        forall|j: int| i <= j < s.len() ==> is_space(#[trigger] s[j]),
    ensures
        trim_end(s) == trim_end(s.take(i)),
    decreases s.len() - i,
{
    if i == s.len() {
        assert(s.take(i) =~= s);
    } else {
        lemma_trim_end_take(s.drop_last(), i);
        assert(s.drop_last().take(i) =~= s.take(i));
    }
}

/// The bounds of the text that trimming leaves of `s[from..to]`.
pub fn trim_range(s: &[char], from: usize, to: usize) -> (r: (usize, usize))
    requires
        from <= to <= s@.len(),
    ensures
        from <= r.0 <= r.1 <= to,
        s@.subrange(r.0 as int, r.1 as int) == trim(s@.subrange(from as int, to as int)),
{
    let ghost whole = s@.subrange(from as int, to as int);
    let mut lo: usize = from;
    while lo < to && is_white_space(s[lo])
        invariant
            from <= lo <= to <= s@.len(),
            whole == s@.subrange(from as int, to as int),
            forall|j: int| 0 <= j < lo - from ==> is_space(#[trigger] whole[j]),
        decreases to - lo,
    {
        assert(whole[lo - from] == s@[lo as int]);
        lo += 1;
    }
    let ghost rest = s@.subrange(lo as int, to as int);
    proof {
        lemma_trim_start_skip(whole, lo - from);
        assert(whole.skip(lo - from) =~= rest);
        assert(trim_start(rest) == rest);
    }
    let mut hi: usize = to;
    while lo < hi && is_white_space(s[hi - 1])
        invariant
            lo <= hi <= to <= s@.len(),
            rest == s@.subrange(lo as int, to as int),
            forall|j: int| hi - lo <= j < rest.len() ==> is_space(#[trigger] rest[j]),
        decreases hi - lo,
    {
        assert(rest[hi - lo - 1] == s@[hi - 1]);
        hi -= 1;
    }
    proof {
        lemma_trim_end_take(rest, hi - lo);
        assert(rest.take(hi - lo) =~= s@.subrange(lo as int, hi as int));
        assert(trim_end(s@.subrange(lo as int, hi as int)) == s@.subrange(lo as int, hi as int));
    }
    (lo, hi)
}

/// Trimmed text is trimmed, and trimming it again changes nothing.
pub proof fn lemma_trim(s: Seq<char>)
    ensures
        is_trimmed(trim(s)),
        is_trimmed(s) <==> trim(s) == s,
        trim(s).len() <= s.len(),
        forall|i: int|
            0 <= i < trim(s).len() ==> exists|j: int|
                0 <= j < s.len() && s[j] == #[trigger] trim(s)[i],
{
    lemma_trim_start(s);
    lemma_trim_end(trim_start(s));
    if is_trimmed(s) {
        assert(trim_start(s) == s);
        assert(trim_end(s) == s);
    }
    let t = trim_start(s);
    assert forall|i: int| 0 <= i < trim(s).len() implies exists|j: int|
        0 <= j < s.len() && s[j] == #[trigger] trim(s)[i] by {
        assert(trim(s)[i] == t[i]);
        assert(t[i] == s[i + (s.len() - t.len())]);
    }
}

proof fn lemma_trim_start(s: Seq<char>)
    ensures
        trim_start(s).len() <= s.len(),
        trim_start(s) == s.skip(s.len() - trim_start(s).len()),
        trim_start(s).len() > 0 ==> !is_space(trim_start(s)[0]),
    decreases s.len(),
{
    if s.len() > 0 && is_space(s[0]) {
        lemma_trim_start(s.drop_first());
        let t = trim_start(s);
        assert(s.drop_first().skip(s.len() - 1 - t.len()) =~= s.skip(s.len() - t.len()));
    } else {
        assert(s.skip(0) =~= s);
    }
}

proof fn lemma_trim_end(s: Seq<char>)
    ensures
        trim_end(s).len() <= s.len(),
        trim_end(s) == s.take(trim_end(s).len() as int),
        trim_end(s).len() > 0 ==> !is_space(trim_end(s).last()),
    decreases s.len(),
{
    if s.len() > 0 && is_space(s.last()) {
        lemma_trim_end(s.drop_last());
        let t = trim_end(s);
        assert(s.drop_last().take(t.len() as int) =~= s.take(t.len() as int));
    } else {
        assert(s.take(s.len() as int) =~= s);
    }
}

/// Where `first_at` stops: at the first occurrence, or past the end.
pub proof fn lemma_first_at(s: Seq<char>, c: char)
    ensures
        0 <= first_at(s, c) <= s.len(),
        first_at(s, c) < s.len() ==> s[first_at(s, c)] == c,
        forall|j: int| 0 <= j < first_at(s, c) ==> s[j] != c,
    decreases s.len(),
{
    if s.len() > 0 && s[0] != c {
        lemma_first_at(s.drop_first(), c);
        assert forall|j: int| 0 <= j < first_at(s, c) implies s[j] != c by {
            if j > 0 {
                assert(s[j] == s.drop_first()[j - 1]);
            }
        }
    }
}

/// An index with `c` in it and none before it is where `first_at` stops.
pub proof fn lemma_first_at_is(s: Seq<char>, c: char, i: int)
    requires
        0 <= i <= s.len(),
        i < s.len() ==> s[i] == c,
        forall|j: int| 0 <= j < i ==> s[j] != c,
    ensures
        first_at(s, c) == i,
{
    lemma_first_at(s, c);
    let f = first_at(s, c);
    if f < i {
        assert(s[f] != c);
    } else if i < f {
        assert(s[i] != c);
    }
}

/// The first index in `from..to` that holds `c`, or `to`.
pub fn find_char(s: &[char], c: char, from: usize, to: usize) -> (r: usize)
    requires
        from <= to <= s@.len(),
    ensures
        from <= r <= to,
        r - from == first_at(s@.subrange(from as int, to as int), c),
{
    let ghost part = s@.subrange(from as int, to as int);
    let mut i: usize = from;
    while i < to && s[i] != c
        invariant
            from <= i <= to <= s@.len(),
            part == s@.subrange(from as int, to as int),
            forall|j: int| 0 <= j < i - from ==> part[j] != c,
        decreases to - i,
    {
        i += 1;
    }
    proof {
        lemma_first_at_is(part, c, i - from);
    }
    i
}

/// Lines of a text that is put together at a line feed.
pub proof fn lemma_lines_concat(a: Seq<char>, b: Seq<char>)
    ensures
        lines(a + seq!['\n'] + b) == lines(a) + lines(b),
    decreases a.len(),
{
    let s = a + seq!['\n'] + b;
    let i = first_at(a, '\n');
    lemma_first_at(a, '\n');
    if i < a.len() {
        assert(forall|j: int| 0 <= j < i ==> s[j] == a[j]);
        lemma_first_at_is(s, '\n', i);
        assert(s.take(i) =~= a.take(i));
        assert(s.skip(i + 1) =~= a.skip(i + 1) + seq!['\n'] + b);
        lemma_lines_concat(a.skip(i + 1), b);
        assert(lines(s) =~= lines(a) + lines(b));
    } else {
        assert(forall|j: int| 0 <= j < a.len() ==> s[j] == a[j]);
        lemma_first_at_is(s, '\n', a.len() as int);
        assert(s.take(a.len() as int) =~= a);
        assert(s.skip(a.len() as int + 1) =~= b);
        assert(lines(a) =~= seq![a]);
    }
}

/// A text without a line feed is one line.
pub proof fn lemma_one_line(s: Seq<char>)
    requires
        !s.contains('\n'),
    ensures
        lines(s) == seq![s],
{
    lemma_first_at(s, '\n');
    if first_at(s, '\n') < s.len() {
        assert(s.contains(s[first_at(s, '\n')]));
    }
}

/// Lines hold no line feed, and nothing that the text does not hold.
pub proof fn lemma_lines_hold(s: Seq<char>, k: int)
    requires
        0 <= k < lines(s).len(),
    ensures
        !lines(s)[k].contains('\n'),
    decreases s.len(),
{
    let i = first_at(s, '\n');
    lemma_first_at(s, '\n');
    if i < s.len() {
        if k == 0 {
            assert(lines(s)[0] == s.take(i));
            assert forall|j: int| 0 <= j < i implies s.take(i)[j] != '\n' by {
                assert(s.take(i)[j] == s[j]);
            }
        } else {
            lemma_lines_hold(s.skip(i + 1), k - 1);
            assert(lines(s)[k] == lines(s.skip(i + 1))[k - 1]);
        }
    } else {
        assert(forall|j: int| 0 <= j < s.len() ==> s[j] != '\n');
    }
}

// ---------------------------------------------------------------------------
// Case and search
// ---------------------------------------------------------------------------

pub fn lower_one(c: char) -> (r: char)
    ensures
        r == lower_char(c),
{
    if 'A' <= c && c <= 'Z' {
        ((c as u8) + 32) as char
    } else {
        c
    }
}

/// `s` with its ASCII capitals made small, as characters.
pub fn lower_chars(s: &str) -> (r: Vec<char>)
    ensures
        r@ == lower(s@),
{
    let mut out: Vec<char> = Vec::new();
    for c in it: s.chars()
        invariant
            out@ == lower(s@.take(it.index())),
            it.seq() == s@,
    {
        out.push(lower_one(c));
    }
    assert(s@.take(s@.len() as int) =~= s@);
    out
}

/// Whether two texts differ in nothing but the case of ASCII letters.
pub fn same_ignoring_case(a: &str, b: &str) -> (r: bool)
    ensures
        r == (lower(a@) == lower(b@)),
{
    let a = lower_chars(a);
    let b = lower_chars(b);
    same_chars(&a, &b)
}

pub fn same_chars(a: &[char], b: &[char]) -> (r: bool)
    ensures
        r == (a@ == b@),
{
    if a.len() != b.len() {
        return false;
    }
    let mut i: usize = 0;
    while i < a.len()
        invariant
            a@.len() == b@.len(),
            i <= a@.len(),
            forall|j: int| 0 <= j < i ==> a@[j] == b@[j],
        decreases a@.len() - i,
    {
        if a[i] != b[i] {
            return false;
        }
        i += 1;
    }
    assert(a@ =~= b@);
    true
}

/// Whether `needle` stands in `hay` from position `i` on.
fn stands_at(hay: &[char], needle: &[char], i: usize) -> (r: bool)
    requires
        i + needle@.len() <= hay@.len(),
    ensures
        r == occurs_at(needle@, hay@, i as int),
{
    let total: usize = hay.len();
    let mut j: usize = 0;
    while j < needle.len() && hay[i + j] == needle[j]
        invariant
            total == hay@.len(),
            i + needle@.len() <= total,
            j <= needle@.len(),
            forall|k: int| 0 <= k < j ==> hay@[i + k] == needle@[k],
        decreases needle@.len() - j,
    {
        j += 1;
    }
    proof {
        let part = hay@.subrange(i as int, i + needle@.len());
        if j == needle@.len() {
            assert(part =~= needle@);
        } else {
            assert(part[j as int] == hay@[i + j]);
        }
    }
    j == needle.len()
}

/// Whether `needle` occurs in `hay`.
pub fn contains(hay: &[char], needle: &[char]) -> (r: bool)
    ensures
        r == occurs_in(needle@, hay@),
{
    if needle.len() > hay.len() {
        return false;
    }
    let last: usize = hay.len() - needle.len();
    let mut i: usize = 0;
    while i < last
        invariant
            last == hay@.len() - needle@.len(),
            i <= last,
            forall|k: int| 0 <= k < i ==> !occurs_at(needle@, hay@, k),
        decreases last - i,
    {
        if stands_at(hay, needle, i) {
            return true;
        }
        i += 1;
    }
    stands_at(hay, needle, last)
}

// ---------------------------------------------------------------------------
// Order
// ---------------------------------------------------------------------------

proof fn lemma_before_skip(a: Seq<char>, b: Seq<char>, i: int)
    requires
        0 <= i <= a.len(),
        i <= b.len(),
        forall|j: int| 0 <= j < i ==> a[j] == b[j],
    ensures
        before(a, b) == before(a.skip(i), b.skip(i)),
    decreases i,
{
    if i == 0 {
        assert(a.skip(0) =~= a);
        assert(b.skip(0) =~= b);
    } else {
        lemma_before_skip(a.drop_first(), b.drop_first(), i - 1);
        assert(a.drop_first().skip(i - 1) =~= a.skip(i));
        assert(b.drop_first().skip(i - 1) =~= b.skip(i));
    }
}

/// Whether `a` stands before `b` in dictionary order by code point, which is
/// the order of the standard library's strings.
pub fn precedes(a: &str, b: &str) -> (r: bool)
    ensures
        r == before(a@, b@),
{
    let a = chars_of(a);
    let b = chars_of(b);
    let mut i: usize = 0;
    while i < a.len() && i < b.len() && a[i] == b[i]
        invariant
            i <= a@.len(),
            i <= b@.len(),
            forall|j: int| 0 <= j < i ==> a@[j] == b@[j],
        decreases a@.len() - i,
    {
        i += 1;
    }
    proof {
        lemma_before_skip(a@, b@, i as int);
    }
    if i == b.len() {
        false
    } else if i == a.len() {
        true
    } else {
        a[i] < b[i]
    }
}

/// Nothing stands before itself.
pub proof fn lemma_before_irreflexive(a: Seq<char>)
    ensures
        !before(a, a),
    decreases a.len(),
{
    if a.len() > 0 {
        lemma_before_irreflexive(a.drop_first());
    }
}

/// The order is transitive.
pub proof fn lemma_before_transitive(a: Seq<char>, b: Seq<char>, c: Seq<char>)
    requires
        before(a, b),
        before(b, c),
    ensures
        before(a, c),
    decreases a.len(),
{
    if a.len() > 0 && a[0] == b[0] && b[0] == c[0] {
        lemma_before_transitive(a.drop_first(), b.drop_first(), c.drop_first());
    }
}

/// Two texts are the same, or one stands before the other.
pub proof fn lemma_before_total(a: Seq<char>, b: Seq<char>)
    ensures
        a == b || before(a, b) || before(b, a),
    decreases a.len(),
{
    if a.len() == 0 && b.len() == 0 {
        assert(a =~= b);
    } else if a.len() > 0 && b.len() > 0 && a[0] == b[0] {
        lemma_before_total(a.drop_first(), b.drop_first());
        if a.drop_first() == b.drop_first() {
            assert(a =~= seq![a[0]] + a.drop_first());
            assert(b =~= seq![b[0]] + b.drop_first());
        }
    }
}

// ---------------------------------------------------------------------------
// Numbers and lists as text
// ---------------------------------------------------------------------------

/// Appends a large `n` in decimal digits.
pub fn push_wide_decimal(out: &mut String, n: u128)
    ensures
        final(out)@ == old(out)@ + decimal(n as nat),
    decreases n,
{
    if n >= 10 {
        push_wide_decimal(out, n / 10);
    }
    out.push((48 + (n % 10) as u8) as char);
    assert(final(out)@ =~= old(out)@ + decimal(n as nat));
}

/// Appends `n` in decimal.
pub fn push_decimal(out: &mut String, n: u64)
    ensures
        final(out)@ == old(out)@ + decimal(n as nat),
    decreases n,
{
    if n >= 10 {
        push_decimal(out, n / 10);
    }
    out.push((48 + (n % 10) as u8) as char);
    proof {
        if n >= 10 {
            assert(old(out)@ + decimal(n as nat) =~= (old(out)@ + decimal((n / 10) as nat)).push(
                digit(n as nat),
            ));
        }
    }
}

/// Appends the lowest `width` hexadecimal digits of `n`.
fn push_hex_digits(out: &mut String, n: u32, width: u32)
    ensures
        final(out)@ == old(out)@ + hex_digits(n as nat, width as nat),
    decreases width,
{
    if width > 0 {
        push_hex_digits(out, n / 16, width - 1);
        let d: u8 = (n % 16) as u8;
        if d < 10 {
            out.push((48 + d) as char);
        } else {
            out.push((87 + d) as char);
        }
    }
    proof {
        if width == 0 {
            assert(old(out)@ + hex_digits(n as nat, 0) =~= old(out)@);
        } else {
            assert(old(out)@ + hex_digits(n as nat, width as nat) =~= (old(out)@ + hex_digits(
                (n / 16) as nat,
                (width - 1) as nat,
            )).push(hex_digit(n as nat)));
        }
    }
}

/// Appends `n` as `0x` and `width` hexadecimal digits.
pub fn push_hex(out: &mut String, n: u32, width: u32)
    ensures
        final(out)@ == old(out)@ + hex(n as nat, width as nat),
{
    out.push('0');
    out.push('x');
    push_hex_digits(out, n, width);
    assert(final(out)@ =~= old(out)@ + hex(n as nat, width as nat));
}

/// The parts in order with `sep` between neighbours.
pub fn join(parts: &[String], sep: &str) -> (r: String)
    ensures
        r@ == joined(texts(parts@), sep@),
{
    let mut out = String::new();
    let mut i: usize = 0;
    while i < parts.len()
        invariant
            i <= parts@.len(),
            out@ == joined(texts(parts@.take(i as int)), sep@),
        decreases parts@.len() - i,
    {
        let ghost now = texts(parts@.take(i + 1));
        assert(now.drop_last() =~= texts(parts@.take(i as int)));
        if i > 0 {
            out.append(sep);
        }
        out.append(parts[i].as_str());
        proof {
            if i == 0 {
                assert(out@ =~= parts@[0]@);
            }
        }
        i += 1;
    }
    assert(parts@.take(parts@.len() as int) =~= parts@);
    out
}

// ---------------------------------------------------------------------------
// Phrases
// ---------------------------------------------------------------------------

/// One text behind the other.
pub fn phrase(a: &str, b: &str) -> (r: String)
    ensures
        r@ == a@ + b@,
{
    let mut out = a.to_owned();
    out.append(b);
    out
}

/// Three texts, one behind the other.
pub fn sentence(a: &str, b: &str, c: &str) -> (r: String)
    ensures
        r@ == a@ + b@ + c@,
{
    let mut out = phrase(a, b);
    out.append(c);
    out
}

pub fn decimal_text(n: u64) -> (r: String)
    ensures
        r@ == decimal(n as nat),
{
    let mut out = String::new();
    push_decimal(&mut out, n);
    assert(out@ =~= decimal(n as nat));
    out
}

/// The text without white space at its ends.
pub fn trimmed(s: &str) -> (r: String)
    ensures
        r@ == trim(s@),
{
    let chars = chars_of(s);
    let (from, to): (usize, usize) = trim_range(chars.as_slice(), 0, chars.len());
    assert(chars@.subrange(0, chars@.len() as int) =~= chars@);
    string_of(chars.as_slice(), from, to)
}

/// Whether a text has no characters.
pub fn says_nothing(s: &str) -> (r: bool)
    ensures
        r == (s@.len() == 0),
{
    chars_of(s).len() == 0
}

/// Small letters stay small, so to make them small twice is to do it once.
pub proof fn lemma_lower_once(s: Seq<char>)
    ensures
        lower(s).len() == s.len(),
        lower(lower(s)) == lower(s),
        forall|i: int|
            0 <= i < s.len() ==> {
                let c = #[trigger] lower(s)[i];
                &&& !('A' <= c <= 'Z')
                &&& c != s[i] ==> 'A' <= s[i] <= 'Z' && c as int == s[i] as int + 32
            },
{
    assert(lower(lower(s)) =~= lower(s));
}

/// A word is found wherever it stands, and in a text in whatever letters where the word
/// is small.
pub proof fn lemma_word_is_found(before: Seq<char>, word: Seq<char>, behind: Seq<char>)
    ensures
        occurs_in(word, before + word + behind),
        occurs_in(lower(word), lower(before + word + behind)),
{
    let all = before + word + behind;
    let n = before.len() as int;
    assert(all.subrange(n, n + word.len()) =~= word);
    assert(occurs_at(word, all, n));
    assert(lower(all).subrange(n, n + word.len()) =~= lower(word));
    assert(occurs_at(lower(word), lower(all), n));
}

/// A number is told by its hexadecimal digits: there are as many as asked for behind the
/// mark, and no two numbers that fit into them look alike.
pub proof fn lemma_hex_tells_the_number(n: nat, m: nat, width: nat)
    ensures
        hex(n, width).len() == width + 2,
        hex(n, width)[0] == '0' && hex(n, width)[1] == 'x',
        n < pow(16, width) && m < pow(16, width) && hex(n, width) == hex(m, width) ==> n == m,
{
    lemma_hex_digits(n, m, width);
    assert(hex(n, width).skip(2) =~= hex_digits(n, width));
    assert(hex(m, width).skip(2) =~= hex_digits(m, width));
}

proof fn lemma_hex_digits(n: nat, m: nat, width: nat)
    ensures
        hex_digits(n, width).len() == width,
        hex_digits(m, width).len() == width,
        n < pow(16, width) && m < pow(16, width) && hex_digits(n, width) == hex_digits(m, width)
            ==> n == m,
    decreases width,
{
    reveal(pow);
    if width > 0 {
        let w = (width - 1) as nat;
        lemma_hex_digits(n / 16, m / 16, w);
        assert(pow(16, width) == 16 * pow(16, w));
        if hex_digits(n, width) == hex_digits(m, width) {
            assert(hex_digits(n, width).drop_last() =~= hex_digits(n / 16, w));
            assert(hex_digits(m, width).drop_last() =~= hex_digits(m / 16, w));
            assert(hex_digits(n, width).last() == hex_digit(n));
            assert(hex_digits(m, width).last() == hex_digit(m));
            assert(n % 16 == m % 16);
        }
    } else {
        assert(pow(16, 0) == 1);
    }
}

} // verus!

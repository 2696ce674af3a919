//! Character-level helpers shared by the parsers: whitespace, trimming, and
//! moving between `&str`, `String` and vectors of characters.

use vstd::prelude::*;

verus! {

broadcast use vstd::string::group_string_axioms;

/// Optional text as an optional character sequence.
pub open spec fn opt_view(o: Option<String>) -> Option<Seq<char>> {
    match o {
        Some(s) => Some(s@),
        None => None,
    }
}

/// The Unicode `White_Space` property, which is what `char::is_whitespace`
/// and `str::trim` go by.
pub open spec fn is_white_space(c: char) -> bool {
    let n = c as u32;
    ||| 0x09 <= n <= 0x0d
    ||| n == 0x20
    ||| n == 0x85
    ||| n == 0xa0
    ||| n == 0x1680
    ||| 0x2000 <= n <= 0x200a
    ||| n == 0x2028
    ||| n == 0x2029
    ||| n == 0x202f
    ||| n == 0x205f
    ||| n == 0x3000
}

pub fn is_whitespace(c: char) -> (r: bool)
    ensures
        r == is_white_space(c),
{
    let n = c as u32;
    (0x09 <= n && n <= 0x0d) || n == 0x20 || n == 0x85 || n == 0xa0 || n == 0x1680 || (0x2000
        <= n && n <= 0x200a) || n == 0x2028 || n == 0x2029 || n == 0x202f || n == 0x205f || n
        == 0x3000
}

/// The characters of a string slice, in order.
pub fn chars_of(s: &str) -> (v: Vec<char>)
    ensures
        v@ == s@,
{
    let mut v: Vec<char> = Vec::new();
    for c in it: s.chars()
        invariant
            it.seq() == s@,
            v@ == it.seq().take(it.index() as int),
    {
        v.push(c);
    }
    v
}


/// Appends one character to a string.
#[verifier::external_body]
pub fn push_char(s: &mut String, c: char)
    ensures
        final(s)@ == old(s)@.push(c),
{
    s.push(c);
}

/// A string holding exactly the given characters.
pub fn string_of(v: &[char]) -> (s: String)
    ensures
        s@ == v@,
{
    let mut s = String::new();
    let mut i: usize = 0;
    while i < v.len()
        invariant
            i <= v.len(),
            s@ == v@.take(i as int),
        decreases v.len() - i,
    {
        push_char(&mut s, v[i]);
        i = i + 1;
        assert(v@.take(i as int) == v@.take(i - 1).push(v@[i - 1]));
    }
    assert(v@.take(v.len() as int) == v@);
    s
}

/// The characters `lo..hi` of `v`, copied out.
pub fn sub_chars(v: &[char], lo: usize, hi: usize) -> (r: Vec<char>)
    requires
        lo <= hi <= v@.len(),
    ensures
        r@ == v@.subrange(lo as int, hi as int),
{
    let mut r: Vec<char> = Vec::new();
    let mut i: usize = lo;
    while i < hi
        invariant
            lo <= i <= hi <= v@.len(),
            r@ == v@.subrange(lo as int, i as int),
        decreases hi - i,
    {
        r.push(v[i]);
        i = i + 1;
        assert(v@.subrange(lo as int, i as int) == v@.subrange(lo as int, i - 1).push(v@[i - 1]));
    }
    r
}

/// Leading whitespace removed.
pub open spec fn trim_start(s: Seq<char>) -> Seq<char>
    decreases s.len(),
{
    if s.len() > 0 && is_white_space(s[0]) {
        trim_start(s.drop_first())
    } else {
        s
    }
}

/// Trailing whitespace removed.
pub open spec fn trim_end(s: Seq<char>) -> Seq<char>
    decreases s.len(),
{
    if s.len() > 0 && is_white_space(s.last()) {
        trim_end(s.drop_last())
    } else {
        s
    }
}

/// What `str::trim` leaves: whitespace removed from both ends.
pub open spec fn trim(s: Seq<char>) -> Seq<char> {
    trim_end(trim_start(s))
}

proof fn lemma_trim_start_skip(s: Seq<char>, i: int)
    requires
        0 <= i <= s.len(),
        forall|j: int| 0 <= j < i ==> is_white_space(#[trigger] s[j]),
    ensures
        trim_start(s) == trim_start(s.skip(i)),
    decreases i,
{
    if i > 0 {
        assert(is_white_space(s[0]));
        let t = s.drop_first();
        assert forall|j: int| 0 <= j < i - 1 implies is_white_space(#[trigger] t[j]) by {
            assert(t[j] == s[j + 1]);
        }
        lemma_trim_start_skip(t, i - 1);
        assert(t.skip(i - 1) =~= s.skip(i));
    } else {
        assert(s.skip(0) =~= s);
    }
}

proof fn lemma_trim_end_take(s: Seq<char>, i: int)
    requires
        0 <= i <= s.len(),
        forall|j: int| i <= j < s.len() ==> is_white_space(#[trigger] s[j]),
    ensures
        trim_end(s) == trim_end(s.take(i)),
    decreases s.len() - i,
{
    if i < s.len() {
        assert(is_white_space(s.last()));
        let t = s.drop_last();
        assert forall|j: int| i <= j < t.len() implies is_white_space(#[trigger] t[j]) by {
            assert(t[j] == s[j]);
        }
        lemma_trim_end_take(t, i);
        assert(t.take(i) =~= s.take(i));
    } else {
        assert(s.take(i) =~= s);
    }
}

/// Bounds `lo..hi` such that `v[lo..hi]` is `v` trimmed.
pub fn trim_bounds(v: &[char]) -> (r: (usize, usize))
    ensures
        r.0 <= r.1 <= v@.len(),
        v@.subrange(r.0 as int, r.1 as int) == trim(v@),
{
    let mut lo: usize = 0;
    while lo < v.len() && is_whitespace(v[lo])
        invariant
            lo <= v@.len(),
            forall|j: int| 0 <= j < lo ==> is_white_space(#[trigger] v@[j]),
        decreases v.len() - lo,
    {
        lo = lo + 1;
    }
    proof {
        lemma_trim_start_skip(v@, lo as int);
    }
    let ghost t = v@.skip(lo as int);
    assert(trim_start(t) == t);
    let mut hi: usize = v.len();
    while hi > lo && is_whitespace(v[hi - 1])
        invariant
            lo <= hi <= v@.len(),
            forall|j: int| hi <= j < v@.len() ==> is_white_space(#[trigger] v@[j]),
        decreases hi,
    {
        hi = hi - 1;
    }
    proof {
        let k = hi - lo;
        assert forall|j: int| k <= j < t.len() implies is_white_space(#[trigger] t[j]) by {
            assert(t[j] == v@[j + lo]);
        }
        lemma_trim_end_take(t, k as int);
        assert(t.take(k as int) =~= v@.subrange(lo as int, hi as int));
        let u = v@.subrange(lo as int, hi as int);
        if u.len() > 0 {
            assert(u.last() == v@[hi - 1]);
        }
        assert(trim_end(u) == u);
    }
    (lo, hi)
}

/// ASCII lowercase of one character; others unchanged.
pub open spec fn ascii_lower(c: char) -> char {
    if 'A' <= c <= 'Z' {
        ((c as u32) + 32) as char
    } else {
        c
    }
}

/// ASCII uppercase of one character; others unchanged.
pub open spec fn ascii_upper(c: char) -> char {
    if 'a' <= c <= 'z' {
        ((c as u32) - 32) as char
    } else {
        c
    }
}

pub fn to_ascii_lower(c: char) -> (r: char)
    ensures
        r == ascii_lower(c),
{
    if 'A' <= c && c <= 'Z' {
        let n = (c as u32) + 32;
        assert(0x61 <= n <= 0x7a);
        char_from_ascii(n as u8)
    } else {
        c
    }
}

pub fn to_ascii_upper(c: char) -> (r: char)
    ensures
        r == ascii_upper(c),
{
    if 'a' <= c && c <= 'z' {
        let n = (c as u32) - 32;
        char_from_ascii(n as u8)
    } else {
        c
    }
}

/// The character with an ASCII code point.
pub fn char_from_ascii(b: u8) -> (c: char)
    requires
        b < 128,
    ensures
        c as u32 == b as u32,
        c == (b as u32) as char,
{
    b as char
}


/// Whether two string slices hold the same characters.
pub fn str_equal(a: &str, b: &str) -> (r: bool)
    ensures
        r == (a@ == b@),
{
    let x = chars_of(a);
    let y = chars_of(b);
    if x.len() != y.len() {
        return false;
    }
    let mut i: usize = 0;
    while i < x.len()
        invariant
            i <= x@.len(),
            x@.len() == y@.len(),
            x@ == a@,
            y@ == b@,
            forall|j: int| 0 <= j < i ==> x@[j] == y@[j],
        decreases x.len() - i,
    {
        if x[i] != y[i] {
            assert(x@[i as int] != y@[i as int]);
            return false;
        }
        i = i + 1;
    }
    assert(x@ =~= y@);
    true
}

/// An owned copy of a string slice.
pub fn owned(s: &str) -> (r: String)
    ensures
        r@ == s@,
{
    s.to_owned()
}

/// The index of the first `x` in `s`, or `s.len()` when there is none.
pub open spec fn first_index<A>(s: Seq<A>, x: A) -> int
    decreases s.len(),
{
    if s.len() == 0 {
        0
    } else if s[0] == x {
        0
    } else {
        1 + first_index(s.drop_first(), x)
    }
}

/// What `first_index` is: the position of the first match, or the length.
pub proof fn lemma_first_index<A>(s: Seq<A>, x: A)
    ensures
        0 <= first_index(s, x) <= s.len(),
        first_index(s, x) == s.len() <==> !s.contains(x),
        first_index(s, x) < s.len() ==> s[first_index(s, x)] == x,
        forall|j: int| 0 <= j < first_index(s, x) ==> s[j] != x,
    decreases s.len(),
{
    if s.len() > 0 && s[0] != x {
        let t = s.drop_first();
        lemma_first_index(t, x);
        assert forall|j: int| 0 <= j < first_index(s, x) implies s[j] != x by {
            if j > 0 {
                assert(s[j] == t[j - 1]);
            }
        }
        if s.contains(x) {
            let k = choose|k: int| 0 <= k < s.len() && s[k] == x;
            assert(t[k - 1] == x);
        }
        if t.contains(x) {
            let k = choose|k: int| 0 <= k < t.len() && t[k] == x;
            assert(s[k + 1] == x);
        }
    } else if s.len() > 0 {
        assert(s.contains(x)) by {
            assert(s[0] == x);
        }
    }
}

/// A match with no match before it is the first.
pub proof fn lemma_first_index_at<A>(s: Seq<A>, x: A, i: int)
    requires
        0 <= i <= s.len(),
        i < s.len() ==> s[i] == x,
        forall|j: int| 0 <= j < i ==> s[j] != x,
    ensures
        first_index(s, x) == i,
    decreases i,
{
    if i > 0 {
        let t = s.drop_first();
        assert forall|j: int| 0 <= j < i - 1 implies t[j] != x by {
            assert(t[j] == s[j + 1]);
        }
        lemma_first_index_at(t, x, i - 1);
    }
}


/// The pieces of `s` between occurrences of `sep`, as `str::split` gives
/// them: one more piece than there are separators, empty pieces included.
pub open spec fn split_on(s: Seq<char>, sep: char) -> Seq<Seq<char>>
    decreases s.len(),
{
    if s.len() == 0 {
        seq![Seq::<char>::empty()]
    } else {
        let p = split_on(s.drop_last(), sep);
        if s.last() == sep {
            p.push(Seq::<char>::empty())
        } else {
            p.update(p.len() - 1, p.last().push(s.last()))
        }
    }
}

pub proof fn lemma_split_on_len(s: Seq<char>, sep: char)
    ensures
        split_on(s, sep).len() >= 1,
    decreases s.len(),
{
    if s.len() > 0 {
        lemma_split_on_len(s.drop_last(), sep);
    }
}

/// Whether a piece is not empty.
pub open spec fn non_empty_piece() -> spec_fn(Seq<char>) -> bool {
    |p: Seq<char>| p.len() > 0
}

pub open spec fn is_digit(c: char) -> bool {
    '0' <= c <= '9'
}

pub open spec fn digit_value(c: char) -> int {
    (c as u32) - 48
}

/// The number a run of decimal digits spells.
pub open spec fn decimal_value(s: Seq<char>) -> int
    decreases s.len(),
{
    if s.len() == 0 {
        0
    } else {
        decimal_value(s.drop_last()) * 10 + digit_value(s.last())
    }
}

pub open spec fn all_digits(s: Seq<char>) -> bool {
    forall|i: int| 0 <= i < s.len() ==> is_digit(#[trigger] s[i])
}

/// What `str::parse` gives for an unsigned integer type whose largest value
/// is `max`: an optional `+`, then at least one digit, and no overflow.
pub open spec fn parse_unsigned(s: Seq<char>, max: int) -> Option<int> {
    let d = if s.len() > 0 && s[0] == '+' {
        s.drop_first()
    } else {
        s
    };
    if d.len() > 0 && all_digits(d) && decimal_value(d) <= max {
        Some(decimal_value(d))
    } else {
        None
    }
}

proof fn lemma_decimal_value_grows(s: Seq<char>, i: int)
    requires
        0 <= i <= s.len(),
        all_digits(s),
    ensures
        decimal_value(s.take(i)) <= decimal_value(s),
        decimal_value(s.take(i)) >= 0,
    decreases s.len() - i,
{
    if i < s.len() {
        let t = s.drop_last();
        assert(t.take(i) =~= s.take(i)) by {
        }
        if i < t.len() {
            lemma_decimal_value_grows(t, i);
        } else {
            assert(t =~= s.take(i));
            lemma_decimal_value_grows(t, i);
        }
        assert(is_digit(s.last()));
    } else {
        assert(s.take(i) =~= s);
        lemma_decimal_value_nonneg(s);
    }
}

proof fn lemma_decimal_value_nonneg(s: Seq<char>)
    requires
        all_digits(s),
    ensures
        decimal_value(s) >= 0,
    decreases s.len(),
{
    if s.len() > 0 {
        lemma_decimal_value_nonneg(s.drop_last());
        assert(is_digit(s.last()));
    }
}

/// Parses an unsigned decimal number no larger than `max`.
pub fn parse_unsigned_exec(s: &[char], max: u32) -> (r: Option<u32>)
    ensures
        match parse_unsigned(s@, max as int) {
            Some(v) => r == Some(v as u32) && 0 <= v <= max,
            None => r is None,
        },
{
    let start: usize = if s.len() > 0 && s[0] == '+' {
        1
    } else {
        0
    };
    let ghost d = if s@.len() > 0 && s@[0] == '+' {
        s@.drop_first()
    } else {
        s@
    };
    assert(d =~= s@.skip(start as int));
    if start >= s.len() {
        return None;
    }
    let mut value: u64 = 0;
    let mut i: usize = start;
    while i < s.len()
        invariant
            start <= i <= s@.len(),
            d == s@.skip(start as int),
            d == (if s@.len() > 0 && s@[0] == '+' {
                s@.drop_first()
            } else {
                s@
            }),
            d.len() > 0,
            all_digits(d.take(i - start)),
            value == decimal_value(d.take(i - start)),
            value <= max,
        decreases s.len() - i,
    {
        let c = s[i];
        let ghost k = i - start;
        assert(d[k] == c);
        if !('0' <= c && c <= '9') {
            assert(!is_digit(d[k]));
            assert(!all_digits(d));
            return None;
        }
        assert(d.take(k + 1).drop_last() =~= d.take(k));
        assert(d.take(k + 1).last() == c);
        let next = value * 10 + ((c as u32) - 48) as u64;
        assert(decimal_value(d.take(k + 1)) == next);
        if next > max as u64 {
            proof {
                assert(all_digits(d.take(k + 1)));
                if all_digits(d) {
                    lemma_decimal_value_grows(d, k + 1);
                }
            }
            return None;
        }
        value = next;
        i = i + 1;
    }
    assert(d.take(i - start) =~= d);
    proof {
        lemma_decimal_value_nonneg(d);
    }
    Some(value as u32)
}

/// The decimal digits of `n`, most significant first, with no padding.
pub open spec fn decimal_digits(n: nat) -> Seq<char>
    decreases n,
{
    if n < 10 {
        seq![((n + 48) as u32) as char]
    } else {
        decimal_digits(n / 10).push((((n % 10) + 48) as u32) as char)
    }
}

/// `s` left-padded with `0` to at least `width` characters.
pub open spec fn zero_padded(s: Seq<char>, width: nat) -> Seq<char> {
    if s.len() < width {
        Seq::new((width - s.len()) as nat, |i: int| '0') + s
    } else {
        s
    }
}

/// Appends the decimal digits of `n`, zero-padded to `width`.
pub fn push_padded(out: &mut Vec<char>, n: u32, width: usize)
    requires
        width <= 16,
    ensures
        final(out)@ == old(out)@ + zero_padded(decimal_digits(n as nat), width as nat),
{
    let mut digits: Vec<char> = Vec::new();
    let mut m: u32 = n;
    let ghost mut done: Seq<char> = Seq::empty();
    while m >= 10
        invariant
            m <= n,
            decimal_digits(n as nat) == decimal_digits(m as nat) + digits@,
        decreases m,
    {
        let d = char_from_ascii((m % 10) as u8 + 48);
        let ghost before = digits@;
        digits.insert(0, d);
        assert(decimal_digits(m as nat) == decimal_digits((m / 10) as nat).push(d));
        assert(decimal_digits(m as nat) + before =~= decimal_digits((m / 10) as nat) + digits@);
        m = m / 10;
    }
    let first = char_from_ascii(m as u8 + 48);
    digits.insert(0, first);
    assert(decimal_digits(n as nat) =~= digits@);
    let mut pad: usize = digits.len();
    let ghost start = out@;
    while pad < width
        invariant
            digits.len() <= pad <= width || width < digits.len() && pad == digits.len(),
            out@ == start + Seq::new((pad - digits@.len()) as nat, |i: int| '0'),
        decreases width - pad,
    {
        out.push('0');
        assert(Seq::new((pad + 1 - digits@.len()) as nat, |i: int| '0') =~= Seq::new(
            (pad - digits@.len()) as nat,
            |i: int| '0',
        ).push('0'));
        pad = pad + 1;
    }
    let mut i: usize = 0;
    let ghost padded = out@;
    while i < digits.len()
        invariant
            i <= digits@.len(),
            out@ == padded + digits@.take(i as int),
        decreases digits.len() - i,
    {
        out.push(digits[i]);
        assert(digits@.take(i + 1) =~= digits@.take(i as int).push(digits@[i as int]));
        i = i + 1;
    }
    assert(digits@.take(digits@.len() as int) =~= digits@);
    if digits.len() < width {
        assert(out@ =~= start + zero_padded(decimal_digits(n as nat), width as nat));
    } else {
        assert(Seq::new((pad - digits@.len()) as nat, |i: int| '0') =~= Seq::<char>::empty());
        assert(out@ =~= start + zero_padded(decimal_digits(n as nat), width as nat));
    }
}

/// Bytes one character takes in UTF-8.
pub open spec fn utf8_len(c: char) -> nat {
    let n = c as u32;
    if n < 0x80 {
        1
    } else if n < 0x800 {
        2
    } else if n < 0x10000 {
        3
    } else {
        4
    }
}

/// Bytes a text takes in UTF-8.
pub open spec fn byte_len(s: Seq<char>) -> nat
    decreases s.len(),
{
    if s.len() == 0 {
        0
    } else {
        byte_len(s.drop_last()) + utf8_len(s.last())
    }
}

/// Whether byte offset `k` falls between two characters of `s`.
pub open spec fn is_boundary(s: Seq<char>, k: nat) -> bool {
    exists|i: int| 0 <= i <= s.len() && byte_len(#[trigger] s.take(i)) == k
}


pub fn utf8_len_exec(c: char) -> (r: usize)
    ensures
        r == utf8_len(c),
{
    let n = c as u32;
    if n < 0x80 {
        1
    } else if n < 0x800 {
        2
    } else if n < 0x10000 {
        3
    } else {
        4
    }
}

proof fn lemma_byte_len_take_step(s: Seq<char>, i: int)
    requires
        0 <= i < s.len(),
    ensures
        byte_len(s.take(i + 1)) == byte_len(s.take(i)) + utf8_len(s[i]),
{
    assert(s.take(i + 1).drop_last() =~= s.take(i));
}

/// Byte lengths of prefixes grow with the prefix.
pub proof fn lemma_byte_len_take_monotone(s: Seq<char>, i: int, j: int)
    requires
        0 <= i <= j <= s.len(),
    ensures
        byte_len(s.take(i)) + (j - i) <= byte_len(s.take(j)),
    decreases j - i,
{
    if i < j {
        lemma_byte_len_take_monotone(s, i, j - 1);
        lemma_byte_len_take_step(s, j - 1);
    }
}

/// How many leading characters of `v` make up its first `n` bytes: all of
/// them when `v` is no longer, `None` when byte `n` falls inside a character.
pub fn byte_prefix(v: &[char], n: usize) -> (r: Option<usize>)
    ensures
        match r {
            Some(i) => i <= v@.len() && (byte_len(v@.take(i as int)) == n || (i == v@.len()
                && byte_len(v@) <= n)),
            None => byte_len(v@) > n && !is_boundary(v@, n as nat),
        },
{
    let mut i: usize = 0;
    let mut bytes: usize = 0;
    while i < v.len() && bytes < n
        invariant
            i <= v@.len(),
            bytes == byte_len(v@.take(i as int)),
            bytes <= n,
        decreases v.len() - i,
    {
        proof {
            lemma_byte_len_take_step(v@, i as int);
        }
        let w = utf8_len_exec(v[i]);
        if w > n - bytes {
            proof {
                assert forall|k: int| 0 <= k <= v@.len() implies byte_len(#[trigger] v@.take(k))
                    != n by {
                    if k <= i {
                        lemma_byte_len_take_monotone(v@, k, i as int);
                    } else {
                        lemma_byte_len_take_monotone(v@, i + 1, k);
                    }
                }
                lemma_byte_len_take_monotone(v@, i + 1, v@.len() as int);
                assert(v@.take(v@.len() as int) =~= v@);
            }
            return None;
        }
        bytes = bytes + w;
        i = i + 1;
    }
    if i == v.len() {
        assert(v@.take(i as int) =~= v@);
    }
    Some(i)
}


/// `v` trimmed of whitespace at both ends.
pub fn trimmed(v: &[char]) -> (r: Vec<char>)
    ensures
        r@ == trim(v@),
{
    let (lo, hi) = trim_bounds(v);
    sub_chars(v, lo, hi)
}

/// Every character mapped to ASCII uppercase.
pub open spec fn upper(s: Seq<char>) -> Seq<char> {
    s.map_values(|c: char| ascii_upper(c))
}

/// Every character mapped to ASCII lowercase.
pub open spec fn lower_ascii(s: Seq<char>) -> Seq<char> {
    s.map_values(|c: char| ascii_lower(c))
}

pub fn upper_exec(v: &[char]) -> (r: Vec<char>)
    ensures
        r@ == upper(v@),
{
    let mut r: Vec<char> = Vec::new();
    let mut i: usize = 0;
    while i < v.len()
        invariant
            i <= v@.len(),
            r@ == upper(v@.take(i as int)),
        decreases v.len() - i,
    {
        r.push(to_ascii_upper(v[i]));
        assert(upper(v@.take(i + 1)) =~= upper(v@.take(i as int)).push(ascii_upper(v@[i as int])));
        i = i + 1;
    }
    assert(v@.take(v@.len() as int) =~= v@);
    r
}

/// Whether `v` holds exactly the characters of `lit`.
pub fn seq_is(v: &[char], lit: &str) -> (r: bool)
    ensures
        r == (v@ == lit@),
{
    let w = chars_of(lit);
    if v.len() != w.len() {
        return false;
    }
    let mut i: usize = 0;
    while i < v.len()
        invariant
            i <= v@.len(),
            v@.len() == w@.len(),
            w@ == lit@,
            forall|j: int| 0 <= j < i ==> v@[j] == w@[j],
        decreases v.len() - i,
    {
        if v[i] != w[i] {
            assert(v@[i as int] != w@[i as int]);
            return false;
        }
        i = i + 1;
    }
    assert(v@ =~= w@);
    true
}

/// The position of the first `c` in `v`, or its length.
pub fn find_char(v: &[char], c: char) -> (r: usize)
    ensures
        r == first_index(v@, c),
        r <= v@.len(),
{
    let mut i: usize = 0;
    while i < v.len() && v[i] != c
        invariant
            i <= v@.len(),
            forall|j: int| 0 <= j < i ==> v@[j] != c,
        decreases v.len() - i,
    {
        i = i + 1;
    }
    proof {
        lemma_first_index_at(v@, c, i as int);
    }
    i
}

/// Appends the characters of `s`.
pub fn push_str(out: &mut Vec<char>, s: &str)
    ensures
        final(out)@ == old(out)@ + s@,
{
    let w = chars_of(s);
    push_all(out, w.as_slice());
}

/// Appends the characters of `w`.
pub fn push_all(out: &mut Vec<char>, w: &[char])
    ensures
        final(out)@ == old(out)@ + w@,
{
    let ghost start = out@;
    let mut i: usize = 0;
    while i < w.len()
        invariant
            i <= w@.len(),
            out@ == start + w@.take(i as int),
        decreases w.len() - i,
    {
        out.push(w[i]);
        assert(w@.take(i + 1) =~= w@.take(i as int).push(w@[i as int]));
        i = i + 1;
    }
    assert(w@.take(w@.len() as int) =~= w@);
}


/// The digits of a number spell it back, and there are few of them.
pub proof fn lemma_decimal_digits(n: nat)
    ensures
        all_digits(decimal_digits(n)),
        decimal_value(decimal_digits(n)) == n,
        decimal_digits(n).len() >= 1,
        n < 10 ==> decimal_digits(n).len() == 1,
        n < 100 ==> decimal_digits(n).len() <= 2,
        n < 1000 ==> decimal_digits(n).len() <= 3,
        n < 10000 ==> decimal_digits(n).len() <= 4,
    decreases n,
{
    if n >= 10 {
        lemma_decimal_digits(n / 10);
        let d = decimal_digits(n);
        let c = (((n % 10) + 48) as u32) as char;
        assert(d.drop_last() =~= decimal_digits(n / 10));
        assert(d.last() == c);
        assert(digit_value(c) == n % 10);
        vstd::arithmetic::div_mod::lemma_fundamental_div_mod(n as int, 10);
        assert(decimal_value(d) == decimal_value(decimal_digits(n / 10)) * 10 + digit_value(c));
        assert(decimal_value(decimal_digits(n / 10)) == n / 10);
        assert(decimal_value(d) == n);
        assert forall|i: int| 0 <= i < d.len() implies is_digit(#[trigger] d[i]) by {
            if i < d.len() - 1 {
                assert(d[i] == decimal_digits(n / 10)[i]);
            }
        }
    } else {
        let d = decimal_digits(n);
        assert(d.drop_last() =~= Seq::<char>::empty());
        assert(decimal_value(d) == decimal_value(d.drop_last()) * 10 + digit_value(d.last()));
        assert(digit_value(d.last()) == n);
        assert(is_digit(d[0]));
    }
}

/// Leading zeros do not change the number.
pub proof fn lemma_zero_padded(s: Seq<char>, w: nat)
    requires
        all_digits(s),
    ensures
        all_digits(zero_padded(s, w)),
        decimal_value(zero_padded(s, w)) == decimal_value(s),
        zero_padded(s, w).len() == if s.len() < w {
            w
        } else {
            s.len()
        },
{
    if s.len() < w {
        let z = Seq::new((w - s.len()) as nat, |i: int| '0');
        lemma_leading_zeros(z, s);
        assert forall|i: int| 0 <= i < (z + s).len() implies is_digit(#[trigger] (z + s)[i]) by {
            if i < z.len() {
            } else {
                assert((z + s)[i] == s[i - z.len()]);
            }
        }
    }
}

proof fn lemma_leading_zeros(z: Seq<char>, s: Seq<char>)
    requires
        forall|i: int| 0 <= i < z.len() ==> z[i] == '0',
    ensures
        decimal_value(z + s) == decimal_value(s),
    decreases s.len(),
{
    if s.len() == 0 {
        assert(z + s =~= z);
        lemma_zeros_value(z);
    } else {
        lemma_leading_zeros(z, s.drop_last());
        assert((z + s).drop_last() =~= z + s.drop_last());
    }
}

proof fn lemma_zeros_value(z: Seq<char>)
    requires
        forall|i: int| 0 <= i < z.len() ==> z[i] == '0',
    ensures
        decimal_value(z) == 0,
    decreases z.len(),
{
    if z.len() > 0 {
        lemma_zeros_value(z.drop_last());
    }
}

/// A text with no separator is a single piece.
pub proof fn lemma_split_single(a: Seq<char>, sep: char)
    requires
        !a.contains(sep),
    ensures
        split_on(a, sep) == seq![a],
    decreases a.len(),
{
    if a.len() > 0 {
        assert(!a.drop_last().contains(sep)) by {
            if a.drop_last().contains(sep) {
                let k = choose|k: int| 0 <= k < a.drop_last().len() && a.drop_last()[k] == sep;
                assert(a[k] == sep);
            }
        }
        lemma_split_single(a.drop_last(), sep);
        assert(a.last() != sep) by {
            assert(a[a.len() - 1] == a.last());
        }
        assert(a.drop_last().push(a.last()) =~= a);
        assert(seq![a.drop_last()].update(0, a.drop_last().push(a.last())) =~= seq![a]);
    } else {
        assert(a =~= Seq::<char>::empty());
    }
}

/// Splitting around a separator splits each side.
pub proof fn lemma_split_concat(x: Seq<char>, y: Seq<char>, sep: char)
    ensures
        split_on(x + seq![sep] + y, sep) == split_on(x, sep) + split_on(y, sep),
    decreases y.len(),
{
    let xs = x + seq![sep];
    if y.len() == 0 {
        assert(xs + y =~= xs);
        assert(xs.drop_last() =~= x);
        assert(split_on(y, sep) =~= seq![Seq::<char>::empty()]);
        assert(split_on(x, sep).push(Seq::<char>::empty()) =~= split_on(x, sep) + seq![Seq::<char>::empty()]);
    } else {
        let y0 = y.drop_last();
        lemma_split_concat(x, y0, sep);
        lemma_split_on_len(y0, sep);
        lemma_split_on_len(x, sep);
        assert((xs + y).drop_last() =~= xs + y0);
        assert((xs + y).last() == y.last());
        let a = split_on(x, sep);
        let b = split_on(y0, sep);
        if y.last() == sep {
            assert((a + b).push(Seq::<char>::empty()) =~= a + b.push(Seq::<char>::empty()));
        } else {
            let ab = a + b;
            assert(ab.last() == b.last());
            assert(ab.update(ab.len() - 1, ab.last().push(y.last())) =~= a + b.update(
                b.len() - 1,
                b.last().push(y.last()),
            ));
        }
    }
}

/// In ASCII text every character is one byte.
pub proof fn lemma_ascii_byte_len(s: Seq<char>)
    requires
        forall|i: int| 0 <= i < s.len() ==> (#[trigger] s[i] as u32) < 128,
    ensures
        byte_len(s) == s.len(),
    decreases s.len(),
{
    if s.len() > 0 {
        assert((s.last() as u32) < 128) by {
            assert(s[s.len() - 1] == s.last());
        }
        lemma_ascii_byte_len(s.drop_last());
    }
}

/// Text with no whitespace at either end is its own trim.
pub proof fn lemma_trim_id(s: Seq<char>)
    requires
        s.len() > 0,
        !is_white_space(s[0]),
        !is_white_space(s.last()),
    ensures
        trim(s) == s,
{
}

/// Text without lowercase ASCII letters is its own uppercase.
pub proof fn lemma_upper_id(s: Seq<char>)
    requires
        forall|i: int| 0 <= i < s.len() ==> !('a' <= #[trigger] s[i] <= 'z'),
    ensures
        upper(s) == s,
{
    assert(upper(s) =~= s);
}


/// Filtering keeps a sequence whose every element passes.
pub proof fn lemma_filter_keeps_all<A>(s: Seq<A>, pred: spec_fn(A) -> bool)
    requires
        forall|i: int| 0 <= i < s.len() ==> pred(#[trigger] s[i]),
    ensures
        s.filter(pred) == s,
    decreases s.len(),
{
    reveal_with_fuel(Seq::filter, 1);
    if s.len() > 0 {
        let t = s.drop_last();
        assert forall|i: int| 0 <= i < t.len() implies pred(#[trigger] t[i]) by {
            assert(t[i] == s[i]);
        }
        lemma_filter_keeps_all(t, pred);
        assert(pred(s[s.len() - 1]));
        assert(t.push(s.last()) =~= s);
    } else {
        assert(s.filter(pred) =~= s);
    }
}

/// A `KEY=VALUE` text splits at the `=` after the key.
pub proof fn lemma_key_value(key: Seq<char>, value: Seq<char>)
    requires
        !key.contains('='),
    ensures
        first_index(key + seq!['='] + value, '=') == key.len(),
        (key + seq!['='] + value).take(key.len() as int) == key,
        (key + seq!['='] + value).skip(key.len() as int + 1) == value,
{
    let p = key + seq!['='] + value;
    assert forall|j: int| 0 <= j < key.len() implies p[j] != '=' by {
        assert(p[j] == key[j]);
        if key[j] == '=' {
            assert(key.contains('='));
        }
    }
    assert(p[key.len() as int] == '=');
    lemma_first_index_at(p, '=', key.len() as int);
    assert(p.take(key.len() as int) =~= key);
    assert(p.skip(key.len() as int + 1) =~= value);
}


/// Pieces joined with `sep` between them.
pub open spec fn joined(pieces: Seq<Seq<char>>, sep: char) -> Seq<char>
    decreases pieces.len(),
{
    if pieces.len() <= 1 {
        if pieces.len() == 1 {
            pieces[0]
        } else {
            Seq::empty()
        }
    } else {
        joined(pieces.drop_last(), sep) + seq![sep] + pieces.last()
    }
}

/// Splitting pieces that hold no separator gives them back.
pub proof fn lemma_split_joined(pieces: Seq<Seq<char>>, sep: char)
    requires
        pieces.len() >= 1,
        forall|i: int| 0 <= i < pieces.len() ==> !(#[trigger] pieces[i]).contains(sep),
    ensures
        split_on(joined(pieces, sep), sep) == pieces,
    decreases pieces.len(),
{
    if pieces.len() == 1 {
        lemma_split_single(pieces[0], sep);
        assert(seq![pieces[0]] =~= pieces);
    } else {
        let init = pieces.drop_last();
        assert forall|i: int| 0 <= i < init.len() implies !(#[trigger] init[i]).contains(sep) by {
            assert(init[i] == pieces[i]);
        }
        lemma_split_joined(init, sep);
        assert(!pieces[pieces.len() - 1].contains(sep));
        lemma_split_single(pieces.last(), sep);
        lemma_split_concat(joined(init, sep), pieces.last(), sep);
        assert(init + seq![pieces.last()] =~= pieces);
    }
}


/// The pieces of `s` between whitespace characters, empty pieces included.
pub open spec fn split_ws(s: Seq<char>) -> Seq<Seq<char>>
    decreases s.len(),
{
    if s.len() == 0 {
        seq![Seq::<char>::empty()]
    } else {
        let p = split_ws(s.drop_last());
        if is_white_space(s.last()) {
            p.push(Seq::<char>::empty())
        } else {
            p.update(p.len() - 1, p.last().push(s.last()))
        }
    }
}

pub proof fn lemma_split_ws_len(s: Seq<char>)
    ensures
        split_ws(s).len() >= 1,
    decreases s.len(),
{
    if s.len() > 0 {
        lemma_split_ws_len(s.drop_last());
    }
}

/// What `str::split_whitespace` gives: the non-empty runs between whitespace.
pub open spec fn words(s: Seq<char>) -> Seq<Seq<char>> {
    split_ws(s).filter(non_empty_piece())
}

/// The text of each character vector.
pub open spec fn views(s: Seq<Vec<char>>) -> Seq<Seq<char>> {
    s.map_values(|w: Vec<char>| w@)
}

/// The whitespace-separated words of `v`.
pub fn words_of(v: &[char]) -> (r: Vec<Vec<char>>)
    ensures
        views(r@) == words(v@),
{
    let ghost pred = non_empty_piece();
    let mut out: Vec<Vec<char>> = Vec::new();
    let mut cur: Vec<char> = Vec::new();
    let mut i: usize = 0;
    assert(v@.take(0) =~= Seq::<char>::empty());
    assert(split_ws(v@.take(0)).drop_last() =~= Seq::<Seq<char>>::empty());
    assert(Seq::<Seq<char>>::empty().filter(pred) =~= Seq::<Seq<char>>::empty()) by {
        reveal_with_fuel(Seq::filter, 1);
    }
    assert(views(out@) =~= Seq::<Seq<char>>::empty());
    while i < v.len()
        invariant
            i <= v@.len(),
            pred == non_empty_piece(),
            cur@ == split_ws(v@.take(i as int)).last(),
            views(out@) == split_ws(v@.take(i as int)).drop_last().filter(pred),
        decreases v.len() - i,
    {
        let ghost pieces = split_ws(v@.take(i as int));
        proof {
            lemma_split_ws_len(v@.take(i as int));
        }
        assert(v@.take(i + 1).drop_last() =~= v@.take(i as int));
        if is_whitespace(v[i]) {
            proof {
                reveal_with_fuel(Seq::filter, 1);
                assert(pieces =~= pieces.drop_last().push(pieces.last()));
                assert(split_ws(v@.take(i + 1)) == pieces.push(Seq::<char>::empty()));
                assert(pieces.push(Seq::<char>::empty()).drop_last() =~= pieces);
                assert(pieces.drop_last().push(pieces.last()).drop_last() =~= pieces.drop_last());
            }
            if cur.len() > 0 {
                proof {
                    assert(pieces.filter(pred) == pieces.drop_last().filter(pred).push(cur@));
                }
                let ghost before = out@;
                out.push(cur);
                assert(views(out@) =~= views(before).push(split_ws(v@.take(i as int)).last()));
            } else {
                assert(pieces.filter(pred) == pieces.drop_last().filter(pred));
            }
            cur = Vec::new();
        } else {
            proof {
                let next = pieces.update(pieces.len() - 1, pieces.last().push(v@[i as int]));
                assert(split_ws(v@.take(i + 1)) == next);
                assert(next.drop_last() =~= pieces.drop_last());
            }
            cur.push(v[i]);
        }
        i = i + 1;
    }
    let ghost pieces = split_ws(v@);
    assert(v@.take(v@.len() as int) =~= v@);
    proof {
        lemma_split_ws_len(v@);
        reveal_with_fuel(Seq::filter, 1);
        assert(pieces =~= pieces.drop_last().push(pieces.last()));
    }
    if cur.len() > 0 {
        proof {
            assert(pieces.filter(pred) == pieces.drop_last().filter(pred).push(cur@));
        }
        let ghost before = out@;
        out.push(cur);
        assert(views(out@) =~= views(before).push(pieces.last()));
    } else {
        assert(pieces.filter(pred) == pieces.drop_last().filter(pred));
    }
    out
}

/// The pieces `ws[lo..]` joined with `sep`.
pub fn join_from(ws: &Vec<Vec<char>>, lo: usize, sep: char) -> (r: Vec<char>)
    requires
        lo <= ws@.len(),
    ensures
        r@ == joined(views(ws@).skip(lo as int), sep),
{
    let ghost all = views(ws@).skip(lo as int);
    let mut out: Vec<char> = Vec::new();
    let mut i: usize = lo;
    reveal_with_fuel(joined, 2);
    assert(all.take(0) =~= Seq::<Seq<char>>::empty());
    while i < ws.len()
        invariant
            lo <= i <= ws@.len(),
            all == views(ws@).skip(lo as int),
            out@ == joined(all.take(i - lo), sep),
        decreases ws.len() - i,
    {
        let ghost k = i - lo;
        let ghost before = out@;
        assert(all.take(k + 1).drop_last() =~= all.take(k));
        assert(all.take(k + 1).last() == ws@[i as int]@);
        if i > lo {
            out.push(sep);
        }
        push_all(&mut out, ws[i].as_slice());
        proof {
            if k == 0 {
                assert(all.take(1) =~= seq![ws@[i as int]@]);
                assert(out@ =~= ws@[i as int]@);
            } else {
                assert(out@ =~= before + seq![sep] + ws@[i as int]@);
            }
        }
        i = i + 1;
    }
    assert(all.take(ws@.len() - lo) =~= all);
    out
}

/// What `str::to_lowercase` gives: Unicode lowercase of the whole text.
pub uninterp spec fn lowercase(s: Seq<char>) -> Seq<char>;

/// The Unicode lowercase of a text, through `str::to_lowercase`. Claimed of
/// it: the result is a function of the text, and on ASCII text it is the
/// ASCII lowercase (`A`–`Z` to `a`–`z`, every other character kept), as the
/// Unicode case mapping is on that range. Beyond ASCII the mapping is left
/// unsaid.
#[verifier::external_body]
pub fn to_lowercase(s: &str) -> (r: String)
    ensures
        r@ == lowercase(s@),
        (forall|i: int| 0 <= i < s@.len() ==> (#[trigger] s@[i] as u32) < 128) ==> r@ == lower_ascii(s@),
{
    s.to_lowercase()
}

/// What `str::parse::<i32>` gives: an optional sign, then at least one digit,
/// within range.
pub open spec fn parse_i32(s: Seq<char>) -> Option<int> {
    if s.len() > 0 && s[0] == '-' {
        let d = s.drop_first();
        if d.len() > 0 && all_digits(d) && decimal_value(d) <= 0x8000_0000 {
            Some(-decimal_value(d))
        } else {
            None
        }
    } else {
        parse_unsigned(s, 0x7fff_ffff)
    }
}

pub fn parse_i32_exec(s: &[char]) -> (r: Option<i32>)
    ensures
        match parse_i32(s@) {
            Some(v) => r == Some(v as i32) && i32::MIN <= v <= i32::MAX,
            None => r is None,
        },
{
    if s.len() > 0 && s[0] == '-' {
        let d = sub_chars(s, 1, s.len());
        assert(d@ =~= s@.drop_first());
        if d.len() > 0 && d[0] == '+' {
            assert(!is_digit(d@[0]));
            return None;
        }
        assert(d@.len() > 0 && d@[0] == '+' ==> !all_digits(d@)) by {
            if d@.len() > 0 && d@[0] == '+' {
                assert(!is_digit(d@[0]));
            }
        }
        match parse_unsigned_exec(d.as_slice(), 0x8000_0000) {
            Some(v) => Some((0 - (v as i64)) as i32),
            None => None,
        }
    } else {
        match parse_unsigned_exec(s, 0x7fff_ffff) {
            Some(v) => Some(v as i32),
            None => None,
        }
    }
}

/// The pieces of `v` between occurrences of `sep`, empty pieces included.
pub fn split_exec(v: &[char], sep: char) -> (r: Vec<Vec<char>>)
    ensures
        views(r@) == split_on(v@, sep),
        r@.len() >= 1,
{
    let mut out: Vec<Vec<char>> = Vec::new();
    let mut cur: Vec<char> = Vec::new();
    let mut i: usize = 0;
    assert(v@.take(0) =~= Seq::<char>::empty());
    assert(views(out@) =~= split_on(v@.take(0), sep).drop_last());
    while i < v.len()
        invariant
            i <= v@.len(),
            cur@ == split_on(v@.take(i as int), sep).last(),
            views(out@) == split_on(v@.take(i as int), sep).drop_last(),
        decreases v.len() - i,
    {
        let ghost pieces = split_on(v@.take(i as int), sep);
        proof {
            lemma_split_on_len(v@.take(i as int), sep);
        }
        assert(v@.take(i + 1).drop_last() =~= v@.take(i as int));
        if v[i] == sep {
            assert(split_on(v@.take(i + 1), sep) == pieces.push(Seq::<char>::empty()));
            let ghost before = out@;
            out.push(cur);
            assert(views(out@) =~= views(before).push(pieces.last()));
            assert(pieces.push(Seq::<char>::empty()).drop_last() =~= pieces);
            assert(pieces =~= pieces.drop_last().push(pieces.last()));
            cur = Vec::new();
        } else {
            proof {
                let next = pieces.update(pieces.len() - 1, pieces.last().push(v@[i as int]));
                assert(split_on(v@.take(i + 1), sep) == next);
                assert(next.drop_last() =~= pieces.drop_last());
            }
            cur.push(v[i]);
        }
        i = i + 1;
    }
    assert(v@.take(v@.len() as int) =~= v@);
    proof {
        lemma_split_on_len(v@, sep);
    }
    let ghost pieces = split_on(v@, sep);
    let ghost before = out@;
    out.push(cur);
    assert(views(out@) =~= views(before).push(pieces.last()));
    assert(pieces =~= pieces.drop_last().push(pieces.last()));
    out
}

/// What `str::parse::<i64>` gives: an optional sign, then at least one digit,
/// within range.
pub open spec fn parse_i64(s: Seq<char>) -> Option<int> {
    if s.len() > 0 && s[0] == '-' {
        let d = s.drop_first();
        if d.len() > 0 && all_digits(d) && decimal_value(d) <= 0x8000_0000_0000_0000 {
            Some(-decimal_value(d))
        } else {
            None
        }
    } else {
        parse_unsigned(s, 0x7fff_ffff_ffff_ffff)
    }
}

/// Parses an unsigned decimal number no larger than `max`, with an optional
/// leading `+`.
pub fn parse_unsigned_u64(s: &[char], max: u64) -> (r: Option<u64>)
    ensures
        match parse_unsigned(s@, max as int) {
            Some(v) => r == Some(v as u64) && 0 <= v <= max,
            None => r is None,
        },
{
    let start: usize = if s.len() > 0 && s[0] == '+' {
        1
    } else {
        0
    };
    let ghost d = if s@.len() > 0 && s@[0] == '+' {
        s@.drop_first()
    } else {
        s@
    };
    assert(d =~= s@.skip(start as int));
    if start >= s.len() {
        return None;
    }
    let mut value: u64 = 0;
    let mut i: usize = start;
    while i < s.len()
        invariant
            start <= i <= s@.len(),
            d == s@.skip(start as int),
            d == (if s@.len() > 0 && s@[0] == '+' {
                s@.drop_first()
            } else {
                s@
            }),
            d.len() > 0,
            all_digits(d.take(i - start)),
            value == decimal_value(d.take(i - start)),
            value <= max,
        decreases s.len() - i,
    {
        let c = s[i];
        let ghost k = i - start;
        assert(d[k] == c);
        if !('0' <= c && c <= '9') {
            assert(!is_digit(d[k]));
            assert(!all_digits(d));
            return None;
        }
        assert(d.take(k + 1).drop_last() =~= d.take(k));
        assert(d.take(k + 1).last() == c);
        let next: u128 = (value as u128) * 10 + ((c as u32) - 48) as u128;
        assert(decimal_value(d.take(k + 1)) == next);
        if next > max as u128 {
            proof {
                assert(all_digits(d.take(k + 1)));
                if all_digits(d) {
                    lemma_decimal_value_grows(d, k + 1);
                }
            }
            return None;
        }
        value = next as u64;
        i = i + 1;
    }
    assert(d.take(i - start) =~= d);
    proof {
        lemma_decimal_value_nonneg(d);
    }
    Some(value)
}

/// `str::parse::<i64>` on text held as characters.
pub fn parse_i64_exec(s: &[char]) -> (r: Option<i64>)
    ensures
        match parse_i64(s@) {
            Some(v) => r == Some(v as i64) && i64::MIN <= v <= i64::MAX,
            None => r is None,
        },
{
    if s.len() > 0 && s[0] == '-' {
        let d = sub_chars(s, 1, s.len());
        assert(d@ =~= s@.drop_first());
        if d.len() > 0 && d[0] == '+' {
            assert(!is_digit(d@[0]));
            return None;
        }
        assert(d@.len() > 0 && d@[0] == '+' ==> !all_digits(d@)) by {
            if d@.len() > 0 && d@[0] == '+' {
                assert(!is_digit(d@[0]));
            }
        }
        match parse_unsigned_u64(d.as_slice(), 0x8000_0000_0000_0000) {
            Some(v) => Some((0 - (v as i128)) as i64),
            None => None,
        }
    } else {
        match parse_unsigned_u64(s, 0x7fff_ffff_ffff_ffff) {
            Some(v) => Some(v as i64),
            None => None,
        }
    }
}

/// A signed number as `i64::to_string` writes it.
pub open spec fn signed_digits(n: int) -> Seq<char> {
    if n < 0 {
        seq!['-'] + decimal_digits((-n) as nat)
    } else {
        decimal_digits(n as nat)
    }
}

/// Appends the decimal digits of `n`.
pub fn push_u64(out: &mut Vec<char>, n: u64)
    ensures
        final(out)@ == old(out)@ + decimal_digits(n as nat),
{
    let mut digits: Vec<char> = Vec::new();
    let mut m: u64 = n;
    while m >= 10
        invariant
            m <= n,
            decimal_digits(n as nat) == decimal_digits(m as nat) + digits@,
        decreases m,
    {
        let d = char_from_ascii((m % 10) as u8 + 48);
        let ghost before = digits@;
        digits.insert(0, d);
        assert(decimal_digits(m as nat) == decimal_digits((m / 10) as nat).push(d));
        assert(decimal_digits(m as nat) + before =~= decimal_digits((m / 10) as nat) + digits@);
        m = m / 10;
    }
    let first = char_from_ascii(m as u8 + 48);
    digits.insert(0, first);
    assert(decimal_digits(n as nat) =~= digits@);
    let ghost start = out@;
    let mut i: usize = 0;
    while i < digits.len()
        invariant
            i <= digits@.len(),
            out@ == start + digits@.take(i as int),
        decreases digits.len() - i,
    {
        out.push(digits[i]);
        assert(digits@.take(i + 1) =~= digits@.take(i as int).push(digits@[i as int]));
        i = i + 1;
    }
    assert(digits@.take(digits@.len() as int) =~= digits@);
}

/// Appends `n` as `i64::to_string` writes it.
pub fn push_i64(out: &mut Vec<char>, n: i64)
    ensures
        final(out)@ == old(out)@ + signed_digits(n as int),
{
    let ghost start = out@;
    if n < 0 {
        out.push('-');
        let m: u64 = (0 - (n as i128)) as u64;
        push_u64(out, m);
        assert(out@ =~= start + signed_digits(n as int));
    } else {
        push_u64(out, n as u64);
    }
}

/// A signed number's text reads back as the number.
pub proof fn lemma_signed_digits(n: int)
    requires
        i64::MIN <= n <= i64::MAX,
    ensures
        parse_i64(signed_digits(n)) == Some(n),
        signed_digits(n).len() > 0,
        forall|i: int| 0 <= i < signed_digits(n).len() ==> #[trigger] signed_digits(n)[i] == '-' || is_digit(signed_digits(n)[i]),
{
    let t = signed_digits(n);
    if n < 0 {
        lemma_decimal_digits((-n) as nat);
        assert(t.drop_first() =~= decimal_digits((-n) as nat));
        assert forall|i: int| 0 <= i < t.len() implies #[trigger] t[i] == '-' || is_digit(t[i]) by {
            if i > 0 {
                assert(t[i] == decimal_digits((-n) as nat)[i - 1]);
            }
        }
    } else {
        lemma_decimal_digits(n as nat);
        assert(is_digit(t[0]));
    }
}

} // verus!

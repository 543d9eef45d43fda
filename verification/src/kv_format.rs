//! The line format of key-value files: a key, a space, and a decimal value
//! that may be surrounded by white space. Lines are UTF-8 text, handled as
//! bytes. Lines are written as the key, a space, the value in decimal and a
//! line feed, and such a line reads back as the pair it was written from.
use vstd::prelude::*;

verus! {

/// The length of the encoding of a white-space character (Unicode
/// `White_Space`) that starts `s`, or 0 if `s` starts with none.
pub open spec fn ws_front(s: Seq<u8>) -> nat {
    if s.len() >= 1 && (s[0] == 0x20 || (0x09 <= s[0] && s[0] <= 0x0d)) {
        1
    } else if s.len() >= 2 && s[0] == 0xc2 && (s[1] == 0x85 || s[1] == 0xa0) {
        2
    } else if s.len() >= 3 && is_ws3(s[0], s[1], s[2]) {
        3
    } else {
        0
    }
}

/// The length of the encoding of a white-space character that ends `s`,
/// or 0 if `s` ends with none.
pub open spec fn ws_back(s: Seq<u8>) -> nat {
    let n = s.len() as int;
    if n >= 1 && (s[n - 1] == 0x20 || (0x09 <= s[n - 1] && s[n - 1] <= 0x0d)) {
        1
    } else if n >= 2 && s[n - 2] == 0xc2 && (s[n - 1] == 0x85 || s[n - 1] == 0xa0) {
        2
    } else if n >= 3 && is_ws3(s[n - 3], s[n - 2], s[n - 1]) {
        3
    } else {
        0
    }
}

/// The three-byte encodings of white space: U+1680, U+2000 to U+200A,
/// U+2028, U+2029, U+202F, U+205F and U+3000.
pub open spec fn is_ws3(a: u8, b: u8, c: u8) -> bool {
    ||| a == 0xe1 && b == 0x9a && c == 0x80
    ||| a == 0xe2 && b == 0x80 && ((0x80 <= c && c <= 0x8a) || c == 0xa8 || c == 0xa9 || c
        == 0xaf)
    ||| a == 0xe2 && b == 0x81 && c == 0x9f
    ||| a == 0xe3 && b == 0x80 && c == 0x80
}

/// `s` without its leading white space.
pub open spec fn trim_front(s: Seq<u8>) -> Seq<u8>
    decreases s.len(),
{
    if ws_front(s) > 0 {
        trim_front(s.skip(ws_front(s) as int))
    } else {
        s
    }
}

/// `s` without its trailing white space.
pub open spec fn trim_back(s: Seq<u8>) -> Seq<u8>
    decreases s.len(),
{
    if ws_back(s) > 0 {
        trim_back(s.take(s.len() - ws_back(s)))
    } else {
        s
    }
}

/// `s` without its leading and trailing white space.
pub open spec fn trim(s: Seq<u8>) -> Seq<u8> {
    trim_back(trim_front(s))
}

/// The digits of a value: the text without a leading `+`.
pub open spec fn value_digits(t: Seq<u8>) -> Seq<u8> {
    if t.len() > 0 && t[0] == 0x2b {
        t.skip(1)
    } else {
        t
    }
}

/// One or more ASCII digits.
pub open spec fn is_digits(d: Seq<u8>) -> bool {
    d.len() > 0 && forall|i: int| 0 <= i < d.len() ==> 0x30 <= #[trigger] d[i] <= 0x39
}

/// The number that the ASCII digits `d` write in decimal.
pub open spec fn decimal_value(d: Seq<u8>) -> int
    decreases d.len(),
{
    if d.len() == 0 {
        0
    } else {
        decimal_value(d.drop_last()) * 10 + (d.last() - 0x30)
    }
}

/// `t` is a value: an optional `+` and decimal digits of a number that
/// fits in a `u64`.
pub open spec fn is_value(t: Seq<u8>) -> bool {
    is_digits(value_digits(t)) && decimal_value(value_digits(t)) <= u64::MAX
}

/// `p` is the position of the first space of `line`.
pub open spec fn is_first_space(line: Seq<u8>, p: int) -> bool {
    &&& 0 <= p < line.len()
    &&& line[p] == 0x20
    &&& forall|q: int| 0 <= q < p ==> line[q] != 0x20
}

/// Why a line is not a key-value pair.
#[derive(Clone, Copy, Debug, PartialEq, Eq, Structural)]
pub enum KvLineError {
    /// The line holds no space between key and value.
    MissingSeparator,
    /// What follows the first space is not a value once trimmed.
    InvalidValue,
}

/// The key and value of `line`: the key is what precedes the first space,
/// the value what follows it, without surrounding white space, read as a
/// decimal number with an optional `+`.
pub fn parse_kv_line(line: &[u8]) -> (r: Result<(Vec<u8>, u64), KvLineError>)
    ensures
        r is Err && r->Err_0 == KvLineError::MissingSeparator <==> forall|q: int|
            0 <= q < line@.len() ==> line@[q] != 0x20,
        forall|p: int|
            #[trigger] is_first_space(line@, p) ==> match r {
                Ok((key, value)) => key@ == line@.take(p) && is_value(trim(line@.skip(p + 1)))
                    && value == decimal_value(value_digits(trim(line@.skip(p + 1)))),
                Err(e) => e == KvLineError::InvalidValue && !is_value(trim(line@.skip(p + 1))),
            },
{
    let n = line.len();
    let mut p: usize = 0;
    while p < n && line[p] != 0x20
        invariant
            p <= n,
            n == line@.len(),
            forall|q: int| 0 <= q < p ==> line@[q] != 0x20,
        decreases n - p,
    {
        p = p + 1;
    }
    if p == n {
        return Err(KvLineError::MissingSeparator);
    }
    assert(is_first_space(line@, p as int));
    proof {
        assert forall|p2: int| #[trigger] is_first_space(line@, p2) implies p2 == p by {
            if p2 < p {
                assert(line@[p2] != 0x20);
            } else if p < p2 {
                assert(line@[p as int] != 0x20);
            }
        }
    }
    let mut key: Vec<u8> = Vec::new();
    let mut i: usize = 0;
    while i < p
        invariant
            i <= p,
            p < n,
            n == line@.len(),
            key@ == line@.take(i as int),
        decreases p - i,
    {
        key.push(line[i]);
        i = i + 1;
        assert(key@ =~= line@.take(i as int));
    }
    let (lo, hi) = trim_range(line, p + 1, n);
    assert(line@.skip(p + 1) =~= line@.subrange(p + 1, n as int));
    match parse_value(line, lo, hi) {
        Some(value) => Ok((key, value)),
        None => Err(KvLineError::InvalidValue),
    }
}

/// The line holds only white space; such lines hold no pair.
pub fn is_blank_line(line: &[u8]) -> (r: bool)
    ensures
        r == (trim(line@).len() == 0),
{
    let (a, b) = trim_range(line, 0, line.len());
    assert(line@.subrange(0, line@.len() as int) =~= line@);
    a == b
}

/// The length of the white-space character that starts `line[lo..hi]`.
fn ws_front_len(line: &[u8], lo: usize, hi: usize) -> (k: usize)
    requires
        lo <= hi <= line@.len(),
    ensures
        k == ws_front(line@.subrange(lo as int, hi as int)),
{
    let n = hi - lo;
    if n >= 1 && (line[lo] == 0x20 || (0x09 <= line[lo] && line[lo] <= 0x0d)) {
        1
    } else if n >= 2 && line[lo] == 0xc2 && (line[lo + 1] == 0x85 || line[lo + 1] == 0xa0) {
        2
    } else if n >= 3 && ws3(line[lo], line[lo + 1], line[lo + 2]) {
        3
    } else {
        0
    }
}

/// The length of the white-space character that ends `line[lo..hi]`.
fn ws_back_len(line: &[u8], lo: usize, hi: usize) -> (k: usize)
    requires
        lo <= hi <= line@.len(),
    ensures
        k == ws_back(line@.subrange(lo as int, hi as int)),
{
    let n = hi - lo;
    if n >= 1 && (line[hi - 1] == 0x20 || (0x09 <= line[hi - 1] && line[hi - 1] <= 0x0d)) {
        1
    } else if n >= 2 && line[hi - 2] == 0xc2 && (line[hi - 1] == 0x85 || line[hi - 1] == 0xa0) {
        2
    } else if n >= 3 && ws3(line[hi - 3], line[hi - 2], line[hi - 1]) {
        3
    } else {
        0
    }
}

fn ws3(a: u8, b: u8, c: u8) -> (r: bool)
    ensures
        r == is_ws3(a, b, c),
{
    (a == 0xe1 && b == 0x9a && c == 0x80) || (a == 0xe2 && b == 0x80 && ((0x80 <= c && c <= 0x8a)
        || c == 0xa8 || c == 0xa9 || c == 0xaf)) || (a == 0xe2 && b == 0x81 && c == 0x9f) || (a
        == 0xe3 && b == 0x80 && c == 0x80)
}

/// The bounds of `line[lo..hi]` without its surrounding white space.
fn trim_range(line: &[u8], lo: usize, hi: usize) -> (r: (usize, usize))
    requires
        lo <= hi <= line@.len(),
    ensures
        lo <= r.0 <= r.1 <= hi,
        line@.subrange(r.0 as int, r.1 as int) == trim(line@.subrange(lo as int, hi as int)),
{
    let mut a = lo;
    while a < hi
        invariant
            lo <= a <= hi <= line@.len(),
            trim_front(line@.subrange(a as int, hi as int)) == trim_front(
                line@.subrange(lo as int, hi as int),
            ),
        ensures
            lo <= a <= hi,
            trim_front(line@.subrange(a as int, hi as int)) == trim_front(
                line@.subrange(lo as int, hi as int),
            ),
            a == hi || ws_front(line@.subrange(a as int, hi as int)) == 0,
        decreases hi - a,
    {
        let k = ws_front_len(line, a, hi);
        if k == 0 {
            break;
        }
        proof {
            let s = line@.subrange(a as int, hi as int);
            assert(s.skip(k as int) =~= line@.subrange(a + k, hi as int));
        }
        a = a + k;
    }
    proof {
        let s = line@.subrange(a as int, hi as int);
        if a == hi {
            assert(s.len() == 0);
        }
        assert(trim_front(s) == s);
    }
    let mut b = hi;
    while b > a
        invariant
            lo <= a <= b <= hi <= line@.len(),
            trim_back(line@.subrange(a as int, b as int)) == trim(line@.subrange(lo as int, hi as int)),
        ensures
            lo <= a <= b <= hi,
            trim_back(line@.subrange(a as int, b as int)) == trim(line@.subrange(lo as int, hi as int)),
            a == b || ws_back(line@.subrange(a as int, b as int)) == 0,
        decreases b - a,
    {
        let k = ws_back_len(line, a, b);
        if k == 0 {
            break;
        }
        proof {
            let s = line@.subrange(a as int, b as int);
            assert(s.take(s.len() - k) =~= line@.subrange(a as int, b - k));
        }
        b = b - k;
    }
    proof {
        let s = line@.subrange(a as int, b as int);
        if a == b {
            assert(s.len() == 0);
        }
        assert(trim_back(s) == s);
    }
    (a, b)
}

/// Decimal values are never negative.
proof fn lemma_decimal_value_nonneg(d: Seq<u8>, k: int)
    requires
        0 <= k <= d.len(),
        forall|i: int| 0 <= i < d.len() ==> 0x30 <= #[trigger] d[i] <= 0x39,
    ensures
        0 <= decimal_value(d.take(k)),
    decreases k,
{
    if k > 0 {
        lemma_decimal_value_nonneg(d, k - 1);
        assert(d.take(k).drop_last() =~= d.take(k - 1));
    }
}

/// Decimal values only grow as digits are appended.
proof fn lemma_decimal_value_grows(d: Seq<u8>, j: int, k: int)
    requires
        0 <= j <= k <= d.len(),
        forall|i: int| 0 <= i < d.len() ==> 0x30 <= #[trigger] d[i] <= 0x39,
    ensures
        decimal_value(d.take(j)) <= decimal_value(d.take(k)),
    decreases k,
{
    if j < k {
        lemma_decimal_value_grows(d, j, k - 1);
        lemma_decimal_value_nonneg(d, k - 1);
        assert(d.take(k).drop_last() =~= d.take(k - 1));
    }
}

/// The value that `line[lo..hi]` writes, or `None` if it is none.
fn parse_value(line: &[u8], lo: usize, hi: usize) -> (r: Option<u64>)
    requires
        lo <= hi <= line@.len(),
    ensures
        r is Some <==> is_value(line@.subrange(lo as int, hi as int)),
        r matches Some(v) ==> v == decimal_value(value_digits(line@.subrange(lo as int, hi as int))),
{
    let ghost t = line@.subrange(lo as int, hi as int);
    let start = if lo < hi && line[lo] == 0x2b {
        lo + 1
    } else {
        lo
    };
    let ghost d = line@.subrange(start as int, hi as int);
    assert(value_digits(t) =~= d);
    if start == hi {
        return None;
    }
    let mut acc: u64 = 0;
    let mut i: usize = start;
    while i < hi
        invariant
            start <= i <= hi <= line@.len(),
            d == line@.subrange(start as int, hi as int),
            value_digits(line@.subrange(lo as int, hi as int)) == d,
            d.len() == hi - start,
            forall|q: int| 0 <= q < i - start ==> 0x30 <= #[trigger] d[q] <= 0x39,
            acc == decimal_value(d.take(i - start)),
        decreases hi - i,
    {
        let c = line[i];
        if c < 0x30 || c > 0x39 {
            assert(d[i - start] == c);
            return None;
        }
        let ghost k = i - start;
        assert(d.take(k + 1).drop_last() =~= d.take(k));
        assert(d.take(k + 1).last() == c);
        let digit = (c - 0x30) as u64;
        let next = match acc.checked_mul(10) {
            Some(m) => m.checked_add(digit),
            None => None,
        };
        match next {
            Some(v) => {
                acc = v;
            },
            None => {
                proof {
                    if is_digits(d) {
                        lemma_decimal_value_grows(d, k + 1, d.len() as int);
                        assert(d.take(d.len() as int) =~= d);
                    }
                }
                return None;
            },
        }
        i = i + 1;
    }
    assert(d.take(d.len() as int) =~= d);
    Some(acc)
}

/// The decimal digits of `v`, most significant first, without leading
/// zeros.
pub open spec fn decimal_digits(v: nat) -> Seq<u8>
    decreases v,
{
    if v < 10 {
        seq![(v + 0x30) as u8]
    } else {
        decimal_digits(v / 10).push(((v % 10) + 0x30) as u8)
    }
}

/// The line written for a pair: the key, a space, the value in decimal and
/// a line feed.
pub open spec fn kv_line(key: Seq<u8>, value: u64) -> Seq<u8> {
    key + seq![0x20u8] + decimal_digits(value as nat) + seq![0x0au8]
}

/// What reading the line `line` gives back the pair `(key, value)`: the
/// line is not blank, its first space follows the key, and the value is
/// what follows that space.
pub open spec fn reads_back(line: Seq<u8>, key: Seq<u8>, value: u64) -> bool {
    let p = key.len() as int;
    &&& trim(line).len() > 0
    &&& is_first_space(line, p)
    &&& line.take(p) == key
    &&& is_value(trim(line.skip(p + 1)))
    &&& decimal_value(value_digits(trim(line.skip(p + 1)))) == value
}

/// The decimal digits of a number are digits and write that number.
proof fn lemma_decimal_digits(v: nat)
    ensures
        is_digits(decimal_digits(v)),
        decimal_value(decimal_digits(v)) == v,
        decimal_digits(v).len() > 0,
    decreases v,
{
    if v >= 10 {
        lemma_decimal_digits(v / 10);
        let d = decimal_digits(v);
        assert(d.drop_last() =~= decimal_digits(v / 10));
        assert forall|i: int| 0 <= i < d.len() implies 0x30 <= #[trigger] d[i] <= 0x39 by {
            if i < d.len() - 1 {
                assert(d[i] == decimal_digits(v / 10)[i]);
            }
        }
        assert(v % 10 < 10);
        assert(d.last() == v % 10 + 0x30);
        assert(v == (v / 10) * 10 + v % 10) by {
            vstd::arithmetic::div_mod::lemma_fundamental_div_mod(v as int, 10);
        }
        assert(decimal_value(d) == decimal_value(d.drop_last()) * 10 + (d.last() - 0x30));
    } else {
        let d = decimal_digits(v);
        assert(d.drop_last() =~= Seq::<u8>::empty());
        assert(d.last() == v + 0x30);
        assert(decimal_value(d) == decimal_value(d.drop_last()) * 10 + (d.last() - 0x30));
    }
}

/// Trimming removes no digit at either end of a text that starts and ends
/// with a digit.
proof fn lemma_trim_digits(d: Seq<u8>)
    requires
        is_digits(d),
    ensures
        trim(d) == d,
{
    assert(0x30 <= d[0] <= 0x39);
    assert(0x30 <= d[d.len() - 1] <= 0x39);
    assert(ws_front(d) == 0);
    assert(ws_back(d) == 0);
}

/// Trimming the front of a text that ends with a digit keeps that digit.
proof fn lemma_trim_front_keeps_digit(s: Seq<u8>)
    requires
        s.len() > 0,
        0x30 <= s.last() <= 0x39,
    ensures
        trim_front(s).len() > 0,
        trim_front(s).last() == s.last(),
    decreases s.len(),
{
    let k = ws_front(s);
    if k > 0 {
        assert(k < s.len());
        let t = s.skip(k as int);
        assert(t.last() == s.last());
        lemma_trim_front_keeps_digit(t);
    }
}

/// A line written for a pair whose key holds no space reads back as that
/// pair.
pub proof fn lemma_kv_line_reads_back(key: Seq<u8>, value: u64)
    requires
        forall|i: int| 0 <= i < key.len() ==> key[i] != 0x20,
    ensures
        reads_back(kv_line(key, value).drop_last(), key, value),
{
    let d = decimal_digits(value as nat);
    lemma_decimal_digits(value as nat);
    let line = kv_line(key, value).drop_last();
    let p = key.len() as int;
    assert(line =~= key + seq![0x20u8] + d);
    assert(line.take(p) =~= key);
    assert(line.skip(p + 1) =~= d);
    lemma_trim_digits(d);
    assert(value_digits(d) == d) by {
        assert(0x30 <= d[0] <= 0x39);
    }
    assert(is_first_space(line, p)) by {
        assert forall|q: int| 0 <= q < p implies line[q] != 0x20 by {
            assert(line[q] == key[q]);
        }
    }
    assert(line.last() == d.last());
    assert(0x30 <= d[d.len() - 1] <= 0x39);
    lemma_trim_front_keeps_digit(line);
    let t = trim_front(line);
    assert(0x30 <= t.last() <= 0x39);
    assert(ws_back(t) == 0);
}

/// The line of a pair: `key`, a space, `value` in decimal and a line feed.
/// Where `key` holds no space, the line without its line feed reads back
/// as the pair.
pub fn format_kv_line(key: &[u8], value: u64) -> (r: Vec<u8>)
    ensures
        r@ == kv_line(key@, value),
        (forall|i: int| 0 <= i < key@.len() ==> key@[i] != 0x20) ==> reads_back(
            r@.drop_last(),
            key@,
            value,
        ),
{
    let mut r: Vec<u8> = Vec::new();
    let mut i: usize = 0;
    while i < key.len()
        invariant
            i <= key@.len(),
            r@ == key@.take(i as int),
        decreases key@.len() - i,
    {
        r.push(key[i]);
        i = i + 1;
        assert(r@ =~= key@.take(i as int));
    }
    assert(key@.take(key@.len() as int) =~= key@);
    r.push(0x20);
    let mut digits: Vec<u8> = Vec::new();
    let mut x: u64 = value;
    while x >= 10
        invariant
            decimal_digits(value as nat) == decimal_digits(x as nat) + digits@,
        decreases x,
    {
        let d = (x % 10) as u8 + 0x30;
        let ghost old_digits = digits@;
        digits.insert(0, d);
        proof {
            assert(decimal_digits(x as nat) == decimal_digits((x / 10) as nat).push(d));
            assert(decimal_digits((x / 10) as nat).push(d) + old_digits =~= decimal_digits(
                (x / 10) as nat,
            ) + digits@);
        }
        x = x / 10;
    }
    assert(decimal_digits(x as nat) == seq![(x + 0x30) as u8]);
    r.push(x as u8 + 0x30);
    let ghost before = r@;
    let mut j: usize = 0;
    while j < digits.len()
        invariant
            j <= digits@.len(),
            r@ == before + digits@.take(j as int),
        decreases digits@.len() - j,
    {
        r.push(digits[j]);
        j = j + 1;
        assert(r@ =~= before + digits@.take(j as int));
    }
    assert(digits@.take(digits@.len() as int) =~= digits@);
    r.push(0x0a);
    assert(r@ =~= kv_line(key@, value));
    proof {
        if forall|i: int| 0 <= i < key@.len() ==> key@[i] != 0x20 {
            lemma_kv_line_reads_back(key@, value);
        }
    }
    r
}

} // verus!

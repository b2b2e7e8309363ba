//! Text forms of keys and values: how each is written into a snapshot and
//! read back from one.
use vstd::prelude::*;

verus! {

broadcast use vstd::string::group_string_axioms;

/// Relies on `String`'s `FromIterator<&char>`: the characters are collected
/// in order.
#[verifier::external_body]
pub(crate) fn string_from_chars(cs: &[char]) -> (r: String)
    ensures
        r@ == cs@,
{
    cs.iter().collect()
}

/// The characters of `s`, in order.
pub fn chars_of(s: &str) -> (r: Vec<char>)
    ensures
        r@ == s@,
{
    let mut out: Vec<char> = Vec::new();
    for c in it: s.chars()
        invariant
            out@ == it.history(),
    {
        out.push(c);
    }
    out
}

/// A type that has a text form in a snapshot and can be read back from it.
pub trait TextForm: View + Sized {
    /// The text written for a value with view `v`.
    spec fn text_of(v: Self::V) -> Seq<char>;

    /// The value read from text `t`, if `t` is well formed.
    spec fn parse_text(t: Seq<char>) -> Option<Self::V>;

    fn to_text(&self) -> (r: Vec<char>)
        ensures
            r@ == Self::text_of(self@),
    ;

    fn from_text(t: &[char]) -> (r: Option<Self>)
        ensures
            match r {
                Some(x) => Self::parse_text(t@) == Some(x@),
                None => Self::parse_text(t@) is None,
            },
    ;

    /// Reading back the text of a value gives the value.
    proof fn lemma_text_round_trip(v: Self::V)
        ensures
            Self::parse_text(Self::text_of(v)) == Some(v),
    ;
}

impl TextForm for String {
    open spec fn text_of(v: Seq<char>) -> Seq<char> {
        v
    }

    open spec fn parse_text(t: Seq<char>) -> Option<Seq<char>> {
        Some(t)
    }

    fn to_text(&self) -> (r: Vec<char>) {
        chars_of(self.as_str())
    }

    fn from_text(t: &[char]) -> (r: Option<Self>) {
        Some(string_from_chars(t))
    }

    proof fn lemma_text_round_trip(v: Seq<char>) {
    }
}

pub open spec fn is_digit(c: char) -> bool {
    '0' <= c <= '9'
}

pub open spec fn digit_char(d: nat) -> char {
    ((d + 48) as u8) as char
}

/// The decimal digits of `n`, most significant first, without leading zeros.
pub open spec fn digits_of(n: nat) -> Seq<char>
    decreases n,
{
    if n < 10 {
        seq![digit_char(n)]
    } else {
        digits_of(n / 10).push(digit_char(n % 10))
    }
}

/// The number that a string of decimal digits denotes.
pub open spec fn digits_value(t: Seq<char>) -> nat
    decreases t.len(),
{
    if t.len() == 0 {
        0
    } else {
        10 * digits_value(t.drop_last()) + (t.last() as nat - 48) as nat
    }
}

/// The decimal text of `x`: a minus sign for negative numbers, then digits.
pub open spec fn decimal_text(x: int) -> Seq<char> {
    if x < 0 {
        seq!['-'] + digits_of((-x) as nat)
    } else {
        digits_of(x as nat)
    }
}

/// Whether `t` begins with a sign.
pub open spec fn has_sign(t: Seq<char>) -> bool {
    t.len() > 0 && (t[0] == '-' || t[0] == '+')
}

/// `t` without its sign, if it has one.
pub open spec fn unsigned_part(t: Seq<char>) -> Seq<char> {
    if has_sign(t) {
        t.skip(1)
    } else {
        t
    }
}

pub open spec fn all_digits(d: Seq<char>) -> bool {
    forall|i: int| 0 <= i < d.len() ==> is_digit(#[trigger] d[i])
}

/// The number written in `t`: an optional `+` or `-`, then one or more
/// decimal digits.
pub open spec fn decimal_value(t: Seq<char>) -> Option<int> {
    let d = unsigned_part(t);
    if d.len() > 0 && all_digits(d) {
        if has_sign(t) && t[0] == '-' {
            Some(-digits_value(d))
        } else {
            Some(digits_value(d) as int)
        }
    } else {
        None
    }
}

proof fn lemma_digit_char(d: nat)
    requires
        d < 10,
    ensures
        digit_char(d) as nat == d + 48,
        is_digit(digit_char(d)),
{
    let b = (d + 48) as u8;
    assert(b as nat == d + 48);
    assert((b as char) as nat == b as nat);
}

proof fn lemma_digits_of(n: nat)
    ensures
        digits_of(n).len() > 0,
        all_digits(digits_of(n)),
        digits_value(digits_of(n)) == n,
    decreases n,
{
    lemma_digit_char(n % 10);
    if n < 10 {
        assert(digits_of(n).drop_last() =~= Seq::<char>::empty());
        assert(digits_value(Seq::<char>::empty()) == 0);
    } else {
        lemma_digits_of(n / 10);
        let d = digits_of(n);
        assert(d.drop_last() =~= digits_of(n / 10));
        assert(d.last() == digit_char(n % 10));
        assert(n == 10 * (n / 10) + n % 10);
        assert forall|i: int| 0 <= i < d.len() implies is_digit(#[trigger] d[i]) by {
            if i < d.len() - 1 {
                assert(d[i] == digits_of(n / 10)[i]);
            }
        }
    }
}

/// The decimal text of any integer reads back as that integer.
pub proof fn lemma_decimal_round_trip(x: int)
    ensures
        decimal_value(decimal_text(x)) == Some(x),
{
    let m: nat = if x < 0 { (-x) as nat } else { x as nat };
    lemma_digits_of(m);
    let t = decimal_text(x);
    if x < 0 {
        assert(t.skip(1) =~= digits_of(m));
    } else {
        assert(is_digit(t[0]));
    }
}

proof fn lemma_digits_value_step(t: Seq<char>, a: int, i: int)
    requires
        0 <= a <= i < t.len(),
    ensures
        digits_value(t.subrange(a, i + 1)) == 10 * digits_value(t.subrange(a, i)) + (
        t[i] as nat - 48) as nat,
{
    assert(t.subrange(a, i + 1).drop_last() =~= t.subrange(a, i));
}

/// A string of digits denotes at least as much as any of its prefixes.
proof fn lemma_digits_value_prefix(t: Seq<char>, i: int)
    requires
        0 <= i <= t.len(),
        all_digits(t),
    ensures
        digits_value(t.take(i)) <= digits_value(t),
    decreases t.len(),
{
    if i < t.len() {
        let u = t.drop_last();
        assert(u.take(i) =~= t.take(i));
        assert forall|j: int| 0 <= j < u.len() implies is_digit(#[trigger] u[j]) by {
            assert(u[j] == t[j]);
        }
        lemma_digits_value_prefix(u, i);
    } else {
        assert(t.take(i) =~= t);
    }
}

/// Appends the decimal digits of `n` to `out`.
fn push_digits(n: u64, out: &mut Vec<char>)
    ensures
        final(out)@ == old(out)@ + digits_of(n as nat),
    decreases n,
{
    if n >= 10 {
        push_digits(n / 10, out);
    }
    let d: u8 = (n % 10) as u8;
    out.push((d + 48) as char);
    assert(final(out)@ =~= old(out)@ + digits_of(n as nat));
}

/// The decimal text of `x`.
pub fn decimal_chars(x: i64) -> (r: Vec<char>)
    ensures
        r@ == decimal_text(x as int),
{
    let mut out: Vec<char> = Vec::new();
    if x < 0 {
        out.push('-');
        push_digits((-(x as i128)) as u64, &mut out);
    } else {
        push_digits(x as u64, &mut out);
    }
    assert(out@ =~= decimal_text(x as int));
    out
}

/// Reads the number written in `t` when it lies between `min` and `max`.
pub fn read_decimal(t: &[char], min: i64, max: i64) -> (r: Option<i64>)
    requires
        min <= 0 <= max,
    ensures
        match r {
            Some(y) => decimal_value(t@) == Some(y as int) && min <= y <= max,
            None => !(decimal_value(t@) matches Some(x) && min <= x <= max),
        },
{
    let n = t.len();
    if n == 0 {
        return None;
    }
    let neg = t[0] == '-';
    let start: usize = if t[0] == '-' || t[0] == '+' { 1 } else { 0 };
    let ghost d = t@.subrange(start as int, n as int);
    assert(d =~= unsigned_part(t@));
    if start >= n {
        return None;
    }
    let limit: u128 = if neg { (-(min as i128)) as u128 } else { max as u128 };
    let mut acc: u128 = 0;
    let mut i: usize = start;
    while i < n
        invariant
            start <= i <= n == t@.len(),
            d == t@.subrange(start as int, n as int),
            d == unsigned_part(t@),
            neg == (t@[0] == '-'),
            start == (if t@[0] == '-' || t@[0] == '+' { 1usize } else { 0usize }),
            min <= 0 <= max,
            limit == (if neg { -min } else { max as int }),
            acc == digits_value(t@.subrange(start as int, i as int)),
            acc <= limit <= 0x8000_0000_0000_0000,
            forall|j: int| start <= j < i ==> is_digit(#[trigger] t@[j]),
        decreases n - i,
    {
        let c = t[i];
        if !('0' <= c && c <= '9') {
            assert(!is_digit(d[i - start]));
            return None;
        }
        proof {
            lemma_digits_value_step(t@, start as int, i as int);
        }
        acc = acc * 10 + ((c as u32) - 48) as u128;
        i = i + 1;
        if acc > limit {
            proof {
                if all_digits(d) {
                    assert(d.take(i - start) =~= t@.subrange(start as int, i as int));
                    lemma_digits_value_prefix(d, i - start);
                }
            }
            return None;
        }
    }
    assert(t@.subrange(start as int, i as int) =~= d);
    assert forall|j: int| 0 <= j < d.len() implies is_digit(#[trigger] d[j]) by {
        assert(d[j] == t@[start + j]);
    }
    if neg {
        Some((-(acc as i128)) as i64)
    } else {
        Some(acc as i64)
    }
}

impl TextForm for i32 {
    open spec fn text_of(v: i32) -> Seq<char> {
        decimal_text(v as int)
    }

    open spec fn parse_text(t: Seq<char>) -> Option<i32> {
        match decimal_value(t) {
            Some(x) => if i32::MIN <= x <= i32::MAX {
                Some(x as i32)
            } else {
                None
            },
            None => None,
        }
    }

    fn to_text(&self) -> (r: Vec<char>) {
        decimal_chars(*self as i64)
    }

    fn from_text(t: &[char]) -> (r: Option<Self>) {
        match read_decimal(t, i32::MIN as i64, i32::MAX as i64) {
            Some(y) => Some(y as i32),
            None => None,
        }
    }

    proof fn lemma_text_round_trip(v: i32) {
        lemma_decimal_round_trip(v as int);
    }
}

impl TextForm for i64 {
    open spec fn text_of(v: i64) -> Seq<char> {
        decimal_text(v as int)
    }

    open spec fn parse_text(t: Seq<char>) -> Option<i64> {
        match decimal_value(t) {
            Some(x) => if i64::MIN <= x <= i64::MAX {
                Some(x as i64)
            } else {
                None
            },
            None => None,
        }
    }

    fn to_text(&self) -> (r: Vec<char>) {
        decimal_chars(*self)
    }

    fn from_text(t: &[char]) -> (r: Option<Self>) {
        read_decimal(t, i64::MIN, i64::MAX)
    }

    proof fn lemma_text_round_trip(v: i64) {
        lemma_decimal_round_trip(v as int);
    }
}

impl TextForm for u32 {
    open spec fn text_of(v: u32) -> Seq<char> {
        decimal_text(v as int)
    }

    /// No minus sign, not even before zero.
    open spec fn parse_text(t: Seq<char>) -> Option<u32> {
        if t.len() > 0 && t[0] == '-' {
            None
        } else {
            match decimal_value(t) {
                Some(x) => if 0 <= x <= u32::MAX {
                    Some(x as u32)
                } else {
                    None
                },
                None => None,
            }
        }
    }

    fn to_text(&self) -> (r: Vec<char>) {
        decimal_chars(*self as i64)
    }

    fn from_text(t: &[char]) -> (r: Option<Self>) {
        if t.len() > 0 && t[0] == '-' {
            return None;
        }
        match read_decimal(t, 0, u32::MAX as i64) {
            Some(y) => Some(y as u32),
            None => None,
        }
    }

    proof fn lemma_text_round_trip(v: u32) {
        lemma_decimal_round_trip(v as int);
    }
}

} // verus!

//! Character-level helpers shared by the script encoders and decoders.

use vstd::prelude::*;
use vstd::std_specs::iter::IteratorSpec;

verus! {

broadcast use vstd::string::group_string_axioms;

/// The characters of `s`, in order.
pub fn chars_of(s: &str) -> (r: Vec<char>)
    ensures
        r@ == s@,
{
    let mut r: Vec<char> = Vec::new();
    for c in it: s.chars()
        invariant
            r@ == it.seq().take(it.index() as int),
            it.seq() == s@,
    {
        r.push(c);
    }
    r
}

/// Relies on `String::from_iter` over `&char`: the string holds the characters in order.
#[verifier::external_body]
pub(crate) fn string_of(v: &Vec<char>) -> (r: String)
    ensures
        r@ == v@,
{
    String::from_iter(v.iter())
}

} // verus!

verus! {

/// Why a piece of script text could not be read.
#[derive(Debug, Clone, Copy, PartialEq, Eq, Structural)]
pub enum ParseError {
    /// The character at this position stands for no score entry.
    InvalidEntry(usize),
    /// The line at this position (counted from zero) is not in the expected shape.
    MalformedLine(usize),
}

} // verus!

verus! {

/// Characters that separate tokens without meaning anything.
pub open spec fn is_space(c: char) -> bool {
    c == ' ' || c == '\t' || c == '\n' || c == '\r'
}

pub fn is_space_char(c: char) -> (r: bool)
    ensures
        r == is_space(c),
{
    c == ' ' || c == '\t' || c == '\n' || c == '\r'
}

} // verus!

verus! {

/// The decimal digit character for `d < 10`.
pub open spec fn digit_char(d: nat) -> char {
    if d == 0 {
        '0'
    } else if d == 1 {
        '1'
    } else if d == 2 {
        '2'
    } else if d == 3 {
        '3'
    } else if d == 4 {
        '4'
    } else if d == 5 {
        '5'
    } else if d == 6 {
        '6'
    } else if d == 7 {
        '7'
    } else if d == 8 {
        '8'
    } else {
        '9'
    }
}

/// The value of a decimal digit character, if it is one.
pub open spec fn digit_value(c: char) -> Option<nat> {
    if '0' <= c && c <= '9' {
        Some((c as nat - '0' as nat) as nat)
    } else {
        None
    }
}

/// Decimal text of `n`, without leading zeros.
pub open spec fn dec(n: nat) -> Seq<char>
    decreases n,
{
    if n < 10 {
        seq![digit_char(n)]
    } else {
        dec(n / 10).push(digit_char(n % 10))
    }
}

/// The value of a nonempty run of decimal digits.
pub open spec fn dec_value(t: Seq<char>) -> Option<nat>
    decreases t.len(),
{
    if t.len() == 0 {
        None
    } else {
        match digit_value(t.last()) {
            None => None,
            Some(d) => if t.len() == 1 {
                Some(d)
            } else {
                match dec_value(t.drop_last()) {
                    None => None,
                    Some(v) => Some(v * 10 + d),
                }
            },
        }
    }
}

pub proof fn lemma_digit(d: nat)
    requires
        d < 10,
    ensures
        digit_value(digit_char(d)) == Some(d),
        digit_char(d) != ':' && digit_char(d) != ',' && digit_char(d) != '.',
        !is_space(digit_char(d)),
        digit_char(d) != '\n',
{
}

/// Reading decimal text gives back the number.
pub proof fn lemma_dec_round_trip(n: nat)
    ensures
        dec_value(dec(n)) == Some(n),
        dec(n).len() > 0,
        forall|i: int| 0 <= i < dec(n).len() ==> #[trigger] digit_value(dec(n)[i]) is Some,
    decreases n,
{
    if n < 10 {
        lemma_digit(n);
    } else {
        lemma_dec_round_trip(n / 10);
        lemma_digit(n % 10);
        assert(dec(n).drop_last() == dec(n / 10));
        let t = dec(n);
        assert forall|i: int| 0 <= i < t.len() implies #[trigger] digit_value(t[i]) is Some by {
            if i < t.len() - 1 {
                assert(t[i] == dec(n / 10)[i]);
            }
        }
    }
}

pub fn digit_to_char(d: u64) -> (c: char)
    requires
        d < 10,
    ensures
        c == digit_char(d as nat),
{
    if d == 0 {
        '0'
    } else if d == 1 {
        '1'
    } else if d == 2 {
        '2'
    } else if d == 3 {
        '3'
    } else if d == 4 {
        '4'
    } else if d == 5 {
        '5'
    } else if d == 6 {
        '6'
    } else if d == 7 {
        '7'
    } else if d == 8 {
        '8'
    } else {
        '9'
    }
}

/// Appends the decimal text of `n`.
pub fn push_dec(out: &mut Vec<char>, n: u64)
    ensures
        final(out)@ == old(out)@ + dec(n as nat),
    decreases n,
{
    if n >= 10 {
        push_dec(out, n / 10);
    }
    out.push(digit_to_char(n % 10));
    proof {
        if n >= 10 {
            assert(old(out)@ + dec(n as nat) == old(out)@ + dec((n / 10) as nat) + seq![digit_char((n % 10) as nat)]);
        }
    }
}

} // verus!

verus! {

/// Index of the first `c` in `t`, if any.
pub open spec fn find_char(t: Seq<char>, c: char) -> Option<int>
    decreases t.len(),
{
    if t.len() == 0 {
        None
    } else {
        match find_char(t.drop_last(), c) {
            Some(i) => Some(i),
            None => if t.last() == c {
                Some(t.len() - 1)
            } else {
                None
            },
        }
    }
}

/// `t` without leading spaces.
pub open spec fn trim_start(t: Seq<char>) -> Seq<char>
    decreases t.len(),
{
    if t.len() > 0 && is_space(t[0]) {
        trim_start(t.drop_first())
    } else {
        t
    }
}

/// `t` without trailing spaces.
pub open spec fn trim_end(t: Seq<char>) -> Seq<char>
    decreases t.len(),
{
    if t.len() > 0 && is_space(t.last()) {
        trim_end(t.drop_last())
    } else {
        t
    }
}

pub open spec fn trim(t: Seq<char>) -> Seq<char> {
    trim_end(trim_start(t))
}

proof fn lemma_trim_start_len(t: Seq<char>)
    ensures
        trim_start(t).len() <= t.len(),
    decreases t.len(),
{
    if t.len() > 0 && is_space(t[0]) {
        lemma_trim_start_len(t.drop_first());
    }
}

proof fn lemma_trim_end_len(t: Seq<char>)
    ensures
        trim_end(t).len() <= t.len(),
    decreases t.len(),
{
    if t.len() > 0 && is_space(t.last()) {
        lemma_trim_end_len(t.drop_last());
    }
}

pub proof fn lemma_trim_len(t: Seq<char>)
    ensures
        trim(t).len() <= t.len(),
{
    lemma_trim_start_len(t);
    lemma_trim_end_len(trim_start(t));
}

/// A decimal number that fits in 32 bits.
pub open spec fn dec_u32(t: Seq<char>) -> Option<u32> {
    match dec_value(t) {
        Some(v) => if v <= u32::MAX {
            Some(v as u32)
        } else {
            None
        },
        None => None,
    }
}

/// A tempo in tenths: digits, optionally followed by a point and one digit.
pub open spec fn tempo_value(t: Seq<char>) -> Option<u32> {
    match find_char(t, '.') {
        None => match dec_value(t) {
            Some(v) => if v * 10 <= u32::MAX {
                Some((v * 10) as u32)
            } else {
                None
            },
            None => None,
        },
        Some(p) => if p + 2 == t.len() {
            match (dec_value(t.take(p)), digit_value(t[p + 1])) {
                (Some(v), Some(d)) => if v * 10 + d <= u32::MAX {
                    Some((v * 10 + d) as u32)
                } else {
                    None
                },
                _ => None,
            }
        } else {
            None
        },
    }
}

pub fn find_char_in(t: &Vec<char>, c: char) -> (r: Option<usize>)
    ensures
        r matches Some(i) ==> find_char(t@, c) == Some(i as int) && i < t@.len(),
        r is None ==> find_char(t@, c) is None,
{
    let n = t.len();
    for i in 0..n
        invariant
            n == t@.len(),
            find_char(t@.take(i as int), c) is None,
    {
        assert(t@.take(i + 1).drop_last() == t@.take(i as int));
        if t[i] == c {
            proof {
                lemma_find_char_extends(t@, (i + 1) as int, c);
            }
            return Some(i);
        }
    }
    assert(t@.take(n as int) == t@);
    None
}

proof fn lemma_find_char_extends(t: Seq<char>, m: int, c: char)
    requires
        0 <= m <= t.len(),
        find_char(t.take(m), c) is Some,
    ensures
        find_char(t, c) == find_char(t.take(m), c),
    decreases t.len() - m,
{
    if m < t.len() {
        assert(t.take(m + 1).drop_last() == t.take(m));
        lemma_find_char_extends(t, m + 1, c);
    } else {
        assert(t.take(m) == t);
    }
}

pub fn trim_chars(t: &Vec<char>) -> (r: Vec<char>)
    ensures
        r@ == trim(t@),
{
    let n = t.len();
    let mut a: usize = 0;
    assert(t@.skip(0) == t@);
    while a < n && is_space_char(t[a])
        invariant
            a <= n,
            n == t@.len(),
            trim_start(t@.skip(a as int)) == trim_start(t@),
        decreases n - a,
    {
        assert(t@.skip(a as int).drop_first() == t@.skip(a + 1));
        a = a + 1;
    }
    let ghost s = t@.skip(a as int);
    assert(trim_start(s) == s);
    let mut b: usize = n;
    while b > a && is_space_char(t[b - 1])
        invariant
            a <= b <= n,
            n == t@.len(),
            s == t@.skip(a as int),
            trim_end(t@.subrange(a as int, b as int)) == trim_end(s),
        decreases b,
    {
        assert(t@.subrange(a as int, b as int).drop_last() == t@.subrange(a as int, b - 1));
        b = b - 1;
    }
    assert(s == t@.subrange(a as int, n as int));
    let mut r: Vec<char> = Vec::new();
    for i in a..b
        invariant
            a <= b <= n,
            n == t@.len(),
            r@ == t@.subrange(a as int, i as int),
    {
        r.push(t[i]);
        assert(r@ == t@.subrange(a as int, i + 1));
    }
    r
}

/// Reads the decimal number in `t[from..to]`, if it fits in 32 bits.
pub fn parse_dec_u32(t: &Vec<char>, from: usize, to: usize) -> (r: Option<u32>)
    requires
        from <= to <= t@.len(),
    ensures
        r == dec_u32(t@.subrange(from as int, to as int)),
{
    if from == to {
        return None;
    }
    let mut acc: u64 = 0;
    let mut i: usize = from;
    while i < to
        invariant
            from <= i <= to <= t@.len(),
            from < to,
            i > from ==> dec_value(t@.subrange(from as int, i as int)) == Some(acc as nat),
            i == from ==> acc == 0,
            acc <= u32::MAX,
            forall|k: int| from <= k < i ==> digit_value(#[trigger] t@[k]) is Some,
        decreases to - i,
    {
        let c = t[i];
        let ghost sub = t@.subrange(from as int, i + 1);
        assert(sub.drop_last() == t@.subrange(from as int, i as int));
        if c < '0' || c > '9' {
            proof {
                lemma_dec_value_bad_digit(t@.subrange(from as int, to as int), i - from);
            }
            return None;
        }
        let d = (c as u32 - '0' as u32) as u64;
        assert(digit_value(c) == Some(d as nat));
        assert(sub.last() == c);
        if i == from {
            assert(dec_value(sub) == Some(d as nat));
        } else {
            assert(dec_value(sub) == Some((acc * 10 + d) as nat));
        }
        acc = acc * 10 + d;
        if acc > u32::MAX as u64 {
            proof {
                let w = t@.subrange(from as int, to as int);
                assert(w.take(i + 1 - from) == sub);
                if dec_value(w) is Some {
                    lemma_dec_value_mono(w, i + 1 - from);
                }
            }
            return None;
        }
        i = i + 1;
    }
    Some(acc as u32)
}

proof fn lemma_dec_value_bad_digit(t: Seq<char>, k: int)
    requires
        0 <= k < t.len(),
        digit_value(t[k]) is None,
    ensures
        dec_value(t) is None,
    decreases t.len(),
{
    if k < t.len() - 1 {
        lemma_dec_value_bad_digit(t.drop_last(), k);
    }
}

proof fn lemma_dec_value_mono(t: Seq<char>, m: int)
    requires
        0 < m <= t.len(),
        dec_value(t) is Some,
    ensures
        dec_value(t.take(m)) is Some,
        dec_value(t.take(m))->0 <= dec_value(t)->0,
    decreases t.len(),
{
    if m == t.len() {
        assert(t.take(m) == t);
    } else {
        let d = t.drop_last();
        assert(d.take(m) == t.take(m));
        lemma_dec_value_mono(d, m);
    }
}

} // verus!

verus! {

/// Whether two texts hold the same characters.
pub fn str_eq(a: &str, b: &str) -> (r: bool)
    ensures
        r == (a@ == b@),
{
    let x = chars_of(a);
    let y = chars_of(b);
    if x.len() != y.len() {
        return false;
    }
    let n = x.len();
    for i in 0..n
        invariant
            n == x@.len(),
            n == y@.len(),
            x@ == a@,
            y@ == b@,
            forall|j: int| 0 <= j < i ==> x@[j] == y@[j],
    {
        if x[i] != y[i] {
            assert(x@[i as int] != y@[i as int]);
            return false;
        }
    }
    assert(x@ == y@);
    true
}

} // verus!

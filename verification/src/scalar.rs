//! The canonical text of booleans and integers, and how text is read back.

use crate::strings::chars_of;
use vstd::prelude::*;

verus! {

/// The character that stands for the decimal digit `d`.
pub open spec fn digit_char(d: int) -> char {
    if d == 0 {
        '0'
    } else if d == 1 {
        '1'
    } else if d == 2 {
        '2'
    } else if d == 3 {
        '3'
    } else if d == 4 {
        '4'
    } else if d == 5 {
        '5'
    } else if d == 6 {
        '6'
    } else if d == 7 {
        '7'
    } else if d == 8 {
        '8'
    } else {
        '9'
    }
}

/// Whether `c` is one of the ten decimal digits.
pub open spec fn is_digit(c: char) -> bool {
    c == '0' || c == '1' || c == '2' || c == '3' || c == '4' || c == '5' || c == '6' || c == '7'
        || c == '8' || c == '9'
}

/// The number that the decimal digit `c` stands for (0 for any other
/// character).
pub open spec fn digit_value(c: char) -> int {
    if c == '1' {
        1
    } else if c == '2' {
        2
    } else if c == '3' {
        3
    } else if c == '4' {
        4
    } else if c == '5' {
        5
    } else if c == '6' {
        6
    } else if c == '7' {
        7
    } else if c == '8' {
        8
    } else if c == '9' {
        9
    } else {
        0
    }
}

/// The decimal digits of `n`, most significant first, without leading zeros.
pub open spec fn digits(n: nat) -> Seq<char>
    decreases n,
{
    if n < 10 {
        seq![digit_char(n as int)]
    } else {
        digits(n / 10).push(digit_char((n % 10) as int))
    }
}

/// The canonical text of an integer: a minus sign for a negative number,
/// then its decimal digits.
pub open spec fn int_text(n: int) -> Seq<char> {
    if n < 0 {
        seq!['-'] + digits((-n) as nat)
    } else {
        digits(n as nat)
    }
}

/// The canonical text of a boolean.
pub open spec fn bool_text(b: bool) -> Seq<char> {
    if b {
        seq!['t', 'r', 'u', 'e']
    } else {
        seq!['f', 'a', 'l', 's', 'e']
    }
}

/// Whether every character of `ds` is a decimal digit.
pub open spec fn all_digits(ds: Seq<char>) -> bool {
    forall|i: int| 0 <= i < ds.len() ==> is_digit(#[trigger] ds[i])
}

/// The number that a sequence of decimal digits denotes.
pub open spec fn digits_value(ds: Seq<char>) -> nat
    decreases ds.len(),
{
    if ds.len() == 0 {
        0
    } else {
        (digits_value(ds.drop_last()) * 10 + digit_value(ds.last())) as nat
    }
}

/// The digits of an integer text: what follows its sign, if it has one.
pub open spec fn unsigned_part(t: Seq<char>) -> Seq<char> {
    if t.len() > 0 && (t[0] == '-' || t[0] == '+') {
        t.skip(1)
    } else {
        t
    }
}

/// The integer that `t` denotes: an optional sign, then one or more decimal
/// digits, with a value that a 64-bit signed integer can hold. `None` for any
/// other text.
pub open spec fn parse_int(t: Seq<char>) -> Option<int> {
    let ds = unsigned_part(t);
    let m = digits_value(ds) as int;
    let n = if t.len() > 0 && t[0] == '-' {
        -m
    } else {
        m
    };
    if ds.len() > 0 && all_digits(ds) && i64::MIN <= n <= i64::MAX {
        Some(n)
    } else {
        None
    }
}

/// The boolean that `t` denotes: `true` or `false`, in lower case.
pub open spec fn parse_bool(t: Seq<char>) -> Option<bool> {
    if t == bool_text(true) {
        Some(true)
    } else if t == bool_text(false) {
        Some(false)
    } else {
        None
    }
}

/// The digits of a number are digits, and denote that number.
pub proof fn lemma_digits_value(n: nat)
    ensures
        digits(n).len() > 0,
        all_digits(digits(n)),
        digits_value(digits(n)) == n,
        digits(n)[0] != '-',
        digits(n)[0] != '+',
    decreases n,
{
    if n < 10 {
        assert(digits(n).drop_last() =~= Seq::<char>::empty());
        assert(digits_value(digits(n).drop_last()) == 0);
    } else {
        lemma_digits_value(n / 10);
        let d = digits(n / 10);
        assert(digits(n).drop_last() =~= d);
        assert(digits(n).last() == digit_char((n % 10) as int));
        assert(digits(n)[0] == d[0]);
        assert forall|i: int| 0 <= i < digits(n).len() implies is_digit(
            #[trigger] digits(n)[i],
        ) by {
            if i < d.len() {
                assert(digits(n)[i] == d[i]);
            }
        }
    }
}

/// Reading the canonical text of an integer gives the integer back.
pub proof fn lemma_parse_int_text(n: int)
    requires
        i64::MIN <= n <= i64::MAX,
    ensures
        parse_int(int_text(n)) == Some(n),
{
    if n < 0 {
        lemma_digits_value((-n) as nat);
        let t = int_text(n);
        assert(t[0] == '-');
        assert(t.skip(1) =~= digits((-n) as nat));
    } else {
        lemma_digits_value(n as nat);
    }
}

/// Reading the canonical text of a boolean gives the boolean back.
pub proof fn lemma_parse_bool_text(b: bool)
    ensures
        parse_bool(bool_text(b)) == Some(b),
{
    assert(bool_text(true).len() == 4);
    assert(bool_text(false).len() == 5);
}

/// A longer sequence of digits denotes no smaller a number than its prefix.
pub proof fn lemma_digits_value_monotone(ds: Seq<char>, k: int)
    requires
        0 <= k <= ds.len(),
    ensures
        digits_value(ds.take(k)) <= digits_value(ds),
    decreases ds.len(),
{
    if k == ds.len() {
        assert(ds.take(k) =~= ds);
    } else {
        lemma_digits_value_monotone(ds.drop_last(), k);
        assert(ds.drop_last().take(k) =~= ds.take(k));
    }
}

fn digit_of(d: u64) -> (c: char)
    requires
        d < 10,
    ensures
        c == digit_char(d as int),
{
    if d == 0 {
        '0'
    } else if d == 1 {
        '1'
    } else if d == 2 {
        '2'
    } else if d == 3 {
        '3'
    } else if d == 4 {
        '4'
    } else if d == 5 {
        '5'
    } else if d == 6 {
        '6'
    } else if d == 7 {
        '7'
    } else if d == 8 {
        '8'
    } else {
        '9'
    }
}

fn value_of(c: char) -> (d: Option<u64>)
    ensures
        d is Some <==> is_digit(c),
        d is Some ==> d->0 == digit_value(c),
{
    if c == '0' {
        Some(0)
    } else if c == '1' {
        Some(1)
    } else if c == '2' {
        Some(2)
    } else if c == '3' {
        Some(3)
    } else if c == '4' {
        Some(4)
    } else if c == '5' {
        Some(5)
    } else if c == '6' {
        Some(6)
    } else if c == '7' {
        Some(7)
    } else if c == '8' {
        Some(8)
    } else if c == '9' {
        Some(9)
    } else {
        None
    }
}

fn push_digits(s: &mut String, m: u64)
    ensures
        final(s)@ == old(s)@ + digits(m as nat),
    decreases m,
{
    if m >= 10 {
        push_digits(s, m / 10);
    }
    s.push(digit_of(m % 10));
    proof {
        if m >= 10 {
            assert(old(s)@ + digits(m as nat) =~= (old(s)@ + digits((m / 10) as nat)).push(
                digit_char((m % 10) as int),
            ));
        } else {
            assert(old(s)@ + digits(m as nat) =~= old(s)@.push(digit_char(m as int)));
        }
    }
}

/// Writes an integer in its canonical text.
pub fn format_int(n: i64) -> (r: String)
    ensures
        r@ == int_text(n as int),
{
    let mut s = String::new();
    if n < 0 {
        s.push('-');
        let m: u64 = ((-(n + 1)) as u64) + 1;
        push_digits(&mut s, m);
        proof {
            assert(s@ =~= int_text(n as int));
        }
    } else {
        push_digits(&mut s, n as u64);
        proof {
            assert(s@ =~= int_text(n as int));
        }
    }
    s
}

/// Writes a boolean in its canonical text.
pub fn format_bool(b: bool) -> (r: String)
    ensures
        r@ == bool_text(b),
{
    let mut s = String::new();
    if b {
        s.push('t');
        s.push('r');
        s.push('u');
        s.push('e');
    } else {
        s.push('f');
        s.push('a');
        s.push('l');
        s.push('s');
        s.push('e');
    }
    proof {
        assert(s@ =~= bool_text(b));
    }
    s
}

/// Reads an integer from text.
pub fn read_int(text: &str) -> (r: Option<i64>)
    ensures
        r is Some <==> parse_int(text@) is Some,
        r is Some ==> r->0 as int == parse_int(text@)->0,
{
    let t = chars_of(text);
    let n = t.len();
    let negative = n > 0 && t[0] == '-';
    let start: usize = if n > 0 && (t[0] == '-' || t[0] == '+') {
        1
    } else {
        0
    };
    let ghost ds = unsigned_part(t@);
    assert(ds =~= t@.skip(start as int));
    if start == n {
        return None;
    }
    // The magnitude of the least 64-bit integer.
    let limit: u64 = 9223372036854775808;
    let mut acc: u64 = 0;
    let mut i: usize = start;
    while i < n
        invariant
            start <= i <= n,
            n == t@.len(),
            t@ == text@,
            ds == unsigned_part(t@),
            ds == t@.skip(start as int),
            limit == 9223372036854775808,
            acc <= limit,
            acc == digits_value(ds.take(i - start)),
            all_digits(ds.take(i - start)),
        decreases n - i,
    {
        let ghost before = ds.take(i - start);
        let ghost after = ds.take(i - start + 1);
        proof {
            assert(after.drop_last() =~= before);
            assert(after.last() == t@[i as int]);
        }
        match value_of(t[i]) {
            None => {
                proof {
                    assert(ds[i - start] == t@[i as int]);
                    assert(!all_digits(ds));
                }
                return None;
            },
            Some(d) => {
                proof {
                    assert forall|j: int| 0 <= j < after.len() implies is_digit(
                        #[trigger] after[j],
                    ) by {
                        if j < before.len() {
                            assert(after[j] == before[j]);
                        }
                    }
                }
                if acc > (limit - d) / 10 {
                    proof {
                        lemma_digits_value_monotone(ds, i - start + 1);
                        assert(digits_value(after) > limit);
                    }
                    return None;
                }
                acc = acc * 10 + d;
            },
        }
        i += 1;
    }
    proof {
        assert(ds.take(n - start) =~= ds);
    }
    if negative {
        if acc == limit {
            Some(i64::MIN)
        } else {
            Some(-(acc as i64))
        }
    } else if acc == limit {
        None
    } else {
        Some(acc as i64)
    }
}

/// Reads a boolean from text.
pub fn read_bool(text: &str) -> (r: Option<bool>)
    ensures
        r == parse_bool(text@),
{
    let t = chars_of(text);
    if t.len() == 4 && t[0] == 't' && t[1] == 'r' && t[2] == 'u' && t[3] == 'e' {
        proof {
            assert(t@ =~= bool_text(true));
        }
        Some(true)
    } else if t.len() == 5 && t[0] == 'f' && t[1] == 'a' && t[2] == 'l' && t[3] == 's' && t[4]
        == 'e' {
        proof {
            assert(t@ =~= bool_text(false));
        }
        Some(false)
    } else {
        proof {
            assert(bool_text(true).len() == 4);
            assert(bool_text(false).len() == 5);
        }
        None
    }
}

} // verus!

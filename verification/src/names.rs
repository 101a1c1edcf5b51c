//! The names of the segment files: `kvs_<N>.wal`, where `<N>` is the number
//! of the segment in decimal digits, without a sign and without leading
//! zeros.

use vstd::prelude::*;
use crate::text::{chars_of, string_of};

verus! {

/// The digit that stands for `d`, for `d` below ten.
pub open spec fn digit(d: nat) -> char {
    ((48 + d) as u8) as char
}

/// The decimal digits of `n`.
pub open spec fn decimal(n: nat) -> Seq<char>
    decreases n,
{
    if n < 10 {
        seq![digit(n)]
    } else {
        decimal(n / 10).push(digit(n % 10))
    }
}

/// The characters `kvs_`.
pub open spec fn name_head() -> Seq<char> {
    seq!['k', 'v', 's', '_']
}

/// The characters `.wal`.
pub open spec fn name_tail() -> Seq<char> {
    seq!['.', 'w', 'a', 'l']
}

/// The name of the file that holds segment `n`.
pub open spec fn wal_name(n: u64) -> Seq<char> {
    name_head() + decimal(n as nat) + name_tail()
}

/// The number that a digit stands for.
pub open spec fn digit_value(c: char) -> Option<nat> {
    if '0' <= c <= '9' {
        Some((c as u8 - 48) as nat)
    } else {
        None
    }
}

/// The number that a row of digits stands for, leading zeros allowed.
pub open spec fn number(s: Seq<char>) -> Option<nat>
    decreases s.len(),
{
    if s.len() == 0 {
        None
    } else {
        match digit_value(s.last()) {
            None => None,
            Some(d) => if s.len() == 1 {
                Some(d)
            } else {
                match number(s.drop_last()) {
                    Some(v) => Some(v * 10 + d),
                    None => None,
                }
            },
        }
    }
}

/// The digits of a number stand for that number, and start with a zero
/// only where the number is zero.
pub proof fn lemma_decimal(n: nat)
    ensures
        number(decimal(n)) == Some(n),
        decimal(n).len() >= 1,
        decimal(n).len() == 1 || decimal(n)[0] != '0',
    decreases n,
{
    if n < 10 {
        assert(digit_value(digit(n)) == Some(n));
    } else {
        lemma_decimal(n / 10);
        let s = decimal(n);
        assert(s.drop_last() =~= decimal(n / 10));
        assert(digit_value(digit(n % 10)) == Some(n % 10));
        assert(s[0] == decimal(n / 10)[0]);
        if decimal(n / 10).len() == 1 {
            assert(decimal(n / 10)[0] == digit(n / 10));
        }
    }
}

/// A row of digits without a leading zero is the row of digits of its number.
pub proof fn lemma_number_decimal(s: Seq<char>)
    requires
        number(s) is Some,
        s.len() == 1 || s[0] != '0',
    ensures
        s == decimal(number(s)->0),
    decreases s.len(),
{
    let d = digit_value(s.last())->0;
    assert(digit(d) == s.last());
    if s.len() == 1 {
        assert(s =~= seq![digit(d)]);
    } else {
        let t = s.drop_last();
        assert(t[0] == s[0]);
        lemma_number_decimal(t);
        let v = number(t)->0;
        if v == 0 {
            assert(t[0] == digit(0));
        }
        let n = v * 10 + d;
        assert(n / 10 == v && n % 10 == d);
        assert(s =~= t.push(s.last()));
    }
}

/// Every start of a row of digits is a row of digits, and stands for a
/// number that is not greater.
pub proof fn lemma_number_prefix(s: Seq<char>, i: int)
    requires
        number(s) is Some,
        1 <= i <= s.len(),
    ensures
        number(s.take(i)) is Some,
        number(s.take(i))->0 <= number(s)->0,
        digit_value(s[i - 1]) is Some,
    decreases s.len() - i,
{
    if i == s.len() {
        assert(s.take(i) =~= s);
    } else {
        lemma_number_prefix(s.drop_last(), i);
        assert(s.drop_last().take(i) =~= s.take(i));
    }
}

/// Different numbers have different file names.
pub proof fn lemma_wal_name_injective(a: u64, b: u64)
    requires
        wal_name(a) == wal_name(b),
    ensures
        a == b,
{
    lemma_decimal(a as nat);
    lemma_decimal(b as nat);
    let da = decimal(a as nat);
    let db = decimal(b as nat);
    assert(wal_name(a).len() == 8 + da.len());
    assert(wal_name(b).len() == 8 + db.len());
    assert(wal_name(a).subrange(4, (da.len() + 4) as int) =~= da);
    assert(wal_name(b).subrange(4, (db.len() + 4) as int) =~= db);
}

/// The number of the segment whose file has this name, if it is such a name.
pub open spec fn name_number(name: Seq<char>) -> Option<u64> {
    if exists|n: u64| name == wal_name(n) {
        Some(choose|n: u64| name == wal_name(n))
    } else {
        None
    }
}

/// The character of a digit.
fn digit_char(d: u8) -> (c: char)
    requires
        d < 10,
    ensures
        c == digit(d as nat),
{
    (48u8 + d) as char
}

/// The name of the file that holds segment `n`.
pub fn wal_file_name(n: u64) -> (name: String)
    ensures
        name@ == wal_name(n),
{
    let mut digits: Vec<char> = Vec::new();
    let mut m: u64 = n;
    loop
        invariant_except_break
            decimal(n as nat) == decimal(m as nat) + digits@,
        ensures
            digits@ == decimal(n as nat),
        decreases m,
    {
        let c = digit_char((m % 10) as u8);
        let ghost before = digits@;
        digits.insert(0, c);
        if m < 10 {
            proof {
                assert(digits@ =~= decimal(m as nat) + before);
            }
            break ;
        }
        proof {
            assert(decimal((m / 10) as nat) + digits@ =~= decimal(m as nat) + before);
        }
        m = m / 10;
    }
    let mut chars: Vec<char> = Vec::new();
    chars.push('k');
    chars.push('v');
    chars.push('s');
    chars.push('_');
    let mut i: usize = 0;
    while i < digits.len()
        invariant
            i <= digits@.len(),
            chars@ == name_head() + digits@.take(i as int),
        decreases digits@.len() - i,
    {
        chars.push(digits[i]);
        proof {
            assert(chars@ =~= name_head() + digits@.take(i + 1));
        }
        i += 1;
    }
    proof {
        assert(digits@.take(i as int) =~= digits@);
    }
    chars.push('.');
    chars.push('w');
    chars.push('a');
    chars.push('l');
    proof {
        assert(chars@ =~= wal_name(n));
    }
    string_of(chars.as_slice())
}

/// The number of the segment that the file `name` holds, or `None` where
/// `name` is no name of a segment file.
pub fn wal_file_number(name: &str) -> (r: Option<u64>)
    ensures
        r == name_number(name@),
        match r {
            Some(n) => name@ == wal_name(n),
            None => forall|n: u64| name@ != wal_name(n),
        },
{
    let r = number_in(name);
    proof {
        if let Some(n) = r {
            lemma_wal_name_injective(n, name_number(name@)->0);
        }
    }
    r
}

/// Reads the number out of a file name.
fn number_in(name: &str) -> (r: Option<u64>)
    ensures
        match r {
            Some(n) => name@ == wal_name(n),
            None => forall|n: u64| name@ != wal_name(n),
        },
{
    let chars = chars_of(name);
    let len = chars.len();
    proof {
        assert forall|n: u64| name@ == wal_name(n) implies name@.len() >= 9 && name@.subrange(
            0,
            4,
        ) == name_head() && name@.subrange(name@.len() - 4, name@.len() as int) == name_tail()
            && name@.subrange(4, name@.len() - 4) == decimal(n as nat) by {
            lemma_decimal(n as nat);
            assert(name@.subrange(0, 4) =~= name_head());
            assert(name@.subrange(name@.len() - 4, name@.len() as int) =~= name_tail());
            assert(name@.subrange(4, name@.len() - 4) =~= decimal(n as nat));
        }
    }
    if len < 9 {
        return None;
    }
    if chars[0] != 'k' || chars[1] != 'v' || chars[2] != 's' || chars[3] != '_' {
        proof {
            assert(name@.subrange(0, 4)[0] == name@[0]);
            assert(name@.subrange(0, 4)[1] == name@[1]);
            assert(name@.subrange(0, 4)[2] == name@[2]);
            assert(name@.subrange(0, 4)[3] == name@[3]);
        }
        return None;
    }
    if chars[len - 4] != '.' || chars[len - 3] != 'w' || chars[len - 2] != 'a' || chars[len - 1]
        != 'l' {
        proof {
            let tail = name@.subrange(name@.len() - 4, name@.len() as int);
            assert(tail[0] == name@[len - 4]);
            assert(tail[1] == name@[len - 3]);
            assert(tail[2] == name@[len - 2]);
            assert(tail[3] == name@[len - 1]);
        }
        return None;
    }
    let end: usize = len - 4;
    let ghost middle = name@.subrange(4, end as int);
    proof {
        assert(name@ =~= name_head() + middle + name_tail());
        assert forall|n: u64| name@ == wal_name(n) implies number(middle) == Some(n as nat) && (
        middle.len() == 1 || middle[0] != '0') by {
            lemma_decimal(n as nat);
        }
    }
    if chars[4] == '0' && end > 5 {
        return None;
    }
    let mut value: u64 = 0;
    let mut i: usize = 4;
    while i < end
        invariant
            4 <= i <= end,
            end == len - 4,
            len == chars@.len(),
            chars@ == name@,
            middle == name@.subrange(4, end as int),
            i > 4 ==> number(middle.take(i - 4)) == Some(value as nat),
            i == 4 ==> value == 0,
            forall|n: u64| name@ == wal_name(n) ==> number(middle) == Some(n as nat),
        decreases end - i,
    {
        let c = chars[i];
        proof {
            assert(middle.take(i - 4 + 1).last() == c);
            assert(middle.take(i - 4 + 1).drop_last() =~= middle.take(i - 4));
            if number(middle) is Some {
                lemma_number_prefix(middle, i - 4 + 1);
            }
        }
        if c < '0' || c > '9' {
            return None;
        }
        let d: u64 = (c as u8 - 48u8) as u64;
        if value > (u64::MAX - d) / 10 {
            return None;
        }
        value = value * 10 + d;
        i += 1;
    }
    proof {
        assert(middle.take(end - 4) =~= middle);
        lemma_number_decimal(middle);
    }
    Some(value)
}

} // verus!

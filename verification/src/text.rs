use vstd::prelude::*;
use vstd::string::{StrSliceExecFns, StringExecFns};

verus! {

/// An ASCII decimal digit.
pub open spec fn is_digit(c: char) -> bool {
    '0' <= c <= '9'
}

/// The value of a string of decimal digits.
pub open spec fn digits_value(s: Seq<char>) -> nat
    decreases s.len(),
{
    if s.len() == 0 {
        0
    } else {
        digits_value(s.drop_last()) * 10 + (s.last() as nat - '0' as nat) as nat
    }
}

/// Every character is a decimal digit.
pub open spec fn all_digits(s: Seq<char>) -> bool {
    forall|i: int| 0 <= i < s.len() ==> is_digit(#[trigger] s[i])
}

/// How `u16::from_str` reads `s`: an optional leading `+` (not alone), then
/// one or more decimal digits whose value fits in 16 bits.
pub open spec fn parse_u16_spec(s: Seq<char>) -> Option<u16> {
    let digits = if s.len() > 1 && s[0] == '+' {
        s.drop_first()
    } else {
        s
    };
    if digits.len() > 0 && all_digits(digits) && digits_value(digits) <= 0xFFFF {
        Some(digits_value(digits) as u16)
    } else {
        None
    }
}

/// The first position at or after `from` where `s` holds `c`.
pub open spec fn first_index_of(s: Seq<char>, c: char, from: int) -> Option<int>
    decreases s.len() - from,
{
    if from < 0 || from >= s.len() {
        None
    } else if s[from] == c {
        Some(from)
    } else {
        first_index_of(s, c, from + 1)
    }
}

proof fn lemma_digits_value_grows(s: Seq<char>, i: int)
    requires
        all_digits(s),
        0 <= i <= s.len(),
    ensures
        digits_value(s.take(i)) <= digits_value(s),
    decreases s.len() - i,
{
    if i < s.len() {
        lemma_digits_value_grows(s, i + 1);
        let t = s.take(i + 1);
        assert(t.drop_last() =~= s.take(i));
        assert(is_digit(s[i]));
    } else {
        assert(s.take(i) =~= s);
    }
}

/// The characters of `s`.
pub fn chars_of(s: &str) -> (v: Vec<char>)
    ensures
        v@ == s@,
{
    let n = s.unicode_len();
    let mut v: Vec<char> = Vec::new();
    let mut i: usize = 0;
    while i < n
        invariant
            n == s@.len(),
            i <= n,
            v@ == s@.subrange(0, i as int),
        decreases n - i,
    {
        v.push(s.get_char(i));
        i = i + 1;
        assert(v@ =~= s@.subrange(0, i as int));
    }
    assert(v@ =~= s@);
    v
}

/// Whether the characters `v` are exactly those of `text`.
pub fn equals_text(v: &Vec<char>, text: &str) -> (b: bool)
    ensures
        b == (v@ == text@),
{
    let t = chars_of(text);
    if v.len() != t.len() {
        return false;
    }
    let mut i: usize = 0;
    while i < v.len()
        invariant
            v@.len() == t@.len(),
            t@ == text@,
            i <= v@.len(),
            forall|k: int| 0 <= k < i ==> v@[k] == t@[k],
        decreases v@.len() - i,
    {
        if v[i] != t[i] {
            return false;
        }
        i = i + 1;
    }
    assert(v@ =~= t@);
    true
}

/// The first position in `from..to` where `s` holds `c`.
pub fn find_char(s: &Vec<char>, c: char, from: usize, to: usize) -> (r: Option<usize>)
    requires
        from <= to <= s@.len(),
    ensures
        match r {
            Some(k) => from <= k < to && first_index_of(s@.subrange(from as int, to as int), c, 0)
                == Some((k - from) as int),
            None => first_index_of(s@.subrange(from as int, to as int), c, 0) is None,
        },
{
    let ghost sub = s@.subrange(from as int, to as int);
    let mut k: usize = from;
    while k < to
        invariant
            from <= k <= to <= s@.len(),
            sub == s@.subrange(from as int, to as int),
            first_index_of(sub, c, 0) == first_index_of(sub, c, (k - from) as int),
        decreases to - k,
    {
        if s[k] == c {
            assert(sub[(k - from) as int] == c);
            return Some(k);
        }
        assert(sub[(k - from) as int] != c);
        k = k + 1;
    }
    None
}

/// Reads `s[from..to]` the way `u16::from_str` does.
pub fn parse_u16(s: &Vec<char>, from: usize, to: usize) -> (r: Option<u16>)
    requires
        from <= to <= s@.len(),
    ensures
        r == parse_u16_spec(s@.subrange(from as int, to as int)),
{
    let ghost sub = s@.subrange(from as int, to as int);
    let start: usize = if to - from > 1 && s[from] == '+' {
        from + 1
    } else {
        from
    };
    let ghost digits = s@.subrange(start as int, to as int);
    assert(digits =~= (if sub.len() > 1 && sub[0] == '+' {
        sub.drop_first()
    } else {
        sub
    }));
    if start == to {
        return None;
    }
    let mut acc: u32 = 0;
    let mut k: usize = start;
    while k < to
        invariant
            start <= k <= to <= s@.len(),
            start < to,
            digits == s@.subrange(start as int, to as int),
            sub == s@.subrange(from as int, to as int),
            digits == (if sub.len() > 1 && sub[0] == '+' {
                sub.drop_first()
            } else {
                sub
            }),
            all_digits(digits.take((k - start) as int)),
            acc == digits_value(digits.take((k - start) as int)),
            acc <= 0xFFFF,
        decreases to - k,
    {
        let c = s[k];
        let ghost t = digits.take((k - start + 1) as int);
        assert(t.drop_last() =~= digits.take((k - start) as int));
        assert(t.last() == c);
        if !('0' <= c && c <= '9') {
            proof {
                assert(!is_digit(digits[(k - start) as int]));
            }
            return None;
        }
        let d = (c as u32) - ('0' as u32);
        acc = acc * 10 + d;
        assert(acc == digits_value(t));
        assert(all_digits(t)) by {
            assert forall|i: int| 0 <= i < t.len() implies is_digit(#[trigger] t[i]) by {
                if i < t.len() - 1 {
                    assert(t[i] == digits.take((k - start) as int)[i]);
                }
            }
        }
        if acc > 0xFFFF {
            proof {
                if all_digits(digits) {
                    lemma_digits_value_grows(digits, (k - start + 1) as int);
                }
            }
            return None;
        }
        k = k + 1;
    }
    assert(digits.take((to - start) as int) =~= digits);
    Some(acc as u16)
}

/// The decimal digit character for `d` (0..=9).
pub open spec fn digit_char(d: nat) -> char {
    (d + 48) as char
}

/// The decimal representation of `n`, without leading zeros.
pub open spec fn decimal(n: nat) -> Seq<char>
    decreases n,
{
    if n < 10 {
        seq![digit_char(n)]
    } else {
        decimal(n / 10).push(digit_char(n % 10))
    }
}

/// Reading a decimal back gives the number: `decimal(n)` is a non-empty
/// run of digits whose value is `n`, and for `n` up to 65535 it reads as
/// `n` the way `u16::from_str` does.
pub proof fn law_decimal_reads_back(n: nat)
    ensures
        decimal(n).len() > 0,
        all_digits(decimal(n)),
        digits_value(decimal(n)) == n,
        n <= 0xFFFF ==> parse_u16_spec(decimal(n)) == Some(n as u16),
    decreases n,
{
    if n < 10 {
        assert(digit_char(n) as nat == n + 48);
        assert('0' as nat == 48);
        assert(decimal(n).drop_last() =~= Seq::<char>::empty());
        assert(digits_value(decimal(n).drop_last()) == 0);
        assert(decimal(n).last() as nat - '0' as nat == n);
        assert(digits_value(decimal(n)) == 0 * 10 + n);
    } else {
        law_decimal_reads_back(n / 10);
        let d = decimal(n);
        assert(d.drop_last() =~= decimal(n / 10));
        assert(digit_char(n % 10) as nat == n % 10 + 48);
        assert(d.last() == digit_char(n % 10));
        assert(n == (n / 10) * 10 + n % 10);
        assert('0' as nat == 48);
        assert(d.last() as nat - '0' as nat == n % 10);
        assert(digits_value(d) == digits_value(decimal(n / 10)) * 10 + n % 10);
        assert forall|i: int| 0 <= i < d.len() implies is_digit(#[trigger] d[i]) by {
            if i < d.len() - 1 {
                assert(d[i] == decimal(n / 10)[i]);
            }
        }
    }
    let d = decimal(n);
    assert(is_digit(d[0]));
}

fn digit_str(d: u64) -> (s: &'static str)
    requires
        d < 10,
    ensures
        s@ == seq![digit_char(d as nat)],
{
    proof {
        reveal_strlit("0");
        reveal_strlit("1");
        reveal_strlit("2");
        reveal_strlit("3");
        reveal_strlit("4");
        reveal_strlit("5");
        reveal_strlit("6");
        reveal_strlit("7");
        reveal_strlit("8");
        reveal_strlit("9");
    }
    if d == 0 {
        "0"
    } else if d == 1 {
        "1"
    } else if d == 2 {
        "2"
    } else if d == 3 {
        "3"
    } else if d == 4 {
        "4"
    } else if d == 5 {
        "5"
    } else if d == 6 {
        "6"
    } else if d == 7 {
        "7"
    } else if d == 8 {
        "8"
    } else {
        "9"
    }
}

/// Appends the decimal representation of `n`.
pub fn push_decimal(out: &mut String, n: u64)
    ensures
        final(out)@ == old(out)@ + decimal(n as nat),
    decreases n,
{
    if n >= 10 {
        push_decimal(out, n / 10);
    }
    out.append(digit_str(n % 10));
    proof {
        if n < 10 {
            assert(decimal(n as nat) == seq![digit_char(n as nat)]);
        }
    }
    assert(final(out)@ =~= old(out)@ + decimal(n as nat));
}

} // verus!

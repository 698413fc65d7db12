//! Decimal and hexadecimal text: reading unsigned numbers, writing padded digits.
use vstd::prelude::*;

verus! {

pub open spec fn is_digit(c: char) -> bool {
    '0' <= c && c <= '9'
}

pub open spec fn digit_value(c: char) -> nat {
    (c as int - '0' as int) as nat
}

/// Whether every character of `s` is a decimal digit.
pub open spec fn all_digits(s: Seq<char>) -> bool {
    forall|i: int| 0 <= i < s.len() ==> is_digit(#[trigger] s[i])
}

/// The number written by the decimal digits `s`.
pub open spec fn digits_value(s: Seq<char>) -> nat
    decreases s.len(),
{
    if s.len() == 0 {
        0
    } else {
        digits_value(s.drop_last()) * 10 + digit_value(s.last())
    }
}

/// The number that `s` writes in the syntax Rust accepts for unsigned
/// integers: an optional `+`, then one or more decimal digits.
pub open spec fn spec_parse_unsigned(s: Seq<char>) -> Option<nat> {
    let d = if s.len() > 0 && s[0] == '+' {
        s.drop_first()
    } else {
        s
    };
    if d.len() > 0 && all_digits(d) {
        Some(digits_value(d))
    } else {
        None
    }
}

/// The number written by `s` if it is at most `max`.
pub open spec fn parse_bounded(s: Seq<char>, max: nat) -> Option<nat> {
    match spec_parse_unsigned(s) {
        Some(v) => if v <= max {
            Some(v)
        } else {
            None
        },
        None => None,
    }
}

proof fn lemma_digits_value_prefix(s: Seq<char>, k: int)
    requires
        0 <= k <= s.len(),
        all_digits(s),
    ensures
        digits_value(s.take(k)) <= digits_value(s),
    decreases s.len(),
{
    if k < s.len() {
        assert(s.take(k) =~= s.drop_last().take(k));
        lemma_digits_value_prefix(s.drop_last(), k);
    } else {
        assert(s.take(k) =~= s);
    }
}

/// The characters of `s`.
pub fn chars_of(s: &str) -> (r: Vec<char>)
    ensures
        r@ == s@,
{
    let n = s.unicode_len();
    let mut out: Vec<char> = Vec::new();
    let mut i: usize = 0;
    while i < n
        invariant
            n as nat == s@.len(),
            i <= n,
            out@ == s@.take(i as int),
        decreases n - i,
    {
        let c = s.get_char(i);
        out.push(c);
        assert(out@ =~= s@.take(i + 1));
        i = i + 1;
    }
    assert(s@.take(n as int) =~= s@);
    out
}

/// Reads an unsigned number no larger than `max`.
pub fn parse_unsigned(s: &[char], max: u64) -> (r: Option<u64>)
    ensures
        match parse_bounded(s@, max as nat) {
            Some(v) => r == Some(v as u64),
            None => r is None,
        },
{
    let start: usize = if s.len() > 0 && s[0] == '+' {
        1
    } else {
        0
    };
    let ghost d = if s@.len() > 0 && s@[0] == '+' {
        s@.drop_first()
    } else {
        s@
    };
    assert(d =~= s@.skip(start as int));
    if start >= s.len() {
        return None;
    }
    let mut acc: u128 = 0;
    let mut i: usize = start;
    while i < s.len()
        invariant
            start <= i <= s@.len(),
            d =~= s@.skip(start as int),
            d == (if s@.len() > 0 && s@[0] == '+' {
                s@.drop_first()
            } else {
                s@
            }),
            d.len() > 0,
            acc as nat == digits_value(d.take(i - start)),
            acc <= max,
            all_digits(d.take(i - start)),
        decreases s@.len() - i,
    {
        let c = s[i];
        if !('0' <= c && c <= '9') {
            assert(d[i - start] == c);
            assert(!is_digit(d[i - start]));
            assert(!all_digits(d));
            assert(spec_parse_unsigned(s@) is None);
            return None;
        }
        let dv = (c as u32 - '0' as u32) as u128;
        let ghost t = d.take(i - start + 1);
        assert(t.drop_last() =~= d.take(i - start));
        assert(t.last() == c);
        acc = acc * 10 + dv;
        assert(all_digits(t)) by {
            assert forall|j: int| 0 <= j < t.len() implies is_digit(#[trigger] t[j]) by {
                if j < t.len() - 1 {
                    assert(t[j] == d.take(i - start)[j]);
                }
            }
        }
        assert(acc as nat == digits_value(t));
        if acc > max as u128 {
            proof {
                if all_digits(d) {
                    lemma_digits_value_prefix(d, i - start + 1);
                    assert(digits_value(d) > max);
                }
            }
            return None;
        }
        i = i + 1;
    }
    assert(d.take(i - start) =~= d);
    Some(acc as u64)
}

/// The decimal digit character of `v`.
pub open spec fn digit_char(v: nat) -> char {
    ('0' as nat + v) as char
}

/// The decimal digits of `v`, most significant first.
pub open spec fn decimal_chars(v: nat) -> Seq<char>
    decreases v,
{
    if v < 10 {
        seq![digit_char(v)]
    } else {
        decimal_chars(v / 10).push(digit_char(v % 10))
    }
}

/// The decimal digits of `v` are digits, at least one, and read back as `v`.
pub proof fn lemma_decimal_chars(v: nat)
    ensures
        decimal_chars(v).len() > 0,
        all_digits(decimal_chars(v)),
        digits_value(decimal_chars(v)) == v,
        spec_parse_unsigned(decimal_chars(v)) == Some(v),
    decreases v,
{
    if v < 10 {
        let d = decimal_chars(v);
        assert(d.drop_last() =~= Seq::<char>::empty());
        assert(digits_value(Seq::<char>::empty()) == 0);
        assert(digit_value(digit_char(v)) == v);
        assert(digits_value(d) == digits_value(d.drop_last()) * 10 + digit_value(d.last()));
    } else {
        lemma_decimal_chars(v / 10);
        let d = decimal_chars(v);
        assert(d.drop_last() =~= decimal_chars(v / 10));
        assert(digit_value(digit_char(v % 10)) == v % 10);
        assert(forall|i: int| 0 <= i < d.len() ==> is_digit(#[trigger] d[i])) by {
            assert forall|i: int| 0 <= i < d.len() implies is_digit(#[trigger] d[i]) by {
                if i < d.len() - 1 {
                    assert(d[i] == decimal_chars(v / 10)[i]);
                }
            }
        }
        assert((v / 10) * 10 + v % 10 == v);
        assert(digits_value(d) == digits_value(d.drop_last()) * 10 + digit_value(d.last()));
    }
    let d = decimal_chars(v);
    assert(is_digit(d[0]));
    assert(d[0] != '+');
}

/// The decimal digit of `v`.
pub open spec fn digit_byte(v: nat) -> u8 {
    ('0' as nat + v) as u8
}

/// The decimal digits of `v`, most significant first, as ASCII bytes.
pub open spec fn decimal_bytes(v: nat) -> Seq<u8>
    decreases v,
{
    if v < 10 {
        seq![digit_byte(v)]
    } else {
        decimal_bytes(v / 10).push(digit_byte(v % 10))
    }
}

/// The decimal digits of `v`, left-padded with `0` to at least three.
pub open spec fn decimal_bytes_3(v: nat) -> Seq<u8> {
    let d = decimal_bytes(v);
    if d.len() >= 3 {
        d
    } else {
        Seq::new((3 - d.len()) as nat, |i: int| '0' as u8) + d
    }
}

/// The lowercase hexadecimal digit of `v`.
pub open spec fn hex_byte(v: nat) -> u8 {
    if v < 10 {
        ('0' as nat + v) as u8
    } else {
        ('a' as nat + v - 10) as u8
    }
}

/// Each byte of `s` as two lowercase hexadecimal digits.
pub open spec fn hex_bytes(s: Seq<u8>) -> Seq<u8>
    decreases s.len(),
{
    if s.len() == 0 {
        Seq::empty()
    } else {
        hex_bytes(s.drop_last()) + seq![hex_byte(s.last() as nat / 16), hex_byte(s.last() as nat % 16)]
    }
}

proof fn lemma_decimal_bytes_len(v: nat)
    ensures
        1 <= decimal_bytes(v).len(),
        v < 10 <==> decimal_bytes(v).len() == 1,
        v < 100 ==> decimal_bytes(v).len() <= 2,
        v >= 100 ==> decimal_bytes(v).len() >= 3,
    decreases v,
{
    if v >= 10 {
        lemma_decimal_bytes_len(v / 10);
    }
}

/// Appends the decimal digits of `v`.
pub fn push_decimal(buf: &mut Vec<u8>, v: u64)
    ensures
        final(buf)@ == old(buf)@ + decimal_bytes(v as nat),
    decreases v,
{
    if v >= 10 {
        push_decimal(buf, v / 10);
    }
    let b: u8 = (v % 10) as u8 + 48;
    buf.push(b);
    proof {
        if v >= 10 {
            assert(decimal_bytes(v as nat) == decimal_bytes((v / 10) as nat).push(
                digit_byte((v % 10) as nat),
            ));
        }
    }
}

/// Appends the decimal digits of `v`, left-padded with `0` to at least three.
pub fn push_decimal_3(buf: &mut Vec<u8>, v: u64)
    ensures
        final(buf)@ == old(buf)@ + decimal_bytes_3(v as nat),
{
    let ghost start = buf@;
    proof {
        lemma_decimal_bytes_len(v as nat);
    }
    if v < 10 {
        buf.push(48u8);
        buf.push(48u8);
    } else if v < 100 {
        buf.push(48u8);
    }
    let ghost mid = buf@;
    push_decimal(buf, v);
    proof {
        let d = decimal_bytes(v as nat);
        if v < 10 {
            assert(mid =~= start + Seq::new((3 - d.len()) as nat, |i: int| '0' as u8));
        } else if v < 100 {
            assert(mid =~= start + Seq::new((3 - d.len()) as nat, |i: int| '0' as u8));
        } else {
            assert(mid =~= start);
        }
        assert(buf@ =~= start + decimal_bytes_3(v as nat));
    }
}

/// Appends each byte of `data` as two lowercase hexadecimal digits.
pub fn push_hex(buf: &mut Vec<u8>, data: &[u8])
    ensures
        final(buf)@ == old(buf)@ + hex_bytes(data@),
{
    let ghost start = buf@;
    let mut i: usize = 0;
    while i < data.len()
        invariant
            i <= data@.len(),
            buf@ == start + hex_bytes(data@.take(i as int)),
        decreases data@.len() - i,
    {
        let b = data[i];
        let hi = b / 16;
        let lo = b % 16;
        let ch: u8 = if hi < 10 {
            48 + hi
        } else {
            87 + hi
        };
        let cl: u8 = if lo < 10 {
            48 + lo
        } else {
            87 + lo
        };
        buf.push(ch);
        buf.push(cl);
        proof {
            let t = data@.take(i + 1);
            assert(t.drop_last() =~= data@.take(i as int));
            assert(t.last() == b);
            assert(buf@ =~= start + hex_bytes(t));
        }
        i = i + 1;
    }
    assert(data@.take(data@.len() as int) =~= data@);
}

} // verus!

//! Decimal numerals: writing a number in decimal and reading an optionally
//! signed decimal integer back.
use vstd::prelude::*;

verus! {

/// The character of the decimal digit `d`.
pub open spec fn digit_char(d: nat) -> char {
    if d == 0 {
        '0'
    } else if d == 1 {
        '1'
    } else if d == 2 {
        '2'
    } else if d == 3 {
        '3'
    } else if d == 4 {
        '4'
    } else if d == 5 {
        '5'
    } else if d == 6 {
        '6'
    } else if d == 7 {
        '7'
    } else if d == 8 {
        '8'
    } else {
        '9'
    }
}

/// `n` written in decimal, without sign or leading zeros.
pub open spec fn dec(n: nat) -> Seq<char>
    decreases n,
{
    if n < 10 {
        seq![digit_char(n)]
    } else {
        dec(n / 10).push(digit_char(n % 10))
    }
}

/// `n` written in decimal as ASCII bytes.
pub open spec fn dec_bytes(n: nat) -> Seq<u8>
    decreases n,
{
    if n < 10 {
        seq![(48 + n) as u8]
    } else {
        dec_bytes(n / 10).push((48 + n % 10) as u8)
    }
}

/// The digit that an ASCII byte denotes, if it is a decimal digit.
pub open spec fn byte_digit(b: u8) -> Option<nat> {
    if 48 <= b <= 57 {
        Some((b - 48) as nat)
    } else {
        None
    }
}

/// Every byte is an ASCII decimal digit.
pub open spec fn all_digits(bs: Seq<u8>) -> bool {
    forall|i: int| 0 <= i < bs.len() ==> #[trigger] byte_digit(bs[i]) is Some
}

/// The number that a string of ASCII decimal digits denotes.
pub open spec fn digits_value(bs: Seq<u8>) -> nat
    decreases bs.len(),
{
    if bs.len() == 0 {
        0
    } else {
        digits_value(bs.drop_last()) * 10 + byte_digit(bs.last()).unwrap_or(0)
    }
}

/// The 32-bit integer that ASCII bytes denote, as `str::parse::<i32>` reads
/// them: an optional `+` or `-`, then one or more decimal digits, the value
/// within the range of `i32`.
pub open spec fn parse_i32_spec(bs: Seq<u8>) -> Option<int> {
    if bs.len() > 0 && bs[0] == 45 {
        let ds = bs.drop_first();
        if ds.len() > 0 && all_digits(ds) && digits_value(ds) <= 0x8000_0000 {
            Some(-(digits_value(ds) as int))
        } else {
            None
        }
    } else {
        let ds = if bs.len() > 0 && bs[0] == 43 {
            bs.drop_first()
        } else {
            bs
        };
        if ds.len() > 0 && all_digits(ds) && digits_value(ds) <= 0x7fff_ffff {
            Some(digits_value(ds) as int)
        } else {
            None
        }
    }
}

/// Law: the decimal bytes of `n` are all digits and denote `n`.
pub proof fn lemma_dec_value(n: nat)
    ensures
        dec_bytes(n).len() > 0,
        all_digits(dec_bytes(n)),
        digits_value(dec_bytes(n)) == n,
        dec_bytes(n)[0] != 45 && dec_bytes(n)[0] != 43,
    decreases n,
{
    assert(((48 + n % 10) as u8) as int == 48 + n % 10);
    assert(byte_digit((48 + n % 10) as u8) == Some(n % 10));
    if n < 10 {
        assert(dec_bytes(n).drop_last() =~= Seq::<u8>::empty());
        assert(digits_value(dec_bytes(n)) == digits_value(Seq::<u8>::empty()) * 10 + byte_digit(
            dec_bytes(n).last(),
        ).unwrap_or(0));
    } else {
        lemma_dec_value(n / 10);
        let d = dec_bytes(n);
        assert(d.last() == (48 + n % 10) as u8);
        assert(d.drop_last() =~= dec_bytes(n / 10));
        assert forall|i: int| 0 <= i < d.len() implies #[trigger] byte_digit(d[i]) is Some by {
            if i < d.len() - 1 {
                assert(d[i] == dec_bytes(n / 10)[i]);
            }
        }
        assert(d[0] == dec_bytes(n / 10)[0]);
        assert(digits_value(d) == (n / 10) * 10 + n % 10);
    }
}

/// Law: reading back the decimal bytes of a number that fits `i32` gives
/// the number.
pub proof fn lemma_parse_dec(n: nat)
    requires
        n <= 0x7fff_ffff,
    ensures
        parse_i32_spec(dec_bytes(n)) == Some(n as int),
{
    lemma_dec_value(n);
}

/// The value of a decimal digit character; `0` for any other character.
pub open spec fn char_digit_value(c: char) -> nat {
    if '0' <= c && c <= '9' {
        (c as int - '0' as int) as nat
    } else {
        0
    }
}

/// The number that a string of decimal digit characters denotes.
pub open spec fn numeral_value(s: Seq<char>) -> nat
    decreases s.len(),
{
    if s.len() == 0 {
        0
    } else {
        numeral_value(s.drop_last()) * 10 + char_digit_value(s.last())
    }
}

/// The decimal numeral of `n` denotes `n`.
pub proof fn lemma_dec_numeral(n: nat)
    ensures
        numeral_value(dec(n)) == n,
    decreases n,
{
    assert(char_digit_value(digit_char(n % 10)) == n % 10);
    let d = dec(n);
    if n < 10 {
        assert(d.drop_last() =~= Seq::<char>::empty());
        assert(d.last() == digit_char(n % 10));
        assert(numeral_value(d) == numeral_value(d.drop_last()) * 10 + char_digit_value(d.last()));
    } else {
        lemma_dec_numeral(n / 10);
        assert(d.drop_last() =~= dec(n / 10));
        assert(d.last() == digit_char(n % 10));
        assert(numeral_value(d) == numeral_value(d.drop_last()) * 10 + char_digit_value(d.last()));
    }
}

/// Leading zeros do not change the number that a numeral denotes.
pub proof fn lemma_leading_zeros(k: nat, s: Seq<char>)
    ensures
        numeral_value(Seq::new(k, |i: int| '0') + s) == numeral_value(s),
    decreases s.len() + k,
{
    let z = Seq::new(k, |i: int| '0');
    if s.len() == 0 {
        assert(z + s =~= z);
        if k > 0 {
            let z1 = Seq::new((k - 1) as nat, |i: int| '0');
            assert(z.drop_last() =~= z1 + Seq::<char>::empty());
            lemma_leading_zeros((k - 1) as nat, Seq::<char>::empty());
        }
    } else {
        assert((z + s).drop_last() =~= z + s.drop_last());
        assert((z + s).last() == s.last());
        lemma_leading_zeros(k, s.drop_last());
    }
}

/// `String::push` of the standard library: appends one character.
#[verifier::external_body]
pub(crate) fn push_char(s: &mut String, c: char)
    ensures
        final(s)@ == old(s)@.push(c),
{
    s.push(c)
}

/// The character of the decimal digit `d`.
pub fn digit(d: usize) -> (c: char)
    requires
        d < 10,
    ensures
        c == digit_char(d as nat),
{
    match d {
        0 => '0',
        1 => '1',
        2 => '2',
        3 => '3',
        4 => '4',
        5 => '5',
        6 => '6',
        7 => '7',
        8 => '8',
        _ => '9',
    }
}

/// Appends `n` in decimal to `s`.
pub fn push_dec(s: &mut String, n: usize)
    ensures
        final(s)@ == old(s)@ + dec(n as nat),
    decreases n,
{
    if n >= 10 {
        push_dec(s, n / 10);
    }
    push_char(s, digit(n % 10));
    proof {
        if n >= 10 {
            assert(old(s)@ + dec((n / 10) as nat) + seq![digit_char((n % 10) as nat)] =~= old(s)@
                + dec(n as nat));
        } else {
            assert(old(s)@ + seq![digit_char((n % 10) as nat)] =~= old(s)@ + dec(n as nat));
        }
    }
}

/// `n` written in decimal.
pub fn format_dec(n: usize) -> (s: String)
    ensures
        s@ == dec(n as nat),
{
    let mut s = String::new();
    push_dec(&mut s, n);
    assert(Seq::<char>::empty() + dec(n as nat) =~= dec(n as nat));
    s
}

/// Appends the decimal bytes of `n` to `v`.
pub fn push_dec_bytes(v: &mut Vec<u8>, n: usize)
    ensures
        final(v)@ == old(v)@ + dec_bytes(n as nat),
    decreases n,
{
    if n >= 10 {
        push_dec_bytes(v, n / 10);
    }
    v.push((48 + n % 10) as u8);
    proof {
        if n >= 10 {
            assert(old(v)@ + dec_bytes((n / 10) as nat) + seq![(48 + n % 10) as u8] =~= old(v)@
                + dec_bytes(n as nat));
        } else {
            assert(old(v)@ + seq![(48 + n % 10) as u8] =~= old(v)@ + dec_bytes(n as nat));
        }
    }
}

/// The value of the bytes `b[from..]`, if they are one or more ASCII decimal
/// digits denoting at most `limit`.
fn parse_digits(b: &[u8], from: usize, limit: u64) -> (v: Option<u64>)
    requires
        from <= b@.len(),
        limit <= 0x8000_0000,
    ensures
        ({
            let ds = b@.subrange(from as int, b@.len() as int);
            match v {
                Some(x) => ds.len() > 0 && all_digits(ds) && digits_value(ds) == x && x <= limit,
                None => !(ds.len() > 0 && all_digits(ds) && digits_value(ds) <= limit),
            }
        }),
{
    let n = b.len();
    if from >= n {
        return None;
    }
    let ghost ds = b@.subrange(from as int, b@.len() as int);
    let mut i = from;
    let mut acc: u64 = 0;
    while i < n
        invariant
            n == b@.len(),
            from < n,
            from <= i <= n,
            ds == b@.subrange(from as int, b@.len() as int),
            limit <= 0x8000_0000,
            all_digits(b@.subrange(from as int, i as int)),
            digits_value(b@.subrange(from as int, i as int)) == acc,
            acc <= limit,
        decreases n - i,
    {
        let c = b[i];
        let ghost pre = b@.subrange(from as int, i as int);
        let ghost post = b@.subrange(from as int, i + 1);
        assert(post.drop_last() =~= pre);
        assert(post.last() == c);
        if c < 48 || c > 57 {
            proof {
                assert(ds[i - from] == c);
                assert(byte_digit(ds[i - from]) is None);
            }
            return None;
        }
        let d = (c - 48) as u64;
        if acc * 10 + d > limit {
            proof {
                assert(digits_value(post) > limit);
                lemma_digits_value_prefix(ds, (i + 1 - from) as int);
                assert(ds.subrange(0, (i + 1 - from) as int) =~= post);
            }
            return None;
        }
        acc = acc * 10 + d;
        proof {
            assert forall|j: int| 0 <= j < post.len() implies #[trigger] byte_digit(post[j]) is Some by {
                if j < pre.len() {
                    assert(post[j] == pre[j]);
                }
            }
        }
        i = i + 1;
    }
    assert(b@.subrange(from as int, n as int) =~= ds);
    Some(acc)
}

/// A prefix of digits denotes no more than the whole.
proof fn lemma_digits_value_prefix(ds: Seq<u8>, k: int)
    requires
        0 <= k <= ds.len(),
    ensures
        all_digits(ds) ==> digits_value(ds.subrange(0, k)) <= digits_value(ds),
    decreases ds.len() - k,
{
    if k < ds.len() && all_digits(ds) {
        lemma_digits_value_prefix(ds, k + 1);
        let p = ds.subrange(0, k + 1);
        assert(p.drop_last() =~= ds.subrange(0, k));
        assert(byte_digit(ds[k]) is Some);
    } else if k == ds.len() {
        assert(ds.subrange(0, k) =~= ds);
    }
}

/// The 32-bit integer that the ASCII bytes `b` denote, as
/// `str::parse::<i32>` reads them: an optional `+` or `-`, then decimal
/// digits.
pub fn parse_i32(b: &[u8]) -> (v: Option<i32>)
    ensures
        match v {
            Some(x) => parse_i32_spec(b@) == Some(x as int),
            None => parse_i32_spec(b@) is None,
        },
{
    let n = b.len();
    if n > 0 && b[0] == 45 {
        assert(b@.subrange(1, b@.len() as int) =~= b@.drop_first());
        match parse_digits(b, 1, 0x8000_0000) {
            Some(x) => Some((0 - (x as i64)) as i32),
            None => None,
        }
    } else if n > 0 && b[0] == 43 {
        assert(b@.subrange(1, b@.len() as int) =~= b@.drop_first());
        match parse_digits(b, 1, 0x7fff_ffff) {
            Some(x) => Some(x as i32),
            None => None,
        }
    } else {
        assert(b@.subrange(0, b@.len() as int) =~= b@);
        match parse_digits(b, 0, 0x7fff_ffff) {
            Some(x) => Some(x as i32),
            None => None,
        }
    }
}

} // verus!

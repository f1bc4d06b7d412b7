use vstd::prelude::*;

verus! {

/// The byte `0`.
pub const ZERO: u8 = 48;

/// The byte `-`.
pub const MINUS: u8 = 45;

/// `b` is an ASCII decimal digit.
pub open spec fn is_digit(b: u8) -> bool {
    48 <= b <= 57
}

/// What the digit `b` counts for; 0 for any other byte.
pub open spec fn digit_of(b: u8) -> nat {
    if is_digit(b) {
        (b - 48) as nat
    } else {
        0
    }
}

/// Every byte of `t` is a decimal digit.
pub open spec fn all_digits(t: Seq<u8>) -> bool {
    forall|i: int| 0 <= i < t.len() ==> is_digit(#[trigger] t[i])
}

/// The first index at or after `i` where `s` holds no digit, or its length.
pub open spec fn digits_end(s: Seq<u8>, i: int) -> int
    decreases s.len() - i,
{
    if i < 0 || i >= s.len() {
        s.len() as int
    } else if is_digit(s[i]) {
        digits_end(s, i + 1)
    } else {
        i
    }
}

/// The number that the decimal digits `t` write; 0 for no digits.
pub open spec fn digits_value(t: Seq<u8>) -> nat
    decreases t.len(),
{
    if t.len() == 0 {
        0
    } else {
        digits_value(t.drop_last()) * 10 + digit_of(t.last())
    }
}

/// `n` in decimal, without leading zeros.
pub open spec fn nat_text(n: nat) -> Seq<u8>
    decreases n,
{
    if n < 10 {
        seq![(48 + n) as u8]
    } else {
        nat_text(n / 10).push((48 + n % 10) as u8)
    }
}

/// `n` in decimal: a minus sign for a negative number, no leading zeros.
pub open spec fn int_text(n: int) -> Seq<u8> {
    if n < 0 {
        seq![45u8] + nat_text((-n) as nat)
    } else {
        nat_text(n as nat)
    }
}

/// `t` writes an integer in canonical form: `0`, or an optional minus sign
/// and digits of which the first is not `0`.
pub open spec fn is_canonical_integer(t: Seq<u8>) -> bool {
    let digits = if t.len() > 0 && t[0] == 45 {
        t.skip(1)
    } else {
        t
    };
    &&& digits.len() > 0
    &&& all_digits(digits)
    &&& digits[0] == 48 ==> t.len() == 1
}

/// The digits of a number: at least one, all decimal, a leading `0` only for
/// zero itself, and they write the number back.
pub proof fn lemma_nat_text(n: nat)
    ensures
        nat_text(n).len() >= 1,
        all_digits(nat_text(n)),
        nat_text(n)[0] == 48 <==> n == 0,
        n != 0 || nat_text(n).len() == 1,
        digits_value(nat_text(n)) == n,
    decreases n,
{
    if n < 10 {
        let t = nat_text(n);
        assert(t.drop_last() =~= Seq::<u8>::empty());
        assert(digits_value(t.drop_last()) == 0);
    } else {
        lemma_nat_text(n / 10);
        let t = nat_text(n);
        assert(t.drop_last() =~= nat_text(n / 10));
        assert(t[0] == nat_text(n / 10)[0]);
    }
}

/// Ten to the power `k`.
pub open spec fn pow10(k: nat) -> nat
    decreases k,
{
    if k == 0 {
        1
    } else {
        10 * pow10((k - 1) as nat)
    }
}

/// A number below ten to the power `k`, with `k` at least 1, has at most `k`
/// digits.
pub proof fn lemma_nat_text_len(n: nat, k: nat)
    requires
        k >= 1,
        n < pow10(k),
    ensures
        nat_text(n).len() <= k,
    decreases k,
{
    if n >= 10 {
        assert(pow10(1) == 10) by {
            reveal_with_fuel(pow10, 2);
        }
        assert(k >= 2);
        lemma_nat_text_len(n / 10, (k - 1) as nat);
    }
}

/// A number of 64 bits has at most 20 digits, and its text with a sign at
/// most 21 bytes.
pub proof fn lemma_text_len_64(n: int)
    requires
        -0x8000_0000_0000_0000 <= n <= 0xffff_ffff_ffff_ffff,
    ensures
        int_text(n).len() <= 21,
        n >= 0 ==> nat_text(n as nat).len() <= 20,
{
    assert(pow10(20) == 100_000_000_000_000_000_000) by {
        reveal_with_fuel(pow10, 21);
    }
    if n < 0 {
        lemma_nat_text_len((-n) as nat, 20);
    } else {
        lemma_nat_text_len(n as nat, 20);
    }
}

/// The text of an integer is canonical.
pub proof fn lemma_int_text_canonical(n: int)
    ensures
        is_canonical_integer(int_text(n)),
{
    if n < 0 {
        lemma_nat_text((-n) as nat);
        assert(int_text(n).skip(1) =~= nat_text((-n) as nat));
    } else {
        lemma_nat_text(n as nat);
    }
}

/// Digits without a leading zero are the text of the number they write.
pub proof fn lemma_text_of_digits(t: Seq<u8>)
    requires
        t.len() > 0,
        all_digits(t),
        t[0] == 48 ==> t.len() == 1,
    ensures
        nat_text(digits_value(t)) == t,
    decreases t.len(),
{
    let d = t.drop_last();
    if t.len() == 1 {
        assert(d =~= Seq::<u8>::empty());
        assert(digits_value(d) == 0);
        assert(is_digit(t[0]));
        assert(nat_text(digits_value(t)) =~= t);
    } else {
        assert(d[0] == t[0]);
        assert forall|i: int| 0 <= i < d.len() implies is_digit(#[trigger] d[i]) by {
            assert(d[i] == t[i]);
        }
        lemma_text_of_digits(d);
        lemma_nat_text(digits_value(d));
        assert(is_digit(t.last()));
        let n = digits_value(t);
        assert(n == digits_value(d) * 10 + digit_of(t.last()));
        assert(n / 10 == digits_value(d));
        assert(n % 10 == digit_of(t.last()));
        assert(nat_text(n) =~= t);
    }
}

/// The three forms that no canonical integer takes: `-0...`, and a zero
/// followed by anything.
pub open spec fn is_minus_zero(t: Seq<u8>) -> bool {
    t.len() >= 2 && t[0] == 45 && t[1] == 48
}

/// `t` starts with a zero and goes on after it.
pub open spec fn has_leading_zero(t: Seq<u8>) -> bool {
    t.len() >= 2 && t[0] == 48
}

/// The text of an integer is canonical: it is never `-0`, and never a zero
/// followed by another byte.
pub proof fn lemma_int_text_forms(n: int)
    ensures
        is_canonical_integer(int_text(n)),
        !is_minus_zero(int_text(n)),
        !has_leading_zero(int_text(n)),
{
    lemma_int_text_canonical(n);
    if n < 0 {
        lemma_nat_text((-n) as nat);
        assert(int_text(n)[1] == nat_text((-n) as nat)[0]);
    } else {
        lemma_nat_text(n as nat);
    }
}

/// A run of digits ends where the digits end: at the first byte that is no
/// digit, or at the end of the input.
pub proof fn lemma_digits_end(s: Seq<u8>, i: int)
    requires
        0 <= i <= s.len(),
    ensures
        i <= digits_end(s, i) <= s.len(),
        forall|k: int| i <= k < digits_end(s, i) ==> is_digit(#[trigger] s[k]),
        digits_end(s, i) < s.len() ==> !is_digit(s[digits_end(s, i)]),
    decreases s.len() - i,
{
    if i < s.len() && is_digit(s[i]) {
        lemma_digits_end(s, i + 1);
    }
}

/// Where a run of digits starting at `i` is followed by a byte that is no
/// digit, or by nothing, the run ends there.
pub proof fn lemma_digits_end_at(s: Seq<u8>, i: int, end: int)
    requires
        0 <= i <= end <= s.len(),
        forall|k: int| i <= k < end ==> is_digit(#[trigger] s[k]),
        end < s.len() ==> !is_digit(s[end]),
    ensures
        digits_end(s, i) == end,
    decreases end - i,
{
    if i < end {
        lemma_digits_end_at(s, i + 1, end);
    }
}

/// The digits of a prefix write no more than the digits of the whole.
pub proof fn lemma_digits_value_prefix(t: Seq<u8>, k: int)
    requires
        0 <= k <= t.len(),
    ensures
        digits_value(t.take(k)) <= digits_value(t),
    decreases t.len(),
{
    if k < t.len() {
        lemma_digits_value_prefix(t.drop_last(), k);
        assert(t.drop_last().take(k) =~= t.take(k));
    } else {
        assert(t.take(k) =~= t);
    }
}

/// Appends the decimal digits of `n` to `buf`.
pub fn push_decimal(buf: &mut Vec<u8>, n: u64)
    ensures
        final(buf)@ == old(buf)@ + nat_text(n as nat),
    decreases n,
{
    if n >= 10 {
        push_decimal(buf, n / 10);
    }
    let digit: u8 = (n % 10) as u8;
    buf.push(ZERO + digit);
    proof {
        if n >= 10 {
            assert(final(buf)@ =~= old(buf)@ + nat_text(n as nat));
        } else {
            assert(final(buf)@ =~= old(buf)@ + nat_text(n as nat));
        }
    }
}

/// The index of the first byte at or after `start` that is no digit.
pub fn scan_digits(s: &[u8], start: usize) -> (end: usize)
    requires
        start <= s.len(),
    ensures
        end == digits_end(s@, start as int),
        start <= end <= s.len(),
{
    let mut i: usize = start;
    proof {
        lemma_digits_end(s@, start as int);
    }
    while i < s.len() && ZERO <= s[i] && s[i] <= 57
        invariant
            start <= i <= s.len(),
            digits_end(s@, start as int) == digits_end(s@, i as int),
        decreases s.len() - i,
    {
        i += 1;
    }
    i
}

/// The number that the digits `s[from..to]` write, or `None` where it is
/// more than `limit`.
pub fn read_decimal(s: &[u8], from: usize, to: usize, limit: u64) -> (r: Option<u64>)
    requires
        from <= to <= s.len(),
        all_digits(s@.subrange(from as int, to as int)),
    ensures
        match r {
            Some(n) => n == digits_value(s@.subrange(from as int, to as int)) && n <= limit,
            None => digits_value(s@.subrange(from as int, to as int)) > limit,
        },
{
    let ghost t = s@.subrange(from as int, to as int);
    let mut acc: u64 = 0;
    let mut i: usize = from;
    proof {
        assert(s@.subrange(from as int, from as int) =~= Seq::<u8>::empty());
    }
    while i < to
        invariant
            from <= i <= to <= s.len(),
            t == s@.subrange(from as int, to as int),
            all_digits(t),
            acc == digits_value(s@.subrange(from as int, i as int)),
            acc <= limit,
        decreases to - i,
    {
        let ghost prefix = s@.subrange(from as int, i + 1);
        proof {
            assert(prefix.drop_last() =~= s@.subrange(from as int, i as int));
            assert(prefix.last() == s@[i as int]);
            assert(t[i - from] == s@[i as int]);
            assert(is_digit(t[i - from]));
            assert(prefix =~= t.take(i + 1 - from));
            lemma_digits_value_prefix(t, i + 1 - from);
        }
        let digit: u64 = (s[i] - ZERO) as u64;
        if digit > limit {
            return None;
        }
        if acc > (limit - digit) / 10 {
            proof {
                assert(acc * 10 + digit > limit) by (nonlinear_arith)
                    requires
                        acc > (limit - digit) / 10,
                        digit <= limit,
                        acc <= limit,
                ;
            }
            return None;
        }
        proof {
            assert(acc * 10 + digit <= limit) by (nonlinear_arith)
                requires
                    acc <= (limit - digit) / 10,
                    digit <= limit,
            ;
        }
        acc = acc * 10 + digit;
        i += 1;
    }
    proof {
        assert(s@.subrange(from as int, i as int) =~= t);
    }
    Some(acc)
}

} // verus!

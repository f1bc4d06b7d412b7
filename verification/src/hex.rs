use vstd::prelude::*;

verus! {

/// The lowercase hexadecimal digit for `d`, which is less than 16.
pub open spec fn hex_digit(d: nat) -> u8 {
    if d < 10 {
        (48 + d) as u8
    } else {
        (87 + d) as u8
    }
}

/// `n` in lowercase hexadecimal, without leading zeros.
pub open spec fn hex_text(n: nat) -> Seq<u8>
    decreases n,
{
    if n < 16 {
        seq![hex_digit(n)]
    } else {
        hex_text(n / 16).push(hex_digit(n % 16))
    }
}

/// The bytes of `s` in lowercase hexadecimal, two digits for each byte: the
/// digit for its upper half, then the digit for its lower half.
pub open spec fn hex_of_bytes(s: Seq<u8>) -> Seq<u8> {
    Seq::new(
        2 * s.len(),
        |i: int|
            if i % 2 == 0 {
                hex_digit((s[i / 2] / 16) as nat)
            } else {
                hex_digit((s[i / 2] % 16) as nat)
            },
    )
}

/// The characters that the ASCII bytes `s` stand for.
pub open spec fn ascii_chars(s: Seq<u8>) -> Seq<char> {
    Seq::new(s.len(), |i: int| s[i] as char)
}

/// Hexadecimal text is made of digits and of the letters `a` to `f`.
pub proof fn lemma_hex_text_ascii(n: nat)
    ensures
        hex_text(n).len() >= 1,
        forall|i: int| 0 <= i < hex_text(n).len() ==> #[trigger] hex_text(n)[i] < 128,
    decreases n,
{
    if n >= 16 {
        lemma_hex_text_ascii(n / 16);
    }
}

/// The hexadecimal text of bytes is ASCII and has two digits for each byte.
pub proof fn lemma_hex_of_bytes_ascii(s: Seq<u8>)
    ensures
        hex_of_bytes(s).len() == 2 * s.len(),
        forall|i: int| 0 <= i < hex_of_bytes(s).len() ==> #[trigger] hex_of_bytes(s)[i] < 128,
        vstd::utf8::is_ascii_chars(ascii_chars(hex_of_bytes(s))),
{
}

/// Different digits are written differently.
pub proof fn lemma_hex_digit_injective(c: nat, d: nat)
    requires
        c < 16,
        d < 16,
        hex_digit(c) == hex_digit(d),
    ensures
        c == d,
{
}

/// Different bytes have different hexadecimal text.
pub proof fn lemma_hex_of_bytes_injective(a: Seq<u8>, b: Seq<u8>)
    requires
        hex_of_bytes(a) == hex_of_bytes(b),
    ensures
        a == b,
{
    assert(hex_of_bytes(a).len() == 2 * a.len());
    assert(hex_of_bytes(b).len() == 2 * b.len());
    assert forall|i: int| 0 <= i < a.len() implies a[i] == b[i] by {
        assert((2 * i) / 2 == i && (2 * i) % 2 == 0);
        assert((2 * i + 1) / 2 == i && (2 * i + 1) % 2 == 1);
        let x = a[i];
        let y = b[i];
        assert(hex_of_bytes(a)[2 * i] == hex_digit((x / 16) as nat));
        assert(hex_of_bytes(b)[2 * i] == hex_digit((y / 16) as nat));
        assert(hex_of_bytes(a)[2 * i + 1] == hex_digit((x % 16) as nat));
        assert(hex_of_bytes(b)[2 * i + 1] == hex_digit((y % 16) as nat));
        lemma_hex_digit_injective((x / 16) as nat, (y / 16) as nat);
        lemma_hex_digit_injective((x % 16) as nat, (y % 16) as nat);
    }
    assert(a =~= b);
}

/// Appends the lowercase hexadecimal digits of `n` to `buf`.
pub fn push_hex(buf: &mut Vec<u8>, n: u64)
    ensures
        final(buf)@ == old(buf)@ + hex_text(n as nat),
    decreases n,
{
    if n >= 16 {
        push_hex(buf, n / 16);
    }
    let d: u8 = (n % 16) as u8;
    if d < 10 {
        buf.push(48 + d);
    } else {
        buf.push(87 + d);
    }
    proof {
        assert(final(buf)@ =~= old(buf)@ + hex_text(n as nat));
    }
}

} // verus!

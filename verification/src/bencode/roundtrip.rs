use vstd::prelude::*;
use crate::bencode::error::Error;
use crate::bencode::grammar::{
    COLON, DICT, END, INTEGER, LIST, decode, encode, encode_bytes, encode_entries, encode_integer,
    encode_items, parse_byte_string, parse_entries, parse_integer, parse_items, parse_value,
};
use crate::bencode::model::{
    Bencode, dict_insert, keys_ascending, lemma_insert_ascending, lemma_insert_last,
    lemma_lower_bound, lex_lt, lower_bound,
};
use crate::bencode::text::{
    digits_end, digits_value, has_leading_zero, int_text, is_digit, is_minus_zero,
    lemma_digits_end, lemma_digits_end_at, lemma_int_text_forms, lemma_nat_text,
    lemma_text_of_digits, nat_text,
};

verus! {

/// `rest` is what is left of `s` after some bytes were taken from its front.
pub open spec fn is_suffix(rest: Seq<u8>, s: Seq<u8>) -> bool {
    rest.len() <= s.len() && rest =~= s.skip(s.len() - rest.len())
}

/// A suffix of a suffix is a suffix.
pub proof fn lemma_suffix_transitive(a: Seq<u8>, b: Seq<u8>, c: Seq<u8>)
    requires
        is_suffix(a, b),
        is_suffix(b, c),
    ensures
        is_suffix(a, c),
{
    assert(a =~= c.skip(c.len() - a.len()));
}

/// What is left after skipping `k` bytes is a suffix.
pub proof fn lemma_skip_is_suffix(s: Seq<u8>, k: int)
    requires
        0 <= k <= s.len(),
    ensures
        is_suffix(s.skip(k), s),
{
}

/// Reading a byte string takes at least one byte from the front of the
/// input and leaves the rest as it was.
pub proof fn lemma_parse_byte_string_rest(s: Seq<u8>)
    ensures
        parse_byte_string(s) matches Ok((_, rest)) ==> rest.len() < s.len() && is_suffix(rest, s),
{
    lemma_digits_end(s, 0);
    if let Ok((b, rest)) = parse_byte_string(s) {
        assert(rest =~= s.skip(s.len() - rest.len()));
    }
}

/// Reading an integer takes at least one byte from the front of the input
/// and leaves the rest as it was.
pub proof fn lemma_parse_integer_rest(s: Seq<u8>)
    ensures
        parse_integer(s) matches Ok((_, rest)) ==> rest.len() < s.len() && is_suffix(rest, s),
{
    if s.len() > 0 {
        let start: int = if s.len() > 1 && s[1] == 45 {
            2
        } else {
            1
        };
        lemma_digits_end(s, start);
    }
}

/// Reading a value takes at least one byte from the front of the input and
/// leaves the rest as it was.
pub proof fn lemma_parse_value_rest(s: Seq<u8>)
    ensures
        parse_value(s) matches Ok((_, rest)) ==> rest.len() < s.len() && is_suffix(rest, s),
    decreases s.len(), 0int,
{
    if s.len() > 0 {
        if s[0] == INTEGER {
            lemma_parse_integer_rest(s);
        } else if s[0] == LIST {
            lemma_parse_items_rest(s.skip(1), Seq::empty());
            if let Ok((_, rest)) = parse_items(s.skip(1), Seq::empty()) {
                lemma_suffix_transitive(rest, s.skip(1), s);
            }
        } else if s[0] == DICT {
            lemma_parse_entries_rest(s.skip(1), Seq::empty());
            if let Ok((_, rest)) = parse_entries(s.skip(1), Seq::empty()) {
                lemma_suffix_transitive(rest, s.skip(1), s);
            }
        } else {
            lemma_parse_byte_string_rest(s);
        }
    }
}

/// Reading the items of a list takes at least one byte from the front of
/// the input and leaves the rest as it was.
pub proof fn lemma_parse_items_rest(s: Seq<u8>, acc: Seq<Bencode>)
    ensures
        parse_items(s, acc) matches Ok((_, rest)) ==> rest.len() < s.len() && is_suffix(rest, s),
    decreases s.len(), 1int,
{
    if s.len() > 0 && s[0] != END {
        lemma_parse_value_rest(s);
        if let Ok((v, rest)) = parse_value(s) {
            lemma_parse_items_rest(rest, acc.push(v));
            if let Ok((_, rest2)) = parse_items(rest, acc.push(v)) {
                lemma_suffix_transitive(rest2, rest, s);
            }
        }
    }
}

/// Reading the entries of a dictionary takes at least one byte from the
/// front of the input and leaves the rest as it was.
pub proof fn lemma_parse_entries_rest(s: Seq<u8>, acc: Seq<(Seq<u8>, Bencode)>)
    ensures
        parse_entries(s, acc) matches Ok((_, rest)) ==> rest.len() < s.len() && is_suffix(rest, s),
    decreases s.len(), 1int,
{
    if s.len() > 0 && s[0] != END && s[0] != INTEGER && s[0] != LIST && s[0] != DICT {
        lemma_parse_byte_string_rest(s);
        if let Ok((key, rest)) = parse_byte_string(s) {
            lemma_parse_value_rest(rest);
            if let Ok((v, rest2)) = parse_value(rest) {
                lemma_suffix_transitive(rest2, rest, s);
                let acc2 = crate::bencode::model::dict_insert(acc, key, v);
                lemma_parse_entries_rest(rest2, acc2);
                if let Ok((_, rest3)) = parse_entries(rest2, acc2) {
                    lemma_suffix_transitive(rest3, rest2, s);
                }
            }
        }
    }
}

/// The encoding of a byte string starts with a digit.
pub proof fn lemma_encode_bytes_first(b: Seq<u8>)
    ensures
        encode_bytes(b).len() > 0,
        is_digit(encode_bytes(b)[0]),
{
    lemma_nat_text(b.len());
}

/// No encoding is empty, and none starts with the closing `e`: the first
/// byte is a digit for a byte string, `i`, `l` or `d` for the other kinds.
pub proof fn lemma_encode_first(v: Bencode)
    ensures
        encode(v).len() > 0,
        match v {
            Bencode::ByteString(_) => is_digit(encode(v)[0]),
            Bencode::Integer(_) => encode(v)[0] == INTEGER,
            Bencode::List(_) => encode(v)[0] == LIST,
            Bencode::Dict(_) => encode(v)[0] == DICT,
        },
        encode(v)[0] != END,
{
    match v {
        Bencode::ByteString(b) => {
            lemma_encode_bytes_first(b);
        },
        _ => {},
    }
}

/// A byte string that was encoded is read back, and what follows its
/// encoding is left unread.
pub proof fn lemma_roundtrip_bytes(b: Seq<u8>, r: Seq<u8>)
    ensures
        parse_byte_string(encode_bytes(b) + r) == Ok::<(Seq<u8>, Seq<u8>), Error>((b, r)),
{
    let t = nat_text(b.len());
    let s = encode_bytes(b) + r;
    lemma_nat_text(b.len());
    let d: int = t.len() as int;
    assert(s[d] == COLON);
    assert forall|k: int| 0 <= k < d implies is_digit(#[trigger] s[k]) by {
        assert(s[k] == t[k]);
    }
    lemma_digits_end_at(s, 0, d);
    assert(s.subrange(0, d) =~= t);
    let body = s.skip(d + 1);
    assert(body =~= b + r);
    assert(body.take(b.len() as int) =~= b);
    assert(body.skip(b.len() as int) =~= r);
}

/// An integer of 64 bits that was encoded is read back, and what follows its
/// encoding is left unread.
pub proof fn lemma_roundtrip_integer(n: int, r: Seq<u8>)
    requires
        i64::MIN <= n <= i64::MAX,
    ensures
        parse_integer(encode_integer(n) + r) == Ok::<(int, Seq<u8>), Error>((n, r)),
{
    let s = encode_integer(n) + r;
    let m: nat = if n < 0 {
        (-n) as nat
    } else {
        n as nat
    };
    let t = nat_text(m);
    lemma_nat_text(m);
    let start: int = if n < 0 {
        2
    } else {
        1
    };
    let d: int = start + t.len();
    assert(int_text(n).len() == d - 1);
    assert(s[1] == int_text(n)[0]);
    assert(forall|k: int| start <= k < d ==> s[k] == t[k - start]);
    assert(s[start] == t[0]);
    assert(s[d] == END);
    assert forall|k: int| start <= k < d implies is_digit(#[trigger] s[k]) by {
        assert(s[k] == t[k - start]);
    }
    lemma_digits_end_at(s, start, d);
    assert(s.subrange(start, d) =~= t);
    assert(s.skip(d + 1) =~= r);
}

/// Decoding undoes encoding: a canonical value that was encoded is read back
/// as it was, and what follows its encoding is left unread.
pub proof fn lemma_roundtrip(v: Bencode, r: Seq<u8>)
    requires
        v.canonical(),
    ensures
        parse_value(encode(v) + r) == Ok::<(Bencode, Seq<u8>), Error>((v, r)),
    decreases v, 0int,
{
    let s = encode(v) + r;
    lemma_encode_first(v);
    assert(s[0] == encode(v)[0]);
    match v {
        Bencode::ByteString(b) => {
            lemma_roundtrip_bytes(b, r);
        },
        Bencode::Integer(n) => {
            lemma_roundtrip_integer(n, r);
        },
        Bencode::List(items) => {
            let tail = seq![END] + r;
            assert(s.skip(1) =~= encode_items(items, 0) + tail);
            assert(decreases_to!(v => v->List_0));
            lemma_roundtrip_items(items, 0, Seq::empty(), r);
            assert(Seq::<Bencode>::empty() + items.skip(0) =~= items);
        },
        Bencode::Dict(entries) => {
            let tail = seq![END] + r;
            assert(s.skip(1) =~= encode_entries(entries, 0) + tail);
            assert(decreases_to!(v => v->Dict_0));
            assert(entries.take(0) =~= Seq::<(Seq<u8>, Bencode)>::empty());
            lemma_roundtrip_entries(entries, 0, r);
            assert(entries.take(entries.len() as int) =~= entries);
        },
    }
}

/// The items of a list from the `i`-th on, followed by the closing `e`, are
/// read back after the items in `acc`.
pub proof fn lemma_roundtrip_items(items: Seq<Bencode>, i: int, acc: Seq<Bencode>, r: Seq<u8>)
    requires
        0 <= i <= items.len(),
        forall|k: int| 0 <= k < items.len() ==> (#[trigger] items[k]).canonical(),
    ensures
        parse_items(encode_items(items, i) + (seq![END] + r), acc) == Ok::<
            (Seq<Bencode>, Seq<u8>),
            Error,
        >((acc + items.skip(i), r)),
    decreases items, items.len() - i,
{
    let tail = seq![END] + r;
    let s = encode_items(items, i) + tail;
    if i == items.len() {
        assert(s =~= tail);
        assert(s.skip(1) =~= r);
        assert(acc + items.skip(i) =~= acc);
    } else {
        let rest = encode_items(items, i + 1) + tail;
        assert(s =~= encode(items[i]) + rest);
        lemma_encode_first(items[i]);
        assert(s[0] == encode(items[i])[0]);
        assert(decreases_to!(items => items[i]));
        lemma_roundtrip(items[i], rest);
        lemma_roundtrip_items(items, i + 1, acc.push(items[i]), r);
        assert(acc.push(items[i]) + items.skip(i + 1) =~= acc + items.skip(i));
    }
}

/// The entries of a canonical dictionary from the `i`-th on, followed by the
/// closing `e`, are read back after the first `i` entries.
pub proof fn lemma_roundtrip_entries(entries: Seq<(Seq<u8>, Bencode)>, i: int, r: Seq<u8>)
    requires
        0 <= i <= entries.len(),
        keys_ascending(entries),
        forall|k: int| 0 <= k < entries.len() ==> (#[trigger] entries[k]).1.canonical(),
    ensures
        parse_entries(encode_entries(entries, i) + (seq![END] + r), entries.take(i)) == Ok::<
            (Seq<(Seq<u8>, Bencode)>, Seq<u8>),
            Error,
        >((entries, r)),
    decreases entries, entries.len() - i,
{
    let tail = seq![END] + r;
    let s = encode_entries(entries, i) + tail;
    if i == entries.len() {
        assert(s =~= tail);
        assert(s.skip(1) =~= r);
        assert(entries.take(i) =~= entries);
    } else {
        let key = entries[i].0;
        let value = entries[i].1;
        let rest2 = encode_entries(entries, i + 1) + tail;
        let rest = encode(value) + rest2;
        assert(s =~= encode_bytes(key) + rest);
        lemma_encode_bytes_first(key);
        assert(s[0] == encode_bytes(key)[0]);
        lemma_roundtrip_bytes(key, rest);
        assert(decreases_to!(entries => entries[i]));
        assert(decreases_to!(entries[i] => entries[i].1));
        lemma_roundtrip(value, rest2);
        lemma_encode_first(value);
        let acc = entries.take(i);
        assert forall|j: int| 0 <= j < acc.len() implies lex_lt(#[trigger] acc[j].0, key) by {
            assert(acc[j] == entries[j]);
        }
        lemma_insert_last(acc, key, value);
        assert(acc.push((key, value)) =~= entries.take(i + 1));
        lemma_roundtrip_entries(entries, i + 1, r);
    }
}

/// Binding a key to a canonical value among canonical values leaves all the
/// values canonical.
proof fn lemma_insert_canonical(entries: Seq<(Seq<u8>, Bencode)>, key: Seq<u8>, value: Bencode)
    requires
        keys_ascending(entries),
        value.canonical(),
        forall|k: int| 0 <= k < entries.len() ==> (#[trigger] entries[k]).1.canonical(),
    ensures
        keys_ascending(dict_insert(entries, key, value)),
        forall|k: int|
            0 <= k < dict_insert(entries, key, value).len() ==> (#[trigger] dict_insert(
                entries,
                key,
                value,
            )[k]).1.canonical(),
{
    lemma_insert_ascending(entries, key, value);
    lemma_lower_bound(entries, key);
    let i: int = lower_bound(entries, key);
    let out = dict_insert(entries, key, value);
    assert forall|k: int| 0 <= k < out.len() implies (#[trigger] out[k]).1.canonical() by {
        if i < entries.len() && entries[i].0 == key {
            if k != i {
                assert(out[k] == entries[k]);
            }
        } else if k < i {
            assert(out[k] == entries[k]);
        } else if k > i {
            assert(out[k] == entries[k - 1]);
        }
    }
}

/// What the decoder reads is canonical: every integer fits in 64 bits, and
/// the keys of every dictionary are strictly ascending, each key once.
pub proof fn lemma_parse_value_canonical(s: Seq<u8>)
    ensures
        parse_value(s) matches Ok((v, _)) ==> v.canonical(),
    decreases s.len(), 0int,
{
    if s.len() > 0 {
        if s[0] == LIST {
            lemma_parse_items_canonical(s.skip(1), Seq::empty());
        } else if s[0] == DICT {
            lemma_parse_entries_canonical(s.skip(1), Seq::empty());
        }
    }
}

/// Items read after canonical items are canonical.
pub proof fn lemma_parse_items_canonical(s: Seq<u8>, acc: Seq<Bencode>)
    requires
        forall|k: int| 0 <= k < acc.len() ==> (#[trigger] acc[k]).canonical(),
    ensures
        parse_items(s, acc) matches Ok((items, _)) ==> Bencode::List(items).canonical(),
    decreases s.len(), 1int,
{
    if s.len() > 0 && s[0] != END {
        lemma_parse_value_canonical(s);
        if let Ok((v, rest)) = parse_value(s) {
            if rest.len() < s.len() {
                let acc2 = acc.push(v);
                assert forall|k: int| 0 <= k < acc2.len() implies (
                #[trigger] acc2[k]).canonical() by {
                    if k < acc.len() {
                        assert(acc2[k] == acc[k]);
                    }
                }
                lemma_parse_items_canonical(rest, acc2);
            }
        }
    }
}

/// Entries read after the entries of a canonical dictionary make a
/// canonical dictionary.
pub proof fn lemma_parse_entries_canonical(s: Seq<u8>, acc: Seq<(Seq<u8>, Bencode)>)
    requires
        Bencode::Dict(acc).canonical(),
    ensures
        parse_entries(s, acc) matches Ok((entries, _)) ==> Bencode::Dict(entries).canonical(),
    decreases s.len(), 1int,
{
    if s.len() > 0 && s[0] != END && s[0] != INTEGER && s[0] != LIST && s[0] != DICT {
        if let Ok((key, rest)) = parse_byte_string(s) {
            if rest.len() < s.len() {
                lemma_parse_value_canonical(rest);
                if let Ok((v, rest2)) = parse_value(rest) {
                    if rest2.len() < s.len() {
                        lemma_insert_canonical(acc, key, v);
                        lemma_parse_entries_canonical(rest2, dict_insert(acc, key, v));
                    }
                }
            }
        }
    }
}

/// Encoding and decoding again changes nothing: for every input that
/// decodes, `decode(encode(decode(b))) == decode(b)`.
pub proof fn lemma_decode_encode_decode(b: Seq<u8>)
    requires
        decode(b) is Ok,
    ensures
        decode(encode(decode(b)->Ok_0)) == decode(b),
{
    let v = decode(b)->Ok_0;
    lemma_parse_value_canonical(b);
    lemma_roundtrip(v, Seq::empty());
    assert(encode(v) + Seq::<u8>::empty() =~= encode(v));
}

/// For every canonical value (in particular, one without a key twice in any
/// dictionary), `decode(encode(v)) == v`.
pub proof fn lemma_decode_encode(v: Bencode)
    requires
        v.canonical(),
    ensures
        decode(encode(v)) == Ok::<Bencode, Error>(v),
{
    lemma_roundtrip(v, Seq::empty());
    assert(encode(v) + Seq::<u8>::empty() =~= encode(v));
}

/// The integer decoder takes canonical text only: where it reads `n`, what
/// stood between the first byte and the closing `e` is the text of `n`,
/// which is never `-0` and never has a leading zero.
pub proof fn lemma_parse_integer_canonical(s: Seq<u8>)
    ensures
        parse_integer(s) matches Ok((n, rest)) ==> {
            let text = s.subrange(1, s.len() - rest.len() - 1);
            &&& text == int_text(n)
            &&& encode_integer(n) == seq![INTEGER] + s.subrange(1, s.len() - rest.len())
            &&& !is_minus_zero(text)
            &&& !has_leading_zero(text)
        },
{
    if let Ok((n, rest)) = parse_integer(s) {
        let negative = s.len() > 1 && s[1] == 45;
        let start: int = if negative {
            2
        } else {
            1
        };
        lemma_digits_end(s, start);
        let d: int = digits_end(s, start);
        let digits = s.subrange(start, d);
        assert forall|k: int| 0 <= k < digits.len() implies is_digit(#[trigger] digits[k]) by {
            assert(digits[k] == s[start + k]);
        }
        assert(digits[0] == s[start]);
        lemma_text_of_digits(digits);
        lemma_nat_text(digits_value(digits));
        let text = s.subrange(1, s.len() - rest.len() - 1);
        assert(s.len() - rest.len() - 1 == d);
        if negative {
            assert(text =~= seq![45u8] + digits);
            assert(digits_value(digits) != 0);
        } else {
            assert(text =~= digits);
        }
        assert(text == int_text(n));
        lemma_int_text_forms(n);
        assert(encode_integer(n) =~= seq![INTEGER] + s.subrange(1, s.len() - rest.len()));
    }
}

/// Where in the encoding of a dictionary the `i`-th entry starts.
pub open spec fn entry_offset(entries: Seq<(Seq<u8>, Bencode)>, i: int) -> int {
    1 + encode_entries(entries, 0).len() - encode_entries(entries, i).len()
}

/// The entries of a dictionary before the `i`-th take up the bytes of its
/// encoding before the `i`-th entry, which starts with the `i`-th key.
pub proof fn lemma_entry_offset(entries: Seq<(Seq<u8>, Bencode)>, i: int)
    requires
        0 <= i < entries.len(),
    ensures
        1 <= entry_offset(entries, i),
        entry_offset(entries, i) + encode_bytes(entries[i].0).len() < encode(
            Bencode::Dict(entries),
        ).len(),
        encode(Bencode::Dict(entries)).subrange(
            entry_offset(entries, i),
            entry_offset(entries, i) + encode_bytes(entries[i].0).len(),
        ) == encode_bytes(entries[i].0),
        i + 1 < entries.len() ==> entry_offset(entries, i) < entry_offset(entries, i + 1),
{
    lemma_entries_split(entries, i);
    let whole = encode(Bencode::Dict(entries));
    let from_i = encode_entries(entries, i);
    let head = encode_entries(entries, 0).take(entry_offset(entries, i) - 1);
    assert(whole =~= seq![DICT] + head + from_i + seq![END]);
    let key = encode_bytes(entries[i].0);
    assert(from_i =~= key + (encode(entries[i].1) + encode_entries(entries, i + 1)));
    assert(whole.subrange(entry_offset(entries, i), entry_offset(entries, i) + key.len()) =~= key);
    lemma_encode_bytes_first(entries[i].0);
}

proof fn lemma_entries_split(entries: Seq<(Seq<u8>, Bencode)>, i: int)
    requires
        0 <= i <= entries.len(),
    ensures
        encode_entries(entries, i).len() <= encode_entries(entries, 0).len(),
        encode_entries(entries, 0) == encode_entries(entries, 0).take(
            encode_entries(entries, 0).len() - encode_entries(entries, i).len(),
        ) + encode_entries(entries, i),
    decreases i,
{
    let all = encode_entries(entries, 0);
    if i == 0 {
        assert(all =~= all.take(0) + all);
    } else {
        lemma_entries_split(entries, i - 1);
        let prev = encode_entries(entries, i - 1);
        let cur = encode_entries(entries, i);
        assert(prev =~= encode_bytes(entries[i - 1].0) + encode(entries[i - 1].1) + cur);
        assert(all =~= all.take(all.len() - cur.len()) + cur);
    }
}

/// The encoding of a canonical dictionary writes its keys in strictly
/// ascending lexicographic order: of two entries the one that is written
/// first has the smaller key.
pub proof fn lemma_encode_keys_ascending(entries: Seq<(Seq<u8>, Bencode)>, i: int, j: int)
    requires
        Bencode::Dict(entries).canonical(),
        0 <= i < j < entries.len(),
    ensures
        entry_offset(entries, i) < entry_offset(entries, j),
        lex_lt(entries[i].0, entries[j].0),
    decreases j - i,
{
    lemma_entry_offset(entries, i);
    if i + 1 < j {
        lemma_encode_keys_ascending(entries, i + 1, j);
    }
}

} // verus!

use vstd::prelude::*;
use crate::bencode::error::Error;
use crate::bencode::model::{Bencode, dict_insert};
use crate::bencode::text::{digits_end, digits_value, int_text, nat_text};

verus! {

/// The byte `i`, which opens an integer.
pub const INTEGER: u8 = 105;

/// The byte `l`, which opens a list.
pub const LIST: u8 = 108;

/// The byte `d`, which opens a dictionary.
pub const DICT: u8 = 100;

/// The byte `e`, which closes an integer, a list or a dictionary.
pub const END: u8 = 101;

/// The byte `:`, which ends the length of a byte string.
pub const COLON: u8 = 58;

/// The encoding of a byte string: its length in decimal, a colon, its bytes.
pub open spec fn encode_bytes(b: Seq<u8>) -> Seq<u8> {
    nat_text(b.len()) + seq![COLON] + b
}

/// The encoding of an integer: `i`, its canonical decimal text, `e`.
pub open spec fn encode_integer(n: int) -> Seq<u8> {
    seq![INTEGER] + int_text(n) + seq![END]
}

/// The encoding of a value. The entries of a dictionary are written in the
/// order of the sequence, which in a canonical value is ascending by key.
pub open spec fn encode(v: Bencode) -> Seq<u8>
    decreases v, 0int,
{
    match v {
        Bencode::ByteString(b) => encode_bytes(b),
        Bencode::Integer(n) => encode_integer(n),
        Bencode::List(items) => seq![LIST] + encode_items(items, 0) + seq![END],
        Bencode::Dict(entries) => seq![DICT] + encode_entries(entries, 0) + seq![END],
    }
}

/// The encodings of `items[i..]`, one after the other.
pub open spec fn encode_items(items: Seq<Bencode>, i: int) -> Seq<u8>
    decreases items, items.len() - i,
{
    if 0 <= i < items.len() {
        encode(items[i]) + encode_items(items, i + 1)
    } else {
        Seq::empty()
    }
}

/// The encodings of `entries[i..]`, each a key followed by its value.
pub open spec fn encode_entries(entries: Seq<(Seq<u8>, Bencode)>, i: int) -> Seq<u8>
    decreases entries, entries.len() - i,
{
    if 0 <= i < entries.len() {
        encode_bytes(entries[i].0) + encode(entries[i].1) + encode_entries(entries, i + 1)
    } else {
        Seq::empty()
    }
}

/// Reads a byte string from the front of `s`: the bytes and the rest of the
/// input. `Eof` where the input ends before the colon or before the last
/// byte, `InvalidLength` where no decimal length stands before a colon.
pub open spec fn parse_byte_string(s: Seq<u8>) -> Result<(Seq<u8>, Seq<u8>), Error> {
    let d: int = digits_end(s, 0);
    if d >= s.len() {
        Err(Error::Eof)
    } else if d == 0 || s[d] != COLON {
        Err(Error::InvalidLength)
    } else {
        let n: nat = digits_value(s.subrange(0, d));
        let body = s.skip(d + 1);
        if n > body.len() {
            Err(Error::Eof)
        } else {
            Ok((body.take(n as int), body.skip(n as int)))
        }
    }
}

/// Reads an integer from the front of `s`, whose first byte is passed over
/// unread: the number and the rest of the input. `Eof` where the input ends
/// before the closing `e`; `InvalidInteger` where what stands before it is
/// not canonical (`-0`, a leading zero, no digit, a stray byte) or does not
/// fit in 64 bits.
pub open spec fn parse_integer(s: Seq<u8>) -> Result<(int, Seq<u8>), Error> {
    if s.len() == 0 {
        Err(Error::Eof)
    } else {
        let negative = s.len() > 1 && s[1] == 45;
        let start: int = if negative {
            2
        } else {
            1
        };
        let d: int = digits_end(s, start);
        if d >= s.len() {
            Err(Error::Eof)
        } else if s[d] != END || d == start {
            Err(Error::InvalidInteger)
        } else if s[start] == 48 && (negative || d > start + 1) {
            Err(Error::InvalidInteger)
        } else {
            let magnitude: nat = digits_value(s.subrange(start, d));
            let n: int = if negative {
                -(magnitude as int)
            } else {
                magnitude as int
            };
            if i64::MIN <= n <= i64::MAX {
                Ok((n, s.skip(d + 1)))
            } else {
                Err(Error::InvalidInteger)
            }
        }
    }
}

/// Reads one value from the front of `s`: the value and the rest of the
/// input. The first byte decides the kind: `i`, `l`, `d`, or else a byte
/// string.
pub open spec fn parse_value(s: Seq<u8>) -> Result<(Bencode, Seq<u8>), Error>
    decreases s.len(), 0int,
{
    if s.len() == 0 {
        Err(Error::Eof)
    } else if s[0] == INTEGER {
        match parse_integer(s) {
            Ok((n, rest)) => Ok((Bencode::Integer(n), rest)),
            Err(e) => Err(e),
        }
    } else if s[0] == LIST {
        match parse_items(s.skip(1), Seq::empty()) {
            Ok((items, rest)) => Ok((Bencode::List(items), rest)),
            Err(e) => Err(e),
        }
    } else if s[0] == DICT {
        match parse_entries(s.skip(1), Seq::empty()) {
            Ok((entries, rest)) => Ok((Bencode::Dict(entries), rest)),
            Err(e) => Err(e),
        }
    } else {
        match parse_byte_string(s) {
            Ok((b, rest)) => Ok((Bencode::ByteString(b), rest)),
            Err(e) => Err(e),
        }
    }
}

/// Reads values up to the closing `e` and adds them to `acc`: all the items
/// and the rest of the input.
pub open spec fn parse_items(s: Seq<u8>, acc: Seq<Bencode>) -> Result<
    (Seq<Bencode>, Seq<u8>),
    Error,
>
    decreases s.len(), 1int,
{
    if s.len() == 0 {
        Err(Error::Eof)
    } else if s[0] == END {
        Ok((acc, s.skip(1)))
    } else {
        match parse_value(s) {
            Ok((v, rest)) => if rest.len() < s.len() {
                parse_items(rest, acc.push(v))
            } else {
                Err(Error::Eof)
            },
            Err(e) => Err(e),
        }
    }
}

/// Reads keys and values up to the closing `e` and binds them in `acc`, a
/// later binding of a key replacing an earlier one: all the entries and the
/// rest of the input. `NotByteStringType` where a key is no byte string.
pub open spec fn parse_entries(s: Seq<u8>, acc: Seq<(Seq<u8>, Bencode)>) -> Result<
    (Seq<(Seq<u8>, Bencode)>, Seq<u8>),
    Error,
>
    decreases s.len(), 1int,
{
    if s.len() == 0 {
        Err(Error::Eof)
    } else if s[0] == END {
        Ok((acc, s.skip(1)))
    } else if s[0] == INTEGER || s[0] == LIST || s[0] == DICT {
        Err(Error::NotByteStringType)
    } else {
        match parse_byte_string(s) {
            Ok((key, rest)) => if rest.len() < s.len() {
                match parse_value(rest) {
                    Ok((v, rest2)) => if rest2.len() < s.len() {
                        parse_entries(rest2, dict_insert(acc, key, v))
                    } else {
                        Err(Error::Eof)
                    },
                    Err(e) => Err(e),
                }
            } else {
                Err(Error::Eof)
            },
            Err(e) => Err(e),
        }
    }
}

/// Reads a list from the front of `s`, whose first byte is passed over
/// unread.
pub open spec fn parse_list(s: Seq<u8>) -> Result<(Seq<Bencode>, Seq<u8>), Error> {
    if s.len() == 0 {
        Err(Error::Eof)
    } else {
        parse_items(s.skip(1), Seq::empty())
    }
}

/// Reads a dictionary from the front of `s`, whose first byte is passed over
/// unread.
pub open spec fn parse_dict(s: Seq<u8>) -> Result<(Seq<(Seq<u8>, Bencode)>, Seq<u8>), Error> {
    if s.len() == 0 {
        Err(Error::Eof)
    } else {
        parse_entries(s.skip(1), Seq::empty())
    }
}

/// The value that `s` starts with; what follows it is not looked at.
pub open spec fn decode(s: Seq<u8>) -> Result<Bencode, Error> {
    match parse_value(s) {
        Ok((v, _)) => Ok(v),
        Err(e) => Err(e),
    }
}

} // verus!

use vstd::prelude::*;
use vstd::slice::{slice_subrange, slice_to_vec};
use crate::bencode::error::Error;
use crate::bencode::grammar::{
    COLON, DICT, END, INTEGER, LIST, decode, parse_byte_string, parse_dict, parse_entries,
    parse_integer, parse_items, parse_list, parse_value,
};
use crate::bencode::model::Bencode;
use crate::bencode::roundtrip::{
    is_suffix, lemma_parse_byte_string_rest, lemma_parse_value_canonical, lemma_parse_value_rest,
    lemma_skip_is_suffix, lemma_suffix_transitive,
};
use crate::bencode::text::{MINUS, ZERO, lemma_digits_end, read_decimal, scan_digits};
use crate::bencode::value::{Dict, Value, values_view};

verus! {

/// Reads bencode from the front of a byte slice, value by value.
pub struct Decoder<'a> {
    data: &'a [u8],
}

impl<'a> View for Decoder<'a> {
    type V = Seq<u8>;

    /// The bytes not yet read.
    closed spec fn view(&self) -> Seq<u8> {
        self.data@
    }
}

impl<'a> Decoder<'a> {
    /// A decoder that has all of `data` before it.
    pub fn new(data: &'a [u8]) -> (d: Decoder<'a>)
        ensures
            d@ == data@,
    {
        Decoder { data }
    }

    /// The number of bytes not yet read.
    pub fn remaining(&self) -> (n: usize)
        ensures
            n == self@.len(),
    {
        self.data.len()
    }

    /// Passes over one byte, if there is one.
    pub fn skip_byte(&mut self) -> (r: Result<(), Error>)
        ensures
            r is Ok,
            final(self)@ == if old(self)@.len() > 0 {
                old(self)@.skip(1)
            } else {
                old(self)@
            },
    {
        if self.data.len() > 0 {
            self.data = slice_subrange(self.data, 1, self.data.len());
        }
        Ok(())
    }

    /// Reads a length-prefixed run of bytes.
    fn read_bytes(&mut self) -> (r: Result<Vec<u8>, Error>)
        ensures
            match parse_byte_string(old(self)@) {
                Ok((b, rest)) => r matches Ok(x) && x@ == b && final(self)@ == rest,
                Err(e) => r matches Err(x) && x == e && final(self)@ == old(self)@,
            },
    {
        let s = self.data;
        let d: usize = scan_digits(s, 0);
        if d >= s.len() {
            return Err(Error::Eof);
        }
        if d == 0 || s[d] != COLON {
            return Err(Error::InvalidLength);
        }
        proof {
            lemma_digits_end(s@, 0);
        }
        let room: usize = s.len() - d - 1;
        match read_decimal(s, 0, d, room as u64) {
            None => Err(Error::Eof),
            Some(n) => {
                let start: usize = d + 1;
                let end: usize = start + n as usize;
                let bytes = slice_to_vec(slice_subrange(s, start, end));
                self.data = slice_subrange(s, end, s.len());
                proof {
                    let body = s@.skip(d + 1);
                    assert(bytes@ =~= body.take(n as int));
                    assert(self.data@ =~= body.skip(n as int));
                }
                Ok(bytes)
            },
        }
    }

    /// Reads a byte string: a decimal length, a colon, that many bytes.
    /// `Eof` where the input ends too early, `InvalidLength` where no
    /// decimal length stands before a colon.
    pub fn read_byte_string(&mut self) -> (r: Result<Value, Error>)
        ensures
            match parse_byte_string(old(self)@) {
                Ok((b, rest)) => r matches Ok(x) && x@ == Bencode::ByteString(b) && final(self)@
                    == rest,
                Err(e) => r matches Err(x) && x == e,
            },
            is_suffix(final(self)@, old(self)@),
    {
        proof {
            lemma_parse_byte_string_rest(self@);
        }
        match self.read_bytes() {
            Ok(bytes) => Ok(Value::ByteString(bytes)),
            Err(e) => Err(e),
        }
    }

    /// Reads an integer; the first byte is passed over unread. `Eof` where
    /// the input ends before the closing `e`, `InvalidInteger` where the
    /// text is not canonical (`-0`, a leading zero, no digit, a stray byte)
    /// or the number does not fit in 64 bits.
    pub fn read_integer(&mut self) -> (r: Result<Value, Error>)
        ensures
            match parse_integer(old(self)@) {
                Ok((n, rest)) => r matches Ok(x) && x@ == Bencode::Integer(n) && final(self)@
                    == rest,
                Err(e) => r matches Err(x) && x == e && final(self)@ == old(self)@,
            },
            is_suffix(final(self)@, old(self)@),
    {
        let s = self.data;
        if s.len() == 0 {
            return Err(Error::Eof);
        }
        let negative: bool = s.len() > 1 && s[1] == MINUS;
        let start: usize = if negative {
            2
        } else {
            1
        };
        let d: usize = scan_digits(s, start);
        if d >= s.len() {
            return Err(Error::Eof);
        }
        if s[d] != END || d == start {
            return Err(Error::InvalidInteger);
        }
        if s[start] == ZERO && (negative || d > start + 1) {
            return Err(Error::InvalidInteger);
        }
        proof {
            lemma_digits_end(s@, start as int);
        }
        let limit: u64 = if negative {
            0x8000_0000_0000_0000
        } else {
            0x7fff_ffff_ffff_ffff
        };
        match read_decimal(s, start, d, limit) {
            None => Err(Error::InvalidInteger),
            Some(magnitude) => {
                let n: i64 = if negative {
                    (-(magnitude as i128)) as i64
                } else {
                    magnitude as i64
                };
                self.data = slice_subrange(s, d + 1, s.len());
                Ok(Value::Integer(n))
            },
        }
    }

    /// Reads a list: values up to the closing `e`; the first byte is passed
    /// over unread.
    pub fn read_list(&mut self) -> (r: Result<Value, Error>)
        ensures
            match parse_list(old(self)@) {
                Ok((items, rest)) => r matches Ok(x) && x@ == Bencode::List(items) && final(self)@
                    == rest,
                Err(e) => r matches Err(x) && x == e,
            },
            is_suffix(final(self)@, old(self)@),
        decreases old(self)@.len(), 1int,
    {
        if self.data.len() == 0 {
            return Err(Error::Eof);
        }
        self.data = slice_subrange(self.data, 1, self.data.len());
        let mut res: Vec<Value> = Vec::new();
        proof {
            assert(values_view(res@) =~= Seq::<Bencode>::empty());
        }
        loop
            invariant
                self@.len() < old(self)@.len(),
                is_suffix(self@, old(self)@),
                parse_list(old(self)@) == parse_items(self@, values_view(res@)),
            decreases self@.len(),
        {
            if self.data.len() == 0 {
                return Err(Error::Eof);
            }
            if self.data[0] == END {
                let ghost before = self@;
                self.data = slice_subrange(self.data, 1, self.data.len());
                proof {
                    lemma_skip_is_suffix(before, 1);
                    lemma_suffix_transitive(self@, before, old(self)@);
                }
                return Ok(Value::List(res));
            }
            let ghost before = self@;
            let ghost items = values_view(res@);
            proof {
                lemma_parse_value_rest(before);
            }
            match self.read_value() {
                Ok(v) => {
                    proof {
                        lemma_suffix_transitive(self@, before, old(self)@);
                    }
                    res.push(v);
                    proof {
                        assert(values_view(res@) =~= items.push(v@));
                    }
                },
                Err(e) => {
                    proof {
                        lemma_suffix_transitive(self@, before, old(self)@);
                    }
                    return Err(e);
                },
            }
        }
    }

    /// Reads a dictionary: keys and values up to the closing `e`; the first
    /// byte is passed over unread. A key read twice keeps its last value.
    /// `NotByteStringType` where a key is no byte string.
    pub fn read_dict(&mut self) -> (r: Result<Value, Error>)
        ensures
            match parse_dict(old(self)@) {
                Ok((entries, rest)) => r matches Ok(x) && x@ == Bencode::Dict(entries)
                    && final(self)@ == rest,
                Err(e) => r matches Err(x) && x == e,
            },
            is_suffix(final(self)@, old(self)@),
        decreases old(self)@.len(), 1int,
    {
        if self.data.len() == 0 {
            return Err(Error::Eof);
        }
        self.data = slice_subrange(self.data, 1, self.data.len());
        let mut res = Dict::new();
        loop
            invariant
                self@.len() < old(self)@.len(),
                is_suffix(self@, old(self)@),
                parse_dict(old(self)@) == parse_entries(self@, res@),
            decreases self@.len(),
        {
            if self.data.len() == 0 {
                return Err(Error::Eof);
            }
            let first: u8 = self.data[0];
            if first == END {
                let ghost before = self@;
                self.data = slice_subrange(self.data, 1, self.data.len());
                proof {
                    lemma_skip_is_suffix(before, 1);
                    lemma_suffix_transitive(self@, before, old(self)@);
                }
                return Ok(Value::Dict(res));
            }
            if first == INTEGER || first == LIST || first == DICT {
                return Err(Error::NotByteStringType);
            }
            let ghost before = self@;
            proof {
                lemma_parse_byte_string_rest(before);
            }
            let key = match self.read_bytes() {
                Ok(key) => key,
                Err(e) => {
                    return Err(e);
                },
            };
            let ghost middle = self@;
            proof {
                lemma_parse_value_rest(middle);
                lemma_suffix_transitive(middle, before, old(self)@);
            }
            match self.read_value() {
                Ok(v) => {
                    proof {
                        lemma_suffix_transitive(self@, middle, old(self)@);
                    }
                    res.insert(key, v);
                },
                Err(e) => {
                    proof {
                        lemma_suffix_transitive(self@, middle, old(self)@);
                    }
                    return Err(e);
                },
            }
        }
    }

    /// Reads one value of the kind that the next byte announces: `i` an
    /// integer, `l` a list, `d` a dictionary, anything else a byte string.
    /// `Eof` where nothing is left to read.
    pub fn read_value(&mut self) -> (r: Result<Value, Error>)
        ensures
            match parse_value(old(self)@) {
                Ok((v, rest)) => r matches Ok(x) && x@ == v && final(self)@ == rest,
                Err(e) => r matches Err(x) && x == e,
            },
            is_suffix(final(self)@, old(self)@),
        decreases old(self)@.len(), 2int,
    {
        if self.data.len() == 0 {
            return Err(Error::Eof);
        }
        let first: u8 = self.data[0];
        if first == INTEGER {
            self.read_integer()
        } else if first == LIST {
            self.read_list()
        } else if first == DICT {
            self.read_dict()
        } else {
            self.read_byte_string()
        }
    }
}

/// Decodes the value that `v` starts with. Bytes that follow the value are
/// not looked at. What is decoded is canonical.
pub fn from_bytes(v: &[u8]) -> (r: Result<Value, Error>)
    ensures
        match decode(v@) {
            Ok(x) => r matches Ok(y) && y@ == x && x.canonical(),
            Err(e) => r matches Err(x) && x == e,
        },
{
    proof {
        lemma_parse_value_canonical(v@);
    }
    let mut decoder = Decoder::new(v);
    decoder.read_value()
}

/// Decodes the value that `v` starts with, and says how many bytes it took:
/// the value is the encoding's meaning, and `v[used..]` is what follows it.
pub fn from_prefix(v: &[u8]) -> (r: Result<(Value, usize), Error>)
    ensures
        match parse_value(v@) {
            Ok((x, rest)) => r matches Ok((y, used)) && y@ == x && x.canonical() && 0 < used
                <= v.len() && v@.skip(used as int) == rest,
            Err(e) => r matches Err(x) && x == e,
        },
{
    let mut decoder = Decoder::new(v);
    proof {
        lemma_parse_value_rest(v@);
        lemma_parse_value_canonical(v@);
    }
    match decoder.read_value() {
        Ok(value) => {
            let used: usize = v.len() - decoder.remaining();
            Ok((value, used))
        },
        Err(e) => Err(e),
    }
}

} // verus!

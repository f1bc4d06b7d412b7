use vstd::prelude::*;
use crate::bencode::error::Error;
use crate::bencode::grammar::{
    COLON, DICT, END, INTEGER, LIST, encode, encode_bytes, encode_entries, encode_integer,
    encode_items,
};
use crate::bencode::model::{Bencode, keys_ascending};
use crate::bencode::text::{MINUS, push_decimal};
use crate::bencode::value::{Dict, Value, values_view};

verus! {

/// Writes bencode into a buffer that grows.
pub struct Encoder {
    buf: Vec<u8>,
}

impl View for Encoder {
    type V = Seq<u8>;

    /// The bytes written so far.
    closed spec fn view(&self) -> Seq<u8> {
        self.buf@
    }
}

impl Encoder {
    /// An encoder that has written nothing.
    pub fn new() -> (e: Encoder)
        ensures
            e@ == Seq::<u8>::empty(),
    {
        Encoder { buf: Vec::new() }
    }

    /// Writes a byte string: its length in decimal, a colon, its bytes.
    pub fn write_byte_string(&mut self, v: &[u8]) -> (r: Result<(), Error>)
        ensures
            r is Ok,
            final(self)@ == old(self)@ + encode_bytes(v@),
    {
        push_decimal(&mut self.buf, v.len() as u64);
        self.buf.push(COLON);
        let ghost head = self.buf@;
        let mut i: usize = 0;
        while i < v.len()
            invariant
                i <= v.len(),
                self.buf@ == head + v@.take(i as int),
            decreases v.len() - i,
        {
            self.buf.push(v[i]);
            proof {
                assert(v@.take(i + 1) =~= v@.take(i as int).push(v@[i as int]));
                assert(self.buf@ =~= head + v@.take(i + 1));
            }
            i += 1;
        }
        proof {
            assert(v@.take(i as int) =~= v@);
            assert(self.buf@ =~= old(self)@ + encode_bytes(v@));
        }
        Ok(())
    }

    /// Writes an integer: `i`, its canonical decimal text, `e`.
    pub fn write_integer(&mut self, v: i64) -> (r: Result<(), Error>)
        ensures
            r is Ok,
            final(self)@ == old(self)@ + encode_integer(v as int),
    {
        self.buf.push(INTEGER);
        if v < 0 {
            self.buf.push(MINUS);
            let magnitude: u64 = (-(v as i128)) as u64;
            push_decimal(&mut self.buf, magnitude);
        } else {
            push_decimal(&mut self.buf, v as u64);
        }
        self.buf.push(END);
        proof {
            assert(self.buf@ =~= old(self)@ + encode_integer(v as int));
        }
        Ok(())
    }

    /// Writes a list: `l`, the items in order, `e`. Every item is canonical.
    pub fn write_list(&mut self, l: &[Value]) -> (r: Result<(), Error>)
        ensures
            r is Ok,
            final(self)@ == old(self)@ + encode(Bencode::List(values_view(l@))),
            Bencode::List(values_view(l@)).canonical(),
        decreases Bencode::List(values_view(l@)), 0int,
    {
        let ghost items = values_view(l@);
        self.buf.push(LIST);
        let ghost head = self.buf@;
        let mut i: usize = 0;
        while i < l.len()
            invariant
                i <= l.len(),
                items == values_view(l@),
                self.buf@ + encode_items(items, i as int) == head + encode_items(items, 0),
                forall|k: int| 0 <= k < i ==> (#[trigger] items[k]).canonical(),
            decreases l.len() - i,
        {
            let ghost before = self.buf@;
            proof {
                assert(items[i as int] == l@[i as int]@);
                assert(decreases_to!(items => items[i as int]));
                let whole = Bencode::List(items);
                assert(decreases_to!(whole => whole->List_0));
            }
            let _ = self.write_value(&l[i]);
            proof {
                assert(items[i as int] == l@[i as int]@);
                assert(self.buf@ + encode_items(items, i + 1) =~= before + encode_items(
                    items,
                    i as int,
                ));
            }
            i += 1;
        }
        self.buf.push(END);
        proof {
            assert(self.buf@ =~= old(self)@ + encode(Bencode::List(items)));
        }
        Ok(())
    }

    /// Writes a dictionary: `d`, each key followed by its value, in
    /// ascending key order, `e`. Every value is canonical.
    pub fn write_dict(&mut self, dict: &Dict) -> (r: Result<(), Error>)
        ensures
            r is Ok,
            final(self)@ == old(self)@ + encode(Bencode::Dict(dict@)),
            Bencode::Dict(dict@).canonical(),
        decreases Bencode::Dict(dict@), 0int,
    {
        let ghost entries = dict@;
        self.buf.push(DICT);
        let ghost head = self.buf@;
        let n: usize = dict.len();
        let mut i: usize = 0;
        while i < n
            invariant
                i <= n,
                n == entries.len(),
                entries == dict@,
                keys_ascending(entries),
                self.buf@ + encode_entries(entries, i as int) == head + encode_entries(entries, 0),
                forall|k: int| 0 <= k < i ==> (#[trigger] entries[k]).1.canonical(),
            decreases n - i,
        {
            let ghost before = self.buf@;
            let (key, value) = dict.entry(i);
            proof {
                assert(decreases_to!(entries => entries[i as int]));
                assert(decreases_to!(entries[i as int] => entries[i as int].1));
                let whole = Bencode::Dict(entries);
                assert(decreases_to!(whole => whole->Dict_0));
            }
            let _ = self.write_byte_string(key.as_slice());
            let _ = self.write_value(value);
            proof {
                assert(self.buf@ == before + encode_bytes(entries[i as int].0) + encode(
                    entries[i as int].1,
                ));
                assert(self.buf@ + encode_entries(entries, i + 1) =~= before + encode_entries(
                    entries,
                    i as int,
                ));
            }
            i += 1;
        }
        self.buf.push(END);
        proof {
            assert(self.buf@ =~= old(self)@ + encode(Bencode::Dict(entries)));
        }
        Ok(())
    }

    /// Writes a value of any kind. The value is canonical: the keys of each
    /// of its dictionaries are written in strictly ascending order.
    pub fn write_value(&mut self, value: &Value) -> (r: Result<(), Error>)
        ensures
            r is Ok,
            final(self)@ == old(self)@ + encode(value@),
            value@.canonical(),
        decreases value@, 1int,
    {
        match value {
            Value::ByteString(v) => self.write_byte_string(v.as_slice()),
            Value::Integer(v) => self.write_integer(*v),
            Value::List(v) => self.write_list(v.as_slice()),
            Value::Dict(v) => self.write_dict(v),
        }
    }

    /// The bytes written so far.
    pub fn buffer(&self) -> (r: &[u8])
        ensures
            r@ == self@,
    {
        self.buf.as_slice()
    }
}

/// Encodes `value`. The result is the encoding of a canonical value: the
/// keys of every dictionary in it appear in strictly ascending order.
pub fn to_bytes(value: &Value) -> (r: Result<Vec<u8>, Error>)
    ensures
        r matches Ok(bytes) && bytes@ == encode(value@),
        value@.canonical(),
{
    let mut encoder = Encoder::new();
    let _ = encoder.write_value(value);
    Ok(encoder.buf)
}

} // verus!

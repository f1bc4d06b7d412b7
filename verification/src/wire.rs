use vstd::prelude::*;
use vstd::string::StringSliceAdditionalSpecFns;
use vstd::utf8::{decode_utf8, valid_utf8};
use crate::bencode::model::{Bencode, dict_get, dict_insert};
use crate::bencode::value::{Dict, Value};
use crate::bencode;
use crate::errors::Error;

verus! {

/// The bytes of a dictionary key.
pub open spec fn key(name: &str) -> Seq<u8> {
    name.spec_bytes()
}

/// `entries` with the key `name` bound to `value`.
pub open spec fn bound(entries: Seq<(Seq<u8>, Bencode)>, name: &str, value: Bencode) -> Seq<
    (Seq<u8>, Bencode),
> {
    dict_insert(entries, key(name), value)
}

/// A byte string read as UTF-8 text.
pub open spec fn text_of(v: Bencode) -> Result<Seq<char>, Error> {
    match v {
        Bencode::ByteString(b) => if valid_utf8(b) {
            Ok(decode_utf8(b))
        } else {
            Err(Error::Bencode(bencode::Error::Utf8))
        },
        _ => Err(Error::Bencode(bencode::Error::NotByteStringType)),
    }
}

/// The bytes of a byte string.
pub open spec fn bytes_of(v: Bencode) -> Result<Seq<u8>, Error> {
    match v {
        Bencode::ByteString(b) => Ok(b),
        _ => Err(Error::Bencode(bencode::Error::NotByteStringType)),
    }
}

/// The number of an integer.
pub open spec fn integer_of(v: Bencode) -> Result<int, Error> {
    match v {
        Bencode::Integer(n) => Ok(n),
        _ => Err(Error::Bencode(bencode::Error::NotIntegerType)),
    }
}

/// The items of a list.
pub open spec fn list_of(v: Bencode) -> Result<Seq<Bencode>, Error> {
    match v {
        Bencode::List(items) => Ok(items),
        _ => Err(Error::Bencode(bencode::Error::NotListType)),
    }
}

/// The entries of a dictionary.
pub open spec fn dict_of(v: Bencode) -> Result<Seq<(Seq<u8>, Bencode)>, Error> {
    match v {
        Bencode::Dict(entries) => Ok(entries),
        _ => Err(Error::Bencode(bencode::Error::NotDictType)),
    }
}

/// The value under the key `name`; `DictNotFound` with that name where the
/// key is absent.
pub open spec fn lookup(entries: Seq<(Seq<u8>, Bencode)>, name: &'static str) -> Result<
    Bencode,
    Error,
> {
    match dict_get(entries, key(name)) {
        Some(v) => Ok(v),
        None => Err(Error::DictNotFound(name)),
    }
}

/// The value under the key `name`; `DictNotFound` with that name where the
/// key is absent.
pub fn find<'a>(dict: &'a Dict, name: &'static str) -> (r: Result<&'a Value, Error>)
    ensures
        match lookup(dict@, name) {
            Ok(v) => r matches Ok(x) && x@ == v,
            Err(e) => r matches Err(x) && x == e,
        },
{
    match dict.get(name.as_bytes()) {
        Some(v) => Ok(v),
        None => Err(Error::DictNotFound(name)),
    }
}

/// Binds the key `name` to `value` in `dict`.
pub fn bind(dict: &mut Dict, name: &str, value: Value)
    ensures
        final(dict)@ == bound(old(dict)@, name, value@),
{
    dict.insert(vstd::slice::slice_to_vec(name.as_bytes()), value);
}

/// Appends `tail` to `buf`.
pub fn extend(buf: &mut Vec<u8>, tail: &[u8])
    ensures
        final(buf)@ == old(buf)@ + tail@,
{
    let mut i: usize = 0;
    while i < tail.len()
        invariant
            i <= tail.len(),
            buf@ == old(buf)@ + tail@.take(i as int),
        decreases tail.len() - i,
    {
        buf.push(tail[i]);
        proof {
            assert(tail@.take(i + 1) =~= tail@.take(i as int).push(tail@[i as int]));
            assert(buf@ =~= old(buf)@ + tail@.take(i + 1));
        }
        i += 1;
    }
    proof {
        assert(tail@.take(i as int) =~= tail@);
    }
}

/// The four bytes of `n`, the highest first.
pub open spec fn u32_be(n: u32) -> Seq<u8> {
    seq![
        (n / 0x100_0000) as u8,
        (n / 0x1_0000 % 0x100) as u8,
        (n / 0x100 % 0x100) as u8,
        (n % 0x100) as u8,
    ]
}

/// The number that four bytes write, the highest first.
pub open spec fn be_u32(b: Seq<u8>) -> nat {
    (b[0] * 0x100_0000 + b[1] * 0x1_0000 + b[2] * 0x100 + b[3]) as nat
}

/// A message as it goes over the wire: the length of the payload in four
/// bytes, the highest first, then the payload.
pub open spec fn framed(payload: Seq<u8>) -> Seq<u8> {
    u32_be(payload.len() as u32) + payload
}

/// Puts the length of `payload` before it, in four bytes.
pub fn frame(payload: &[u8]) -> (message: Vec<u8>)
    requires
        payload@.len() <= u32::MAX,
    ensures
        message@ == framed(payload@),
        message@.len() == payload@.len() + 4,
        be_u32(message@.take(4)) == payload@.len(),
{
    let n: u32 = payload.len() as u32;
    let mut out: Vec<u8> = Vec::new();
    out.push((n / 0x100_0000) as u8);
    out.push((n / 0x1_0000 % 0x100) as u8);
    out.push((n / 0x100 % 0x100) as u8);
    out.push((n % 0x100) as u8);
    let ghost head = out@;
    let mut i: usize = 0;
    while i < payload.len()
        invariant
            i <= payload.len(),
            out@ == head + payload@.take(i as int),
        decreases payload.len() - i,
    {
        out.push(payload[i]);
        proof {
            assert(payload@.take(i + 1) =~= payload@.take(i as int).push(payload@[i as int]));
            assert(out@ =~= head + payload@.take(i + 1));
        }
        i += 1;
    }
    proof {
        assert(payload@.take(i as int) =~= payload@);
        assert(head =~= u32_be(n));
        assert(out@.take(4) =~= head);
        lemma_be_roundtrip(n);
    }
    out
}

/// The four bytes of a number write that number.
pub proof fn lemma_be_roundtrip(n: u32)
    ensures
        be_u32(u32_be(n)) == n,
{
    let a: int = n as int / 0x100_0000;
    let b: int = n as int / 0x1_0000 % 0x100;
    let c: int = n as int / 0x100 % 0x100;
    let d: int = n as int % 0x100;
    assert(a * 0x100_0000 + b * 0x1_0000 + c * 0x100 + d == n) by (nonlinear_arith)
        requires
            0 <= n <= 0xffff_ffff,
            a == n as int / 0x100_0000,
            b == n as int / 0x1_0000 % 0x100,
            c == n as int / 0x100 % 0x100,
            d == n as int % 0x100,
    ;
}

/// The length that the header of a message announces.
pub fn frame_length(header: [u8; 4]) -> (n: u32)
    ensures
        n == be_u32(header@),
{
    (header[0] as u32) * 0x100_0000 + (header[1] as u32) * 0x1_0000 + (header[2] as u32) * 0x100
        + (header[3] as u32)
}

} // verus!

use vstd::prelude::*;
use vstd::slice::slice_to_vec;
use vstd::std_specs::convert::FromSpecImpl;
use vstd::string::StringSliceAdditionalSpecFns;
use vstd::utf8::{decode_utf8, encode_utf8_decode_utf8, valid_utf8};
use crate::bencode::error::Error;
use crate::bencode::model::{
    Bencode, dict_get, dict_index_from, dict_insert, keys_ascending, lemma_insert_ascending,
    lemma_lower_bound, lex_lt, lex_lt_from, lower_bound, lower_bound_from,
};

verus! {

/// A decoded bencode value.
#[derive(Debug, PartialEq)]
pub enum Value {
    ByteString(Vec<u8>),
    Integer(i64),
    List(Vec<Value>),
    Dict(Dict),
}

/// A bencode dictionary: byte-string keys bound to values, held in
/// ascending key order, each key once.
#[derive(Debug, PartialEq)]
pub struct Dict {
    entries: Vec<(Vec<u8>, Value)>,
}

/// What a sequence of values denotes, item by item.
pub open spec fn values_view(s: Seq<Value>) -> Seq<Bencode>
    decreases s,
{
    Seq::new(
        s.len(),
        |i: int|
            if 0 <= i < s.len() {
                s[i].view()
            } else {
                Bencode::Integer(0)
            },
    )
}

/// What a sequence of keys and values denotes, entry by entry.
pub open spec fn entries_view(s: Seq<(Vec<u8>, Value)>) -> Seq<(Seq<u8>, Bencode)>
    decreases s,
{
    Seq::new(
        s.len(),
        |i: int|
            if 0 <= i < s.len() {
                (s[i].0@, s[i].1.view())
            } else {
                (Seq::empty(), Bencode::Integer(0))
            },
    )
}

impl View for Value {
    type V = Bencode;

    open spec fn view(&self) -> Bencode
        decreases self,
    {
        match self {
            Value::ByteString(b) => Bencode::ByteString(b@),
            Value::Integer(n) => Bencode::Integer(*n as int),
            Value::List(l) => Bencode::List(values_view(l@)),
            Value::Dict(d) => Bencode::Dict(d.view()),
        }
    }
}

impl View for Dict {
    type V = Seq<(Seq<u8>, Bencode)>;

    closed spec fn view(&self) -> Seq<(Seq<u8>, Bencode)>
        decreases self,
    {
        entries_view(self.entries@)
    }
}

/// Whether `a` comes strictly before `b` in lexicographic byte order.
pub fn bytes_lt(a: &[u8], b: &[u8]) -> (r: bool)
    ensures
        r == lex_lt(a@, b@),
{
    let mut i: usize = 0;
    while i < a.len() && i < b.len()
        invariant
            i <= a.len(),
            i <= b.len(),
            lex_lt(a@, b@) == lex_lt_from(a@, b@, i as int),
        decreases a.len() - i,
    {
        if a[i] != b[i] {
            return a[i] < b[i];
        }
        i += 1;
    }
    i < b.len()
}

/// Whether `a` and `b` hold the same bytes.
pub fn bytes_eq(a: &[u8], b: &[u8]) -> (r: bool)
    ensures
        r == (a@ == b@),
{
    if a.len() != b.len() {
        return false;
    }
    let mut i: usize = 0;
    while i < a.len()
        invariant
            i <= a.len(),
            a.len() == b.len(),
            forall|k: int| 0 <= k < i ==> a@[k] == b@[k],
        decreases a.len() - i,
    {
        if a[i] != b[i] {
            return false;
        }
        i += 1;
    }
    proof {
        assert(a@ =~= b@);
    }
    true
}

/// Reads `bytes` as UTF-8 text with `core::str::from_utf8`: the text whose
/// UTF-8 encoding is `bytes`, or `None` where `bytes` is not valid UTF-8.
#[verifier::external_body]
fn utf8_text(bytes: &[u8]) -> (r: Option<&str>)
    ensures
        r is Some <==> valid_utf8(bytes@),
        r matches Some(s) ==> s.spec_bytes() == bytes@,
{
    core::str::from_utf8(bytes).ok()
}

impl Dict {
    #[verifier::type_invariant]
    closed spec fn ascending(&self) -> bool {
        keys_ascending(entries_view(self.entries@))
    }

    /// A dictionary without entries.
    pub fn new() -> (d: Dict)
        ensures
            d@ == Seq::<(Seq<u8>, Bencode)>::empty(),
    {
        let d = Dict { entries: Vec::new() };
        assert(d@ =~= Seq::<(Seq<u8>, Bencode)>::empty());
        d
    }

    /// The number of entries. The keys are ascending.
    pub fn len(&self) -> (n: usize)
        ensures
            n == self@.len(),
            keys_ascending(self@),
    {
        proof {
            use_type_invariant(self);
        }
        self.entries.len()
    }

    /// The key and the value of the entry at `index`, counted in ascending
    /// key order.
    pub fn entry(&self, index: usize) -> (r: (&Vec<u8>, &Value))
        requires
            index < self@.len(),
        ensures
            r.0@ == self@[index as int].0,
            r.1@ == self@[index as int].1,
            keys_ascending(self@),
    {
        proof {
            use_type_invariant(self);
        }
        let e = &self.entries[index];
        (&e.0, &e.1)
    }

    /// The value bound to `key`, if any.
    pub fn get(&self, key: &[u8]) -> (r: Option<&Value>)
        ensures
            match r {
                Some(v) => dict_get(self@, key@) == Some(v@),
                None => dict_get(self@, key@) is None,
            },
    {
        let mut i: usize = 0;
        while i < self.entries.len()
            invariant
                i <= self.entries.len(),
                dict_index_from(self@, key@, 0) == dict_index_from(self@, key@, i as int),
            decreases self.entries.len() - i,
        {
            if bytes_eq(self.entries[i].0.as_slice(), key) {
                return Some(&self.entries[i].1);
            }
            i += 1;
        }
        None
    }

    /// Binds `key` to `value`. A value bound to `key` before is replaced.
    pub fn insert(&mut self, key: Vec<u8>, value: Value)
        ensures
            final(self)@ == dict_insert(old(self)@, key@, value@),
    {
        proof {
            use_type_invariant(&*self);
            lemma_lower_bound(self@, key@);
            lemma_insert_ascending(self@, key@, value@);
        }
        let ghost before = self@;
        let mut entries: Vec<(Vec<u8>, Value)> = Vec::new();
        core::mem::swap(&mut self.entries, &mut entries);
        let mut i: usize = 0;
        while i < entries.len() && bytes_lt(entries[i].0.as_slice(), key.as_slice())
            invariant
                i <= entries.len(),
                entries_view(entries@) == before,
                lower_bound(before, key@) == lower_bound_from(before, key@, i as int),
            decreases entries.len() - i,
        {
            i += 1;
        }
        if i < entries.len() && bytes_eq(entries[i].0.as_slice(), key.as_slice()) {
            entries[i] = (key, value);
        } else {
            entries.insert(i, (key, value));
        }
        proof {
            assert(entries_view(entries@) =~= dict_insert(before, key@, value@));
        }
        core::mem::swap(&mut self.entries, &mut entries);
    }
}

impl Value {
    /// The bytes of a byte string; `NotByteStringType` for any other value.
    pub fn bytes(&self) -> (r: Result<&[u8], Error>)
        ensures
            match self@ {
                Bencode::ByteString(b) => r matches Ok(s) && s@ == b,
                _ => r matches Err(e) && e == Error::NotByteStringType,
            },
    {
        match self {
            Value::ByteString(x) => Ok(x.as_slice()),
            _ => Err(Error::NotByteStringType),
        }
    }

    /// A byte string read as UTF-8 text. `NotByteStringType` for any other
    /// value, `Utf8` for bytes that are not valid UTF-8.
    pub fn string(&self) -> (r: Result<&str, Error>)
        ensures
            match self@ {
                Bencode::ByteString(b) => if valid_utf8(b) {
                    r matches Ok(s) && s.spec_bytes() == b && s@ == decode_utf8(b)
                } else {
                    r matches Err(e) && e == Error::Utf8
                },
                _ => r matches Err(e) && e == Error::NotByteStringType,
            },
    {
        match self {
            Value::ByteString(x) => match utf8_text(x.as_slice()) {
                Some(s) => {
                    proof {
                        encode_utf8_decode_utf8(s@);
                    }
                    Ok(s)
                },
                None => Err(Error::Utf8),
            },
            _ => Err(Error::NotByteStringType),
        }
    }

    /// The entries of a dictionary; `NotDictType` for any other value.
    pub fn dict(&self) -> (r: Result<&Dict, Error>)
        ensures
            match self@ {
                Bencode::Dict(entries) => r matches Ok(d) && d@ == entries,
                _ => r matches Err(e) && e == Error::NotDictType,
            },
    {
        match self {
            Value::Dict(m) => Ok(m),
            _ => Err(Error::NotDictType),
        }
    }

    /// The items of a list; `NotListType` for any other value.
    pub fn list(&self) -> (r: Result<&Vec<Value>, Error>)
        ensures
            match self@ {
                Bencode::List(items) => r matches Ok(l) && values_view(l@) == items,
                _ => r matches Err(e) && e == Error::NotListType,
            },
    {
        match self {
            Value::List(x) => Ok(x),
            _ => Err(Error::NotListType),
        }
    }

    /// The number of an integer; `NotIntegerType` for any other value.
    pub fn integer(&self) -> (r: Result<i64, Error>)
        ensures
            match self@ {
                Bencode::Integer(n) => r == Ok::<i64, Error>(n as i64) && n == n as i64,
                _ => r == Err::<i64, Error>(Error::NotIntegerType),
            },
    {
        match self {
            Value::Integer(n) => Ok(*n),
            _ => Err(Error::NotIntegerType),
        }
    }
}

impl Clone for Dict {
    /// A copy that denotes the same entries.
    fn clone(&self) -> (r: Dict)
        ensures
            r@ == self@,
        decreases Bencode::Dict(self@), 0int,
    {
        proof {
            use_type_invariant(self);
        }
        let mut entries: Vec<(Vec<u8>, Value)> = Vec::new();
        let mut i: usize = 0;
        while i < self.entries.len()
            invariant
                i <= self.entries.len(),
                entries@.len() == i,
                forall|k: int|
                    0 <= k < i ==> (#[trigger] entries@[k]).0@ == self.entries@[k].0@
                        && entries@[k].1@ == self.entries@[k].1@,
            decreases self.entries.len() - i,
        {
            let e = &self.entries[i];
            proof {
                let whole = Bencode::Dict(self@);
                assert(self@[i as int].1 == e.1@);
                assert(decreases_to!(whole => whole->Dict_0));
                assert(decreases_to!(self@ => self@[i as int]));
                assert(decreases_to!(self@[i as int] => self@[i as int].1));
            }
            entries.push((slice_to_vec(e.0.as_slice()), e.1.clone()));
            i += 1;
        }
        proof {
            assert(entries_view(entries@) =~= entries_view(self.entries@));
        }
        Dict { entries }
    }
}

impl Clone for Value {
    /// A copy that denotes the same value.
    fn clone(&self) -> (r: Value)
        ensures
            r@ == self@,
        decreases self@, 1int,
    {
        match self {
            Value::ByteString(b) => Value::ByteString(slice_to_vec(b.as_slice())),
            Value::Integer(n) => Value::Integer(*n),
            Value::List(l) => Value::List(clone_values(l.as_slice())),
            Value::Dict(d) => Value::Dict(d.clone()),
        }
    }
}

/// Copies of the values of `l`, in order.
fn clone_values(l: &[Value]) -> (r: Vec<Value>)
    ensures
        values_view(r@) == values_view(l@),
    decreases Bencode::List(values_view(l@)), 0int,
{
    let ghost items = values_view(l@);
    let mut out: Vec<Value> = Vec::new();
    let mut i: usize = 0;
    while i < l.len()
        invariant
            i <= l.len(),
            out@.len() == i,
            items == values_view(l@),
            forall|k: int| 0 <= k < i ==> (#[trigger] out@[k])@ == l@[k]@,
        decreases l.len() - i,
    {
        proof {
            let whole = Bencode::List(items);
            assert(items[i as int] == l@[i as int]@);
            assert(decreases_to!(whole => whole->List_0));
            assert(decreases_to!(items => items[i as int]));
        }
        out.push(l[i].clone());
        i += 1;
    }
    proof {
        assert(values_view(out@) =~= values_view(l@));
    }
    out
}

impl From<Vec<u8>> for Value {
    fn from(v: Vec<u8>) -> (r: Value) {
        Value::ByteString(v)
    }
}

impl FromSpecImpl<Vec<u8>> for Value {
    open spec fn obeys_from_spec() -> bool {
        true
    }

    open spec fn from_spec(v: Vec<u8>) -> Value {
        Value::ByteString(v)
    }
}

impl From<&[u8]> for Value {
    fn from(v: &[u8]) -> (r: Value)
        ensures
            r@ == Bencode::ByteString(v@),
    {
        Value::ByteString(slice_to_vec(v))
    }
}

impl FromSpecImpl<&[u8]> for Value {
    /// A vector has no name in specifications: what `from` returns is
    /// stated by its own `ensures`, through the view.
    open spec fn obeys_from_spec() -> bool {
        false
    }

    open spec fn from_spec(v: &[u8]) -> Value {
        arbitrary()
    }
}

impl From<&str> for Value {
    fn from(v: &str) -> (r: Value)
        ensures
            r@ == Bencode::ByteString(v.spec_bytes()),
    {
        Value::ByteString(slice_to_vec(v.as_bytes()))
    }
}

impl FromSpecImpl<&str> for Value {
    open spec fn obeys_from_spec() -> bool {
        false
    }

    open spec fn from_spec(v: &str) -> Value {
        arbitrary()
    }
}

impl From<&[Value]> for Value {
    fn from(v: &[Value]) -> (r: Value)
        ensures
            r@ == Bencode::List(values_view(v@)),
    {
        Value::List(clone_values(v))
    }
}

impl FromSpecImpl<&[Value]> for Value {
    open spec fn obeys_from_spec() -> bool {
        false
    }

    open spec fn from_spec(v: &[Value]) -> Value {
        arbitrary()
    }
}

impl From<i64> for Value {
    fn from(n: i64) -> (r: Value) {
        Value::Integer(n)
    }
}

impl FromSpecImpl<i64> for Value {
    open spec fn obeys_from_spec() -> bool {
        true
    }

    open spec fn from_spec(n: i64) -> Value {
        Value::Integer(n)
    }
}

impl From<i8> for Value {
    fn from(n: i8) -> (r: Value) {
        Value::Integer(n as i64)
    }
}

impl FromSpecImpl<i8> for Value {
    open spec fn obeys_from_spec() -> bool {
        true
    }

    open spec fn from_spec(n: i8) -> Value {
        Value::Integer(n as i64)
    }
}

impl From<i16> for Value {
    fn from(n: i16) -> (r: Value) {
        Value::Integer(n as i64)
    }
}

impl FromSpecImpl<i16> for Value {
    open spec fn obeys_from_spec() -> bool {
        true
    }

    open spec fn from_spec(n: i16) -> Value {
        Value::Integer(n as i64)
    }
}

impl From<i32> for Value {
    fn from(n: i32) -> (r: Value) {
        Value::Integer(n as i64)
    }
}

impl FromSpecImpl<i32> for Value {
    open spec fn obeys_from_spec() -> bool {
        true
    }

    open spec fn from_spec(n: i32) -> Value {
        Value::Integer(n as i64)
    }
}

impl From<Vec<Value>> for Value {
    fn from(v: Vec<Value>) -> (r: Value) {
        Value::List(v)
    }
}

impl FromSpecImpl<Vec<Value>> for Value {
    open spec fn obeys_from_spec() -> bool {
        true
    }

    open spec fn from_spec(v: Vec<Value>) -> Value {
        Value::List(v)
    }
}

impl From<Dict> for Value {
    fn from(v: Dict) -> (r: Value) {
        Value::Dict(v)
    }
}

impl FromSpecImpl<Dict> for Value {
    open spec fn obeys_from_spec() -> bool {
        true
    }

    open spec fn from_spec(v: Dict) -> Value {
        Value::Dict(v)
    }
}

} // verus!

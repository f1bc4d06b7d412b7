use vstd::prelude::*;

verus! {

/// The mathematical value that a piece of bencode denotes.
///
/// A dictionary is its sequence of entries. In a canonical value the keys of
/// every dictionary are strictly ascending, so each mapping has one
/// representation.
pub enum Bencode {
    ByteString(Seq<u8>),
    Integer(int),
    List(Seq<Bencode>),
    Dict(Seq<(Seq<u8>, Bencode)>),
}

/// `a` comes strictly before `b` in lexicographic byte order, given that they
/// agree on their first `i` bytes.
pub open spec fn lex_lt_from(a: Seq<u8>, b: Seq<u8>, i: int) -> bool
    decreases a.len() - i,
{
    if i < 0 || i >= b.len() {
        false
    } else if i >= a.len() {
        true
    } else if a[i] != b[i] {
        a[i] < b[i]
    } else {
        lex_lt_from(a, b, i + 1)
    }
}

/// `a` comes strictly before `b` in lexicographic byte order.
pub open spec fn lex_lt(a: Seq<u8>, b: Seq<u8>) -> bool {
    lex_lt_from(a, b, 0)
}

/// The keys of `entries` are strictly ascending.
pub open spec fn keys_ascending(entries: Seq<(Seq<u8>, Bencode)>) -> bool {
    forall|i: int, j: int|
        0 <= i < j < entries.len() ==> lex_lt(#[trigger] entries[i].0, #[trigger] entries[j].0)
}

/// The first index at or after `i` whose key is not before `key`, or the
/// length of `entries` if there is none.
pub open spec fn lower_bound_from(entries: Seq<(Seq<u8>, Bencode)>, key: Seq<u8>, i: int) -> int
    decreases entries.len() - i,
{
    if i < 0 || i >= entries.len() {
        entries.len() as int
    } else if lex_lt(entries[i].0, key) {
        lower_bound_from(entries, key, i + 1)
    } else {
        i
    }
}

/// Where `key` stands, or would stand, among ascending `entries`.
pub open spec fn lower_bound(entries: Seq<(Seq<u8>, Bencode)>, key: Seq<u8>) -> int {
    lower_bound_from(entries, key, 0)
}

/// `entries` with `key` bound to `value`: an entry with that key is replaced,
/// otherwise the new entry goes where the order puts it.
pub open spec fn dict_insert(entries: Seq<(Seq<u8>, Bencode)>, key: Seq<u8>, value: Bencode) -> Seq<
    (Seq<u8>, Bencode),
> {
    let i: int = lower_bound(entries, key);
    if i < entries.len() && entries[i].0 == key {
        entries.update(i, (key, value))
    } else {
        entries.insert(i, (key, value))
    }
}

/// The index of the first entry at or after `i` whose key is `key`, or -1.
pub open spec fn dict_index_from(entries: Seq<(Seq<u8>, Bencode)>, key: Seq<u8>, i: int) -> int
    decreases entries.len() - i,
{
    if i < 0 || i >= entries.len() {
        -1
    } else if entries[i].0 == key {
        i
    } else {
        dict_index_from(entries, key, i + 1)
    }
}

/// The value that `entries` binds `key` to, if any.
pub open spec fn dict_get(entries: Seq<(Seq<u8>, Bencode)>, key: Seq<u8>) -> Option<Bencode> {
    let i: int = dict_index_from(entries, key, 0);
    if i < 0 {
        None
    } else {
        Some(entries[i].1)
    }
}

impl Bencode {
    /// Every integer fits in 64 bits and the keys of every dictionary are
    /// strictly ascending, at every depth.
    pub open spec fn canonical(self) -> bool
        decreases self,
    {
        match self {
            Bencode::ByteString(_) => true,
            Bencode::Integer(n) => i64::MIN <= n <= i64::MAX,
            Bencode::List(items) => forall|i: int|
                0 <= i < items.len() ==> (#[trigger] items[i]).canonical(),
            Bencode::Dict(entries) => keys_ascending(entries) && forall|i: int|
                0 <= i < entries.len() ==> (#[trigger] entries[i]).1.canonical(),
        }
    }
}

/// No byte string comes before itself.
pub proof fn lemma_lex_irreflexive(a: Seq<u8>)
    ensures
        !lex_lt(a, a),
{
    lemma_lex_irreflexive_from(a, 0);
}

proof fn lemma_lex_irreflexive_from(a: Seq<u8>, i: int)
    requires
        0 <= i,
    ensures
        !lex_lt_from(a, a, i),
    decreases a.len() - i,
{
    if i < a.len() {
        lemma_lex_irreflexive_from(a, i + 1);
    }
}

/// Of two different byte strings one comes before the other.
pub proof fn lemma_lex_total(a: Seq<u8>, b: Seq<u8>)
    ensures
        a == b || lex_lt(a, b) || lex_lt(b, a),
        !(lex_lt(a, b) && lex_lt(b, a)),
        lex_lt(a, b) ==> a != b,
{
    lemma_lex_total_from(a, b, 0);
    lemma_lex_irreflexive(a);
}

proof fn lemma_lex_total_from(a: Seq<u8>, b: Seq<u8>, i: int)
    requires
        0 <= i <= a.len(),
        i <= b.len(),
        forall|k: int| 0 <= k < i ==> a[k] == b[k],
    ensures
        a == b || lex_lt_from(a, b, i) || lex_lt_from(b, a, i),
        !(lex_lt_from(a, b, i) && lex_lt_from(b, a, i)),
    decreases a.len() - i,
{
    if i >= a.len() || i >= b.len() {
        if a.len() == b.len() {
            assert(a =~= b);
        }
    } else if a[i] == b[i] {
        lemma_lex_total_from(a, b, i + 1);
    }
}

/// The order is transitive.
pub proof fn lemma_lex_transitive(a: Seq<u8>, b: Seq<u8>, c: Seq<u8>)
    requires
        lex_lt(a, b),
        lex_lt(b, c),
    ensures
        lex_lt(a, c),
{
    lemma_lex_transitive_from(a, b, c, 0);
}

proof fn lemma_lex_transitive_from(a: Seq<u8>, b: Seq<u8>, c: Seq<u8>, i: int)
    requires
        0 <= i,
        lex_lt_from(a, b, i),
        lex_lt_from(b, c, i),
    ensures
        lex_lt_from(a, c, i),
    decreases a.len() - i,
{
    if i < a.len() && i < b.len() && i < c.len() && a[i] == b[i] && b[i] == c[i] {
        lemma_lex_transitive_from(a, b, c, i + 1);
    }
}

/// In ascending entries everything before the lower bound of `key` is before
/// `key`, and everything from it on is not.
pub proof fn lemma_lower_bound(entries: Seq<(Seq<u8>, Bencode)>, key: Seq<u8>)
    requires
        keys_ascending(entries),
    ensures
        0 <= lower_bound(entries, key) <= entries.len(),
        forall|j: int| 0 <= j < lower_bound(entries, key) ==> lex_lt(#[trigger] entries[j].0, key),
        forall|j: int|
            lower_bound(entries, key) <= j < entries.len() ==> !lex_lt(
                #[trigger] entries[j].0,
                key,
            ),
{
    lemma_lower_bound_from(entries, key, 0);
}

proof fn lemma_lower_bound_from(entries: Seq<(Seq<u8>, Bencode)>, key: Seq<u8>, i: int)
    requires
        keys_ascending(entries),
        0 <= i <= entries.len(),
        forall|j: int| 0 <= j < i ==> lex_lt(#[trigger] entries[j].0, key),
    ensures
        i <= lower_bound_from(entries, key, i) <= entries.len(),
        forall|j: int|
            0 <= j < lower_bound_from(entries, key, i) ==> lex_lt(#[trigger] entries[j].0, key),
        forall|j: int|
            lower_bound_from(entries, key, i) <= j < entries.len() ==> !lex_lt(
                #[trigger] entries[j].0,
                key,
            ),
    decreases entries.len() - i,
{
    if i < entries.len() {
        if lex_lt(entries[i].0, key) {
            lemma_lower_bound_from(entries, key, i + 1);
        } else {
            assert forall|j: int| i <= j < entries.len() implies !lex_lt(
                #[trigger] entries[j].0,
                key,
            ) by {
                if j > i && lex_lt(entries[j].0, key) {
                    lemma_lex_transitive(entries[i].0, entries[j].0, key);
                }
            }
        }
    }
}

/// Binding a key in ascending entries leaves them ascending.
pub proof fn lemma_insert_ascending(entries: Seq<(Seq<u8>, Bencode)>, key: Seq<u8>, value: Bencode)
    requires
        keys_ascending(entries),
    ensures
        keys_ascending(dict_insert(entries, key, value)),
{
    lemma_lower_bound(entries, key);
    let i: int = lower_bound(entries, key);
    let out = dict_insert(entries, key, value);
    if i < entries.len() && entries[i].0 == key {
        assert forall|a: int, b: int| 0 <= a < b < out.len() implies lex_lt(
            #[trigger] out[a].0,
            #[trigger] out[b].0,
        ) by {
            assert(out[a].0 == entries[a].0);
            assert(out[b].0 == entries[b].0);
        }
    } else {
        assert forall|a: int, b: int| 0 <= a < b < out.len() implies lex_lt(
            #[trigger] out[a].0,
            #[trigger] out[b].0,
        ) by {
            if b < i {
                assert(out[a] == entries[a] && out[b] == entries[b]);
            } else if b == i {
                assert(out[a] == entries[a]);
            } else if a == i {
                assert(out[b] == entries[b - 1]);
                lemma_lex_total(entries[b - 1].0, key);
                if b - 1 > i {
                    lemma_lex_total(entries[i].0, key);
                    lemma_lex_transitive(key, entries[i].0, entries[b - 1].0);
                }
            } else if a < i {
                assert(out[a] == entries[a] && out[b] == entries[b - 1]);
            } else {
                assert(out[a] == entries[a - 1] && out[b] == entries[b - 1]);
            }
        }
    }
}

/// A key that comes after every key of ascending entries is added at their end.
pub proof fn lemma_insert_last(entries: Seq<(Seq<u8>, Bencode)>, key: Seq<u8>, value: Bencode)
    requires
        forall|j: int| 0 <= j < entries.len() ==> lex_lt(#[trigger] entries[j].0, key),
    ensures
        dict_insert(entries, key, value) == entries.push((key, value)),
{
    lemma_lower_bound_all_before(entries, key, 0);
    assert(entries.insert(entries.len() as int, (key, value)) =~= entries.push((key, value)));
}

proof fn lemma_lower_bound_all_before(entries: Seq<(Seq<u8>, Bencode)>, key: Seq<u8>, i: int)
    requires
        0 <= i <= entries.len(),
        forall|j: int| 0 <= j < entries.len() ==> lex_lt(#[trigger] entries[j].0, key),
    ensures
        lower_bound_from(entries, key, i) == entries.len(),
    decreases entries.len() - i,
{
    if i < entries.len() {
        lemma_lower_bound_all_before(entries, key, i + 1);
    }
}

/// What `dict_get` finds: the first entry with the key, and none where no
/// entry has it.
pub proof fn lemma_dict_get(entries: Seq<(Seq<u8>, Bencode)>, key: Seq<u8>)
    ensures
        match dict_get(entries, key) {
            Some(v) => exists|i: int|
                0 <= i < entries.len() && (#[trigger] entries[i]).0 == key && entries[i].1 == v,
            None => forall|i: int| 0 <= i < entries.len() ==> (#[trigger] entries[i]).0 != key,
        },
{
    lemma_dict_index_from(entries, key, 0);
    let i: int = dict_index_from(entries, key, 0);
    if i >= 0 {
        assert(entries[i].0 == key);
    }
}

pub proof fn lemma_dict_index_from(entries: Seq<(Seq<u8>, Bencode)>, key: Seq<u8>, i: int)
    requires
        0 <= i <= entries.len(),
    ensures
        ({
            let r: int = dict_index_from(entries, key, i);
            &&& (r == -1 || i <= r < entries.len())
            &&& r >= 0 ==> entries[r].0 == key
            &&& forall|j: int|
                i <= j < (if r < 0 {
                    entries.len() as int
                } else {
                    r
                }) ==> (#[trigger] entries[j]).0 != key
        }),
    decreases entries.len() - i,
{
    if i < entries.len() && entries[i].0 != key {
        lemma_dict_index_from(entries, key, i + 1);
    }
}

/// After binding `key`, looking it up gives the new value, and every other
/// key is found as before.
pub proof fn lemma_get_after_insert(
    entries: Seq<(Seq<u8>, Bencode)>,
    key: Seq<u8>,
    value: Bencode,
    other: Seq<u8>,
)
    requires
        keys_ascending(entries),
    ensures
        dict_get(dict_insert(entries, key, value), key) == Some(value),
        other != key ==> dict_get(dict_insert(entries, key, value), other) == dict_get(
            entries,
            other,
        ),
{
    let out = dict_insert(entries, key, value);
    let i: int = lower_bound(entries, key);
    lemma_lower_bound(entries, key);
    lemma_insert_ascending(entries, key, value);
    lemma_unique_index(out, key, i);
    if other != key {
        lemma_dict_index_from(entries, other, 0);
        let r: int = dict_index_from(entries, other, 0);
        if r >= 0 {
            if i < entries.len() && entries[i].0 == key {
                assert(out[r] == entries[r]);
                lemma_unique_index(out, other, r);
            } else if r < i {
                assert(out[r] == entries[r]);
                lemma_unique_index(out, other, r);
            } else {
                assert(out[r + 1] == entries[r]);
                lemma_unique_index(out, other, r + 1);
            }
        } else {
            lemma_dict_index_from(out, other, 0);
            let q: int = dict_index_from(out, other, 0);
            if q >= 0 {
                if i < entries.len() && entries[i].0 == key {
                    assert(out[q].0 == entries[q].0);
                } else if q < i {
                    assert(out[q] == entries[q]);
                } else {
                    assert(out[q] == entries[q - 1]);
                }
            }
        }
    }
}

/// In ascending entries the entry with a given key is the one `dict_get` finds.
pub proof fn lemma_unique_index(entries: Seq<(Seq<u8>, Bencode)>, key: Seq<u8>, i: int)
    requires
        keys_ascending(entries),
        0 <= i < entries.len(),
        entries[i].0 == key,
    ensures
        dict_index_from(entries, key, 0) == i,
        dict_get(entries, key) == Some(entries[i].1),
{
    lemma_dict_index_from(entries, key, 0);
    let r: int = dict_index_from(entries, key, 0);
    if r != i {
        lemma_lex_irreflexive(key);
        if r < i {
            assert(lex_lt(entries[r].0, entries[i].0));
        } else {
            assert(entries[i].0 == key);
        }
    }
}

/// The mapping that `entries` stand for: each key that occurs, bound to the
/// value that `dict_get` finds for it.
pub open spec fn as_map(entries: Seq<(Seq<u8>, Bencode)>) -> Map<Seq<u8>, Bencode> {
    Map::new(
        |k: Seq<u8>| dict_get(entries, k) is Some,
        |k: Seq<u8>| dict_get(entries, k)->Some_0,
    )
}

/// Binding a key in ascending entries is binding it in the mapping they
/// stand for: the key gets the new value, whatever it had before, and every
/// other key keeps its own.
pub proof fn lemma_insert_is_map_insert(
    entries: Seq<(Seq<u8>, Bencode)>,
    key: Seq<u8>,
    value: Bencode,
)
    requires
        keys_ascending(entries),
    ensures
        as_map(dict_insert(entries, key, value)) == as_map(entries).insert(key, value),
{
    let left = as_map(dict_insert(entries, key, value));
    let right = as_map(entries).insert(key, value);
    assert forall|k: Seq<u8>| #[trigger] left.dom().contains(k) == right.dom().contains(k) by {
        lemma_get_after_insert(entries, key, value, k);
    }
    assert forall|k: Seq<u8>| #[trigger] left.dom().contains(k) implies left[k] == right[k] by {
        lemma_get_after_insert(entries, key, value, k);
    }
    assert(left.dom() =~= right.dom());
    assert(left =~= right);
}

} // verus!

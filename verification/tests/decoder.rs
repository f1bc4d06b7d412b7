use btsniffer::bencode::{from_bytes, from_prefix, Decoder, Dict, Error, Value};

fn dict_of(entries: Vec<(&[u8], Value)>) -> Dict {
    let mut d = Dict::new();
    for (k, v) in entries {
        d.insert(k.to_vec(), v);
    }
    d
}

#[test]
fn test_decode_byte_string() {
    let cases: Vec<(&[u8], &[u8])> = vec![(b"2:ab", b"ab"), (b"1:c", b"c"), (b"0:", b"")];
    for (k, v) in cases {
        let mut de = Decoder::new(k);
        let val = de.read_byte_string();
        assert!(val.is_ok());
        assert_eq!(Value::from(v), val.unwrap());
    }

    // invalid byte string.
    let invalid: Vec<&[u8]> = vec![b"3:ab", b"3abc", b":abc", b"1:"];
    for x in invalid {
        let mut de = Decoder::new(x);
        let val = de.read_byte_string();
        assert!(val.is_err());
    }
}

#[test]
fn test_decode_integer() {
    let cases: Vec<(&[u8], i64)> =
        vec![(b"i0e", 0), (b"i1e", 1), (b"i66e", 66), (b"i-1e", -1), (b"i-22e", -22)];
    for (k, v) in cases {
        let mut de = Decoder::new(k);
        let val = de.read_integer();
        assert!(val.is_ok());
        assert_eq!(Value::from(v), val.unwrap());
    }

    // invalid integer.
    let invalid: Vec<&[u8]> = vec![b"i-0e", b"i03e", b"i002e"];
    for x in invalid {
        let mut de = Decoder::new(x);
        let val = de.read_integer();
        assert!(val.is_err());
    }
}

#[test]
fn test_decode_list() {
    let cases: Vec<(&[u8], Vec<&[u8]>)> =
        vec![(b"l4:spam4:eggse", vec![b"spam", b"eggs"]), (b"le", vec![])];
    for (k, v) in cases {
        let mut de = Decoder::new(k);
        let val = de.read_list();
        assert!(val.is_ok());

        let mut res = Vec::new();
        for x in v.iter() {
            res.push(Value::from(*x));
        }
        assert_eq!(Value::from(res), val.unwrap());
    }

    // invalid list.
    let invalid: Vec<&[u8]> = vec![b"l1:a", b"l"];
    for x in invalid {
        let mut de = Decoder::new(x);
        let val = de.read_list();
        assert!(val.is_err());
    }
}

#[test]
fn test_decode_dict() {
    let cases: Vec<(&[u8], Dict)> = vec![
        (
            b"d4:spaml1:a1:bee",
            dict_of(vec![(
                b"spam",
                Value::List(vec![Value::from(b"a".as_ref()), Value::from(b"b".as_ref())]),
            )]),
        ),
        (
            b"d3:cow3:moo4:spam4:eggse",
            dict_of(vec![
                (b"cow", Value::from(b"moo".to_vec())),
                (b"spam", Value::from(b"eggs".to_vec())),
            ]),
        ),
        (b"be", Dict::new()),
        (
            b"d1:td1:r2:abee",
            dict_of(vec![(
                b"t",
                Value::from(dict_of(vec![(b"r", Value::from(b"ab".to_vec()))])),
            )]),
        ),
    ];
    for (k, v) in cases {
        let mut de = Decoder::new(k);
        let dict = de.read_dict();
        assert!(dict.is_ok());
        assert_eq!(Value::from(v.clone()), dict.unwrap());
    }
}

#[test]
fn test_decode_from_bytes() {
    let cases: Vec<(&[u8], Dict)> = vec![
        (
            b"d1:eli201e23:A Generic Error Ocurrede1:t2:aa1:y1:ee",
            dict_of(vec![
                (b"t", Value::from(b"aa".as_ref())),
                (b"y", Value::from(b"e".as_ref())),
                (
                    b"e",
                    Value::List(vec![
                        Value::from(201),
                        Value::from(b"A Generic Error Ocurred".as_ref()),
                    ]),
                ),
            ]),
        ),
        (
            b"d1:rd2:id4:moone1:t2:aa1:y1:re",
            dict_of(vec![
                (b"t", Value::from(b"aa".as_ref())),
                (b"y", Value::from(b"r".as_ref())),
                (
                    b"r",
                    Value::from(dict_of(vec![(b"id", Value::from(b"moon".as_ref()))])),
                ),
            ]),
        ),
    ];
    for (k, v) in cases {
        let res = from_bytes(k);
        assert!(res.is_ok());
        assert_eq!(Value::from(v.clone()), res.unwrap());
    }
}

#[test]
fn decode_error_packet_has_keys_e_t_y() {
    let v = from_bytes(b"d1:eli201e23:A Generic Error Ocurrede1:t2:aa1:y1:ee").unwrap();
    let d = v.dict().unwrap();
    assert_eq!(d.len(), 3);
    assert_eq!(d.entry(0).0.as_slice(), b"e");
    assert_eq!(d.entry(1).0.as_slice(), b"t");
    assert_eq!(d.entry(2).0.as_slice(), b"y");
    let e = d.get(b"e").unwrap().list().unwrap();
    assert_eq!(e.len(), 2);
    assert_eq!(e[0].integer(), Ok(201));
    assert_eq!(e[1].bytes(), Ok(b"A Generic Error Ocurred".as_ref()));
}

#[test]
fn decode_rejects_non_canonical_integers() {
    assert_eq!(from_bytes(b"i-0e"), Err(Error::InvalidInteger));
    assert_eq!(from_bytes(b"i03e"), Err(Error::InvalidInteger));
    assert_eq!(from_bytes(b"i002e"), Err(Error::InvalidInteger));
    assert_eq!(from_bytes(b"i00e"), Err(Error::InvalidInteger));
    assert_eq!(from_bytes(b"ie"), Err(Error::InvalidInteger));
    assert_eq!(from_bytes(b"i-e"), Err(Error::InvalidInteger));
    assert_eq!(from_bytes(b"i+5e"), Err(Error::InvalidInteger));
    assert_eq!(from_bytes(b"i1x2e"), Err(Error::InvalidInteger));
    assert_eq!(from_bytes(b"i12"), Err(Error::Eof));
    assert_eq!(from_bytes(b"i"), Err(Error::Eof));
    assert_eq!(from_bytes(b"i-"), Err(Error::Eof));
}

#[test]
fn decode_integer_limits() {
    assert_eq!(
        from_bytes(b"i9223372036854775807e"),
        Ok(Value::Integer(i64::MAX))
    );
    assert_eq!(
        from_bytes(b"i-9223372036854775808e"),
        Ok(Value::Integer(i64::MIN))
    );
    assert_eq!(
        from_bytes(b"i9223372036854775808e"),
        Err(Error::InvalidInteger)
    );
    assert_eq!(
        from_bytes(b"i-9223372036854775809e"),
        Err(Error::InvalidInteger)
    );
    assert_eq!(
        from_bytes(b"i99999999999999999999999999e"),
        Err(Error::InvalidInteger)
    );
}

#[test]
fn decode_errors_by_kind() {
    assert_eq!(from_bytes(b""), Err(Error::Eof));
    assert_eq!(from_bytes(b"3:ab"), Err(Error::Eof));
    assert_eq!(from_bytes(b"12"), Err(Error::Eof));
    assert_eq!(from_bytes(b"3abc"), Err(Error::InvalidLength));
    assert_eq!(from_bytes(b":abc"), Err(Error::InvalidLength));
    assert_eq!(from_bytes(b"-1:a"), Err(Error::InvalidLength));
    assert_eq!(from_bytes(b"99999999999999999999999999:a"), Err(Error::Eof));
    assert_eq!(from_bytes(b"l1:a"), Err(Error::Eof));
    assert_eq!(from_bytes(b"d3:cow3:moo"), Err(Error::Eof));
    assert_eq!(from_bytes(b"d3:cow"), Err(Error::Eof));
    assert_eq!(from_bytes(b"di1ei2ee"), Err(Error::NotByteStringType));
    assert_eq!(from_bytes(b"dlei2ee"), Err(Error::NotByteStringType));
}

#[test]
fn decode_keeps_the_last_of_two_equal_keys() {
    let v = from_bytes(b"d1:ai1e1:ai2ee").unwrap();
    let d = v.dict().unwrap();
    assert_eq!(d.len(), 1);
    assert_eq!(d.get(b"a").unwrap().integer(), Ok(2));
}

#[test]
fn decode_sorts_keys() {
    let v = from_bytes(b"d1:bi1e1:ai2e2:abi3ee").unwrap();
    let d = v.dict().unwrap();
    assert_eq!(d.len(), 3);
    assert_eq!(d.entry(0).0.as_slice(), b"a");
    assert_eq!(d.entry(1).0.as_slice(), b"ab");
    assert_eq!(d.entry(2).0.as_slice(), b"b");
}

#[test]
fn decode_accepts_a_length_with_leading_zeros() {
    assert_eq!(from_bytes(b"03:abc"), Ok(Value::from(b"abc".as_ref())));
    assert_eq!(from_bytes(b"00:"), Ok(Value::from(b"".as_ref())));
}

#[test]
fn from_bytes_ignores_what_follows_the_value() {
    assert_eq!(from_bytes(b"i1eXYZ"), Ok(Value::Integer(1)));
}

#[test]
fn from_prefix_counts_the_bytes_of_the_value() {
    let (v, used) = from_prefix(b"d8:msg_typei1e5:piecei0eeABCee").unwrap();
    assert_eq!(used, 25);
    assert_eq!(v.dict().unwrap().get(b"piece").unwrap().integer(), Ok(0));
    assert_eq!(from_prefix(b"4:spamrest"), Ok((Value::from(b"spam".as_ref()), 6)));
    assert_eq!(from_prefix(b""), Err(Error::Eof));
}

#[test]
fn skip_byte_at_the_end_changes_nothing() {
    let mut de = Decoder::new(b"");
    assert!(de.skip_byte().is_ok());
    assert_eq!(de.remaining(), 0);
    let mut de = Decoder::new(b"xi5e");
    assert!(de.skip_byte().is_ok());
    assert_eq!(de.remaining(), 3);
    assert_eq!(de.read_value(), Ok(Value::Integer(5)));
    assert_eq!(de.remaining(), 0);
}

#[test]
fn value_accessors_check_the_kind() {
    let s = Value::from(b"ab".as_ref());
    let n = Value::from(7i64);
    let l = Value::from(vec![Value::from(1i64)]);
    let d = Value::from(Dict::new());
    assert_eq!(s.bytes(), Ok(b"ab".as_ref()));
    assert_eq!(s.string(), Ok("ab"));
    assert_eq!(n.bytes(), Err(Error::NotByteStringType));
    assert_eq!(n.string(), Err(Error::NotByteStringType));
    assert_eq!(Value::from(vec![0xffu8, 0xfe]).string(), Err(Error::Utf8));
    assert_eq!(n.integer(), Ok(7));
    assert_eq!(s.integer(), Err(Error::NotIntegerType));
    assert_eq!(l.list().map(|x| x.len()), Ok(1));
    assert_eq!(s.list().err(), Some(Error::NotListType));
    assert_eq!(d.dict().map(|x| x.len()), Ok(0));
    assert_eq!(s.dict().err(), Some(Error::NotDictType));
    assert_eq!(Value::from("héllo").bytes(), Ok("héllo".as_bytes()));
    assert_eq!(Value::from(3i8), Value::Integer(3));
    assert_eq!(Value::from(-3i16), Value::Integer(-3));
    assert_eq!(Value::from(3i32), Value::Integer(3));
    let items = [Value::from(1i64), Value::from(b"x".as_ref())];
    assert_eq!(Value::from(&items[..]), Value::List(items.to_vec()));
}

#[test]
fn dict_insert_replaces_and_orders() {
    let mut d = Dict::new();
    d.insert(b"b".to_vec(), Value::from(1i64));
    d.insert(b"a".to_vec(), Value::from(2i64));
    d.insert(b"b".to_vec(), Value::from(3i64));
    assert_eq!(d.len(), 2);
    assert_eq!(d.get(b"a"), Some(&Value::Integer(2)));
    assert_eq!(d.get(b"b"), Some(&Value::Integer(3)));
    assert_eq!(d.get(b"c"), None);
    assert_eq!(d.entry(0).0.as_slice(), b"a");
    assert_eq!(d.clone(), d);
}

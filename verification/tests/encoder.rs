use btsniffer::bencode::{from_bytes, to_bytes, Dict, Encoder, Value};

fn dict_from(entries: Vec<(&[u8], Value)>) -> Dict {
    let mut d = Dict::new();
    for (k, v) in entries {
        d.insert(k.to_vec(), v);
    }
    d
}

#[test]
fn test_encode_byte_string() {
    let cases: Vec<(&[u8], &[u8])> =
        vec![(b"ab", b"2:ab"), (b"", b"0:"), (b"123456", b"6:123456")];
    for (k, v) in cases {
        let mut ser = Encoder::new();
        let res = ser.write_byte_string(k);
        assert!(res.is_ok());
        assert_eq!(v, ser.buffer());
    }
}

#[test]
fn test_encode_integer() {
    let cases: Vec<(i64, &[u8])> = vec![(0, b"i0e"), (-1, b"i-1e"), (999, b"i999e")];
    for (k, v) in cases {
        let mut ser = Encoder::new();
        let res = ser.write_integer(k);
        assert!(res.is_ok());
        assert_eq!(v, ser.buffer());
    }
}

#[test]
fn test_encode_list() {
    let cases: Vec<(&[u8], Vec<Value>)> = vec![
        (b"le", vec![]),
        (
            b"li0ei1ei2ee",
            vec![Value::from(0), Value::from(1), Value::from(2)],
        ),
        (
            b"li-123e3:abce",
            vec![Value::from(-123), Value::from(b"abc".as_ref())],
        ),
        (
            b"l3:abci10ee",
            vec![Value::from(b"abc".as_ref()), Value::from(10)],
        ),
    ];
    for (k, v) in cases {
        let mut ser = Encoder::new();
        let res = ser.write_list(&v);
        assert!(res.is_ok());
        assert_eq!(k, ser.buffer());
    }
}

#[test]
fn test_encode_dict() {
    let cases: Vec<(Vec<u8>, Dict)> = vec![
        (
            b"d2:idi123ee".to_vec(),
            dict_from(vec![(b"id", Value::from(123))]),
        ),
        (
            b"d4:pingli1e2:abee".to_vec(),
            dict_from(vec![(
                b"ping",
                Value::from(vec![Value::from(1), Value::from(b"ab".to_vec())]),
            )]),
        ),
    ];
    for (k, v) in cases {
        let mut ser = Encoder::new();
        let res = ser.write_dict(&v);
        assert!(res.is_ok());
        assert_eq!(k, ser.buffer());
    }
}

#[test]
fn test_encode_to_bytes() {
    let k = b"d1:ad2:id4:abcde1:q4:ping1:t2:aa1:y1:qe".to_vec();
    let v = Value::from(dict_from(vec![
        (
            b"a",
            Value::from(dict_from(vec![(b"id", Value::from(b"abcd".to_vec()))])),
        ),
        (b"q", Value::from(b"ping".to_vec())),
        (b"t", Value::from(b"aa".to_vec())),
        (b"y", Value::from(b"q".to_vec())),
    ]));
    let buf = to_bytes(&v);
    assert!(buf.is_ok());
    assert_eq!(k, buf.unwrap());
}

#[test]
fn encode_writes_keys_in_ascending_order() {
    let v = Value::from(dict_from(vec![
        (b"y", Value::from(b"q".to_vec())),
        (b"t", Value::from(b"aa".to_vec())),
        (b"q", Value::from(b"ping".to_vec())),
        (b"ab", Value::from(1)),
        (b"a", Value::from(2)),
        (b"", Value::from(3)),
    ]));
    assert_eq!(
        to_bytes(&v).unwrap(),
        b"d0:i3e1:ai2e2:abi1e1:q4:ping1:t2:aa1:y1:qe".to_vec()
    );
}

#[test]
fn decode_then_encode_gives_the_same_bytes() {
    let bytes = b"d3:cow3:moo4:spam4:eggse";
    let v = from_bytes(bytes).unwrap();
    assert_eq!(to_bytes(&v).unwrap(), bytes.to_vec());
}

#[test]
fn encode_then_decode_gives_the_same_value() {
    let v = Value::from(dict_from(vec![
        (b"list", Value::from(vec![Value::from(-5), Value::from(b"x".to_vec())])),
        (b"min", Value::from(i64::MIN)),
        (b"max", Value::from(i64::MAX)),
        (b"nested", Value::from(dict_from(vec![(b"k", Value::List(vec![]))]))),
    ]));
    let bytes = to_bytes(&v).unwrap();
    assert_eq!(from_bytes(&bytes), Ok(v));
}

#[test]
fn decode_encode_decode_is_decode() {
    let inputs: Vec<&[u8]> = vec![
        b"d1:bi1e1:ai2e1:bi3ee",
        b"03:abc",
        b"ld1:z0:1:a0:ei0ee",
        b"i-9223372036854775808e",
    ];
    for b in inputs {
        let v = from_bytes(b).unwrap();
        let again = from_bytes(&to_bytes(&v).unwrap()).unwrap();
        assert_eq!(again, v);
    }
}

#[test]
fn encode_integer_is_canonical() {
    assert_eq!(to_bytes(&Value::from(0)).unwrap(), b"i0e".to_vec());
    assert_eq!(to_bytes(&Value::from(-10)).unwrap(), b"i-10e".to_vec());
    assert_eq!(
        to_bytes(&Value::from(i64::MIN)).unwrap(),
        b"i-9223372036854775808e".to_vec()
    );
    assert_eq!(
        to_bytes(&Value::from(i64::MAX)).unwrap(),
        b"i9223372036854775807e".to_vec()
    );
}

use undermoon::resp::{promote, BulkStr, Resp, RespIndex, SliceRange};
use undermoon::encode::encode_resp;
use undermoon::decode::{decode_resp, DecodeResult};

fn set_command() -> Resp {
    Resp::Arr(vec![
        Resp::Bulk(BulkStr::Str(b"SET".to_vec())),
        Resp::Bulk(BulkStr::Str(b"key".to_vec())),
        Resp::Bulk(BulkStr::Str(b"value".to_vec())),
    ])
}

#[test]
fn test_encode_exact_bytes() {
    assert_eq!(encode_resp(&Resp::Simple(b"OK".to_vec())), b"+OK\r\n".to_vec());
    assert_eq!(encode_resp(&Resp::Error(b"ERR x".to_vec())), b"-ERR x\r\n".to_vec());
    assert_eq!(encode_resp(&Resp::Integer(7)), b":7\r\n".to_vec());
    assert_eq!(encode_resp(&Resp::Integer(-42)), b":-42\r\n".to_vec());
    assert_eq!(encode_resp(&Resp::Integer(0)), b":0\r\n".to_vec());
    assert_eq!(encode_resp(&Resp::Bulk(BulkStr::Str(b"foo".to_vec()))), b"$3\r\nfoo\r\n".to_vec());
    assert_eq!(encode_resp(&Resp::Bulk(BulkStr::Str(Vec::new()))), b"$0\r\n\r\n".to_vec());
    assert_eq!(encode_resp(&Resp::Bulk(BulkStr::Nil)), b"$-1\r\n".to_vec());
    assert_eq!(encode_resp(&Resp::NilArray), b"*-1\r\n".to_vec());
    assert_eq!(
        encode_resp(&set_command()),
        b"*3\r\n$3\r\nSET\r\n$3\r\nkey\r\n$5\r\nvalue\r\n".to_vec()
    );
}

#[test]
fn test_round_trip() {
    let values = vec![
        Resp::Simple(b"PONG".to_vec()),
        Resp::Error(b"ERR bad".to_vec()),
        Resp::Integer(9223372036854775807),
        Resp::Integer(-9223372036854775807),
        Resp::Bulk(BulkStr::Str(b"hello world".to_vec())),
        Resp::Bulk(BulkStr::Nil),
        Resp::NilArray,
        Resp::Arr(Vec::new()),
        set_command(),
        Resp::Arr(vec![Resp::Arr(vec![Resp::Integer(1)]), Resp::Bulk(BulkStr::Nil)]),
    ];
    for v in values {
        let bytes = encode_resp(&v);
        let n = bytes.len();
        match decode_resp(&bytes, 0) {
            DecodeResult::Frame(w, end) => {
                assert_eq!(w, v);
                assert_eq!(end, n);
            }
            other => panic!("unexpected pattern {:?}", other),
        }
    }
}

#[test]
fn test_round_trip_with_trailing_bytes() {
    let v = set_command();
    let mut bytes = encode_resp(&v);
    let n = bytes.len();
    bytes.extend_from_slice(b"+OK\r\n");
    match decode_resp(&bytes, 0) {
        DecodeResult::Frame(w, end) => {
            assert_eq!(w, v);
            assert_eq!(end, n);
            // The trailing frame decodes from where the first one ended.
            match decode_resp(&bytes, end) {
                DecodeResult::Frame(w2, end2) => {
                    assert_eq!(w2, Resp::Simple(b"OK".to_vec()));
                    assert_eq!(end2, bytes.len());
                }
                other => panic!("unexpected pattern {:?}", other),
            }
        }
        other => panic!("unexpected pattern {:?}", other),
    }
}

#[test]
fn test_decode_incomplete() {
    for frag in [
        &b"$3\r\nfo"[..],
        b"+OK",
        b"+OK\r",
        b"*2\r\n$3\r\nfoo\r\n",
        b":12",
        b"",
    ] {
        let buf = frag.to_vec();
        assert_eq!(decode_resp(&buf, 0), DecodeResult::Incomplete);
    }
}

#[test]
fn test_invalid_protocol() {
    for bad in [
        &b"*2\r\n$-2\r\n"[..],
        b"$-2\r\n",
        b"?1\r\n",
        b":a\r\n",
        b":007\r\n",
        b":-0\r\n",
        b"+OK\rx\n",
        b"*x\r\n",
    ] {
        let buf = bad.to_vec();
        assert_eq!(decode_resp(&buf, 0), DecodeResult::InvalidProtocol);
    }
}

#[test]
fn test_promote_resolves_slices() {
    // A slice-backed array over a shared read buffer promotes to the owned
    // value its descriptors stand for.
    let buf = b"SET mykey".to_vec();
    let indexed = RespIndex::Arr(vec![
        RespIndex::Bulk(SliceRange { start: 0, len: 3 }),
        RespIndex::Bulk(SliceRange { start: 4, len: 5 }),
        RespIndex::Integer(-3),
        RespIndex::NilBulk,
        RespIndex::Simple(SliceRange { start: 4, len: 2 }),
    ]);
    let owned = promote(&indexed, &buf);
    assert_eq!(
        owned,
        Resp::Arr(vec![
            Resp::Bulk(BulkStr::Str(b"SET".to_vec())),
            Resp::Bulk(BulkStr::Str(b"mykey".to_vec())),
            Resp::Integer(-3),
            Resp::Bulk(BulkStr::Nil),
            Resp::Simple(b"my".to_vec()),
        ])
    );
}

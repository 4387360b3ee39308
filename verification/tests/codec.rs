use rto_agent::io_bin::ByteCursor;
use rto_agent::io_bin::ByteSink;
use rto_agent::io_bin::CodecError;
use rto_agent::io_bin::InputStream;
use rto_agent::io_bin::OutputStream;
use rto_agent::io_bin::varint_encode;

fn encode_int(n: usize) -> Vec<u8> {
    varint_encode(n)
}

fn decode_int(bytes: Vec<u8>) -> Result<usize, CodecError> {
    let mut cur = ByteCursor::new(bytes);
    cur.input_size()
}

#[test]
fn varint_roundtrip_small_values() {
    for n in [0usize, 1, 2, 5, 127] {
        let enc = encode_int(n);
        assert_eq!(enc.len(), 1);
        assert_eq!(decode_int(enc).unwrap(), n);
    }
}

#[test]
fn varint_roundtrip_multibyte_values() {
    for n in [128usize, 129, 300, 16383, 16384, 1 << 20, usize::MAX / 2, usize::MAX] {
        let enc = encode_int(n);
        assert_eq!(decode_int(enc).unwrap(), n);
    }
}

#[test]
fn varint_exact_encoding() {
    assert_eq!(encode_int(0), vec![0x00]);
    assert_eq!(encode_int(1), vec![0x01]);
    assert_eq!(encode_int(127), vec![0x7f]);
    assert_eq!(encode_int(128), vec![0x81, 0x00]);
    assert_eq!(encode_int(300), vec![0x82, 0x2c]);
}

#[test]
fn varint_decode_msb_first() {
    // 0x81 0x01 = 1*128 + 1 = 129, most significant group first.
    assert_eq!(decode_int(vec![0x81, 0x01]).unwrap(), 129);
}

#[test]
fn varint_decode_empty_is_truncated() {
    assert_eq!(decode_int(Vec::new()), Err(CodecError::Truncated));
}

#[test]
fn varint_decode_unterminated_is_truncated() {
    assert_eq!(decode_int(vec![0x80]), Err(CodecError::Truncated));
    assert_eq!(decode_int(vec![0xff, 0xff]), Err(CodecError::Truncated));
}

#[test]
fn varint_decode_overflow() {
    // Eleven continuation groups of all-ones exceed the platform width.
    let mut bytes = vec![0xffu8; 10];
    bytes.push(0x7f);
    assert_eq!(decode_int(bytes), Err(CodecError::Overflow));
}

#[test]
fn string_roundtrip() {
    for payload in [&b""[..], &b"a"[..], &b"hello world"[..], &[0u8, 255, 128][..]] {
        let mut sink = ByteSink::new();
        sink.output_string(payload).unwrap();
        let mut cur = ByteCursor::new(sink.into_bytes());
        let back = cur.input_string().unwrap();
        assert_eq!(back.as_slice(), payload);
    }
}

#[test]
fn string_roundtrip_large() {
    let payload: Vec<u8> = (0..100_000u32).map(|i| (i % 251) as u8).collect();
    let mut sink = ByteSink::new();
    sink.output_string(&payload).unwrap();
    let mut cur = ByteCursor::new(sink.into_bytes());
    assert_eq!(cur.input_string().unwrap(), payload);
}

#[test]
fn string_short_body_is_truncated() {
    // Length 5 followed by only three bytes.
    let bytes = vec![0x05, b'a', b'b', b'c'];
    let mut cur = ByteCursor::new(bytes);
    assert_eq!(cur.input_string(), Err(CodecError::Truncated));
}

#[test]
fn consecutive_frames_keep_positions() {
    let mut sink = ByteSink::new();
    sink.output_byte(0x10).unwrap();
    sink.output_size(7).unwrap();
    sink.output_string(b"xyz").unwrap();
    let mut cur = ByteCursor::new(sink.into_bytes());
    assert_eq!(cur.input_byte().unwrap(), 0x10);
    assert_eq!(cur.input_size().unwrap(), 7);
    assert_eq!(cur.input_string().unwrap(), b"xyz".to_vec());
    assert_eq!(cur.input_byte(), Err(CodecError::Truncated));
}

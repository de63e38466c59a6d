use interceptor_rs::chunked::ChunkState;

fn decode(bytes: &[u8]) -> (ChunkState, Vec<u8>, usize) {
    ChunkState::new().decode(bytes)
}

fn encoded(chunks: &[&str]) -> Vec<u8> {
    let mut out = Vec::new();
    for c in chunks {
        out.extend_from_slice(format!("{:x}\r\n{c}\r\n", c.len()).as_bytes());
    }
    out.extend_from_slice(b"0\r\n\r\n");
    out
}

#[test]
fn chunks_decode_to_their_data() {
    let long = "0123456789abcdef".repeat(70);
    let bytes = encoded(&["hello", " ", "world", &long]);
    let (end, data, used) = decode(&[&bytes[..], b"beyond"].concat());
    assert_eq!(end, ChunkState::Done);
    assert_eq!(data, format!("hello world{long}").into_bytes());
    assert_eq!(used, bytes.len());
    assert_eq!(decode(&encoded(&[])), (ChunkState::Done, vec![], 5));
    assert_eq!(decode(b""), (ChunkState::new(), vec![], 0));
}

#[test]
fn chunks_decode_piece_by_piece() {
    let bytes = encoded(&["some", "data that is longer", "!"]);
    for cut in 0..=bytes.len() {
        let (mid, mut data, used) = decode(&bytes[..cut]);
        assert_eq!(used, cut);
        assert_eq!(mid.has_stopped(), cut == bytes.len());
        let (end, more, rest) = mid.decode(&bytes[cut..]);
        data.extend_from_slice(&more);
        assert_eq!(end, ChunkState::Done);
        assert_eq!(rest, bytes.len() - cut);
        assert_eq!(data, b"somedata that is longer!");
    }
}

#[test]
fn lengths_may_have_capitals_extensions_and_trailers() {
    let bytes = b"00A;name=\"value\"\r\n0123456789\r\nB \r\n0123456789a\r\n\
000\t\r\nT: 1\r\nU:\r\n\r\n";
    let (end, data, used) = decode(bytes);
    assert_eq!(end, ChunkState::Done);
    assert_eq!(data, b"01234567890123456789a");
    assert_eq!(used, bytes.len());
    let (end, _, _) = decode(b"ffffffffffffffff\r\n");
    assert_eq!(end, ChunkState::Data { left: u64::MAX });
}

#[test]
fn other_bytes_are_no_chunks() {
    for bad in [
        &b"\r\n"[..],
        b"x\r\n",
        b"-1\r\n",
        b"1\n",
        b"1\rx",
        b"1 x\n",
        b"1\r\nab",
        b"1\r\na\rx",
        b"1\r\na\r\n\r\n",
        b"0\r\n\n",
        b"0\r\nt\n",
        b"0\r\nt\rx",
        b"0\r\n\rx",
        b"10000000000000000\r\n",
    ] {
        let (end, _, _) = decode(bad);
        assert_eq!(end, ChunkState::Broken, "{bad:?}");
        assert_eq!(end.decode(b"1\r\na"), (ChunkState::Broken, vec![], 0));
    }
}

use arith_table::adapters::{ByteDecoder, ByteEncoder};
use arith_table::codec::DecodeError;

fn encode(bytes: &[u8]) -> Vec<u8> {
    let mut e = ByteEncoder::new(Vec::new());
    assert_eq!(e.write(bytes), bytes.len());
    e.flush();
    e.finish()
}

fn decode_all(stream: Vec<u8>, chunk: usize) -> Vec<u8> {
    let mut d = ByteDecoder::new(stream);
    let mut out = Vec::new();
    loop {
        let mut buf = vec![0u8; chunk];
        let n = d.read(&mut buf).unwrap();
        out.extend_from_slice(&buf[..n]);
        if d.is_eof {
            break;
        }
    }
    let mut buf = vec![0u8; chunk];
    assert_eq!(d.read(&mut buf), Ok(0));
    out
}

#[test]
fn round_trip_three_bytes() {
    let stream = encode(&[0, 255, 42]);
    let mut d = ByteDecoder::new(stream);
    let mut buf = vec![0u8; 16];
    assert_eq!(d.read(&mut buf), Ok(3));
    assert_eq!(&buf[..3], &[0, 255, 42]);
    assert!(d.is_eof);
    assert_eq!(d.read(&mut buf), Ok(0));
}

#[test]
fn round_trip_empty() {
    let stream = encode(&[]);
    assert_eq!(stream.len(), 4);
    let mut d = ByteDecoder::new(stream);
    let mut buf = vec![0u8; 4];
    assert_eq!(d.read(&mut buf), Ok(0));
    assert!(d.is_eof);
    assert_eq!(d.read(&mut buf), Ok(0));
}

#[test]
fn round_trip_long_input_with_rescaling() {
    let data: Vec<u8> = (0..12000u32).map(|i| ((i * 7) % 13 + (i / 1000)) as u8).collect();
    let stream = encode(&data);
    assert_eq!(stream.len(), 4 * data.len() + 4);
    assert_eq!(decode_all(stream.clone(), 7), data);
    assert_eq!(decode_all(stream, 20000), data);
}

#[test]
fn reads_stop_when_the_buffer_is_full() {
    let stream = encode(&[1, 2, 3, 4, 5]);
    let mut d = ByteDecoder::new(stream);
    let mut buf = vec![0u8; 2];
    assert_eq!(d.read(&mut buf), Ok(2));
    assert_eq!(buf, vec![1, 2]);
    assert!(!d.is_eof);
    assert_eq!(d.read(&mut buf), Ok(2));
    assert_eq!(buf, vec![3, 4]);
    assert_eq!(d.read(&mut buf), Ok(1));
    assert_eq!(buf, vec![5, 4]);
    assert!(d.is_eof);
}

#[test]
fn flat_model_encodes_the_low_bound() {
    // flat model: byte 42 has interval [42, 43)
    let stream = encode(&[42]);
    assert_eq!(&stream[..4], &[0, 0, 0, 42]);
}

#[test]
fn truncated_stream_is_an_error() {
    let mut stream = encode(&[9, 8, 7]);
    stream.truncate(6);
    let mut d = ByteDecoder::new(stream);
    let mut buf = vec![0u8; 8];
    assert_eq!(d.read(&mut buf), Err(DecodeError::UnexpectedEnd));
    assert_eq!(buf[0], 9);
}

#[test]
fn offset_beyond_total_is_an_error() {
    let mut d = ByteDecoder::new(vec![0xff, 0xff, 0xff, 0xff]);
    let mut buf = vec![0u8; 8];
    assert_eq!(d.read(&mut buf), Err(DecodeError::InvalidOffset));
}

#[test]
fn finish_releases_the_source() {
    let d = ByteDecoder::new(vec![1, 2, 3]);
    assert_eq!(d.finish(), vec![1, 2, 3]);
}

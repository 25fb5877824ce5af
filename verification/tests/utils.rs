use std::io::Read;

use httpfromtcp::utils::ChunkReader;

fn assert_first_chunk(chunk_length: usize, expected: &str) {
    // Given
    let data = "GET /coffee HTTP/1.1\r\n".to_string();
    let mut reader = ChunkReader::new(data, chunk_length);
    let mut buf = [0_u8; 10];

    // When
    let n = reader.read(&mut buf).unwrap();

    // Then
    assert_eq!(n, chunk_length);
    assert_eq!(&buf[..chunk_length], expected.as_bytes());
}

#[test]
fn test_chunk_reader_two_bytes() {
    assert_first_chunk(2, "GE");
}

#[test]
fn test_chunk_reader_seven_bytes() {
    assert_first_chunk(7, "GET /co");
}

#[test]
fn test_chunk_reader_max_buffer_length_of_10_bytes_is_reached() {
    assert_first_chunk(10, "GET /coffe");
}

#[test]
fn chunk_reader_serves_all_data_then_eof() {
    let mut reader = ChunkReader::new("abcdefg".to_string(), 3);
    let mut buf = [0_u8; 3];
    let mut all = Vec::new();
    loop {
        let n = reader.read_chunk(&mut buf);
        if n == 0 {
            break;
        }
        all.extend_from_slice(&buf[..n]);
    }
    assert_eq!(all, b"abcdefg".to_vec());
    assert_eq!(reader.read(&mut buf).unwrap(), 0);
}

#[test]
fn chunk_reader_fills_a_buffer_smaller_than_the_chunk() {
    let mut reader = ChunkReader::new("GET /coffee HTTP/1.1\r\n".to_string(), 12);
    let mut buf = [0_u8; 10];
    assert_eq!(reader.read(&mut buf).unwrap(), 10);
    assert_eq!(&buf, b"GET /coffe");
    let mut rest = [0_u8; 20];
    assert_eq!(reader.read(&mut rest).unwrap(), 12);
    assert_eq!(&rest[..12], b"e HTTP/1.1\r\n");
    assert_eq!(reader.read(&mut rest).unwrap(), 0);
}

#[test]
fn chunk_reader_with_empty_buffer_reads_nothing() {
    let mut reader = ChunkReader::new("abc".to_string(), 2);
    let mut empty: [u8; 0] = [];
    assert_eq!(reader.read(&mut empty).unwrap(), 0);
    let mut buf = [0_u8; 4];
    assert_eq!(reader.read(&mut buf).unwrap(), 2);
    assert_eq!(&buf[..2], b"ab");
}

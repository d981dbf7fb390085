use turso_io::chunked::ChunkError;
use turso_io::receive::{count_of, Receipt, ReceiveError, ReceiveTurn, ReceivingBodyProgram};

fn receipt(result: i32, buf: &[u8]) -> Option<Receipt> {
    Some(Receipt { result, buf: buf.to_vec() })
}

#[test]
fn a_body_of_known_length_is_received() {
    let mut program = ReceivingBodyProgram::new(false, Some(10), b"abc".to_vec());
    assert!(program.can_step(&None));
    assert_eq!(program.step(None), Ok(ReceiveTurn::Recv(7)));
    assert_eq!(program.step(receipt(4, b"defg")), Ok(ReceiveTurn::Recv(3)));
    assert_eq!(program.step(receipt(5, b"hijkl")), Ok(ReceiveTurn::Complete));
    assert_eq!(program.raw(), b"abcdefghijkl");
    assert_eq!(program.deserialize(), b"abcdefghij");
}

#[test]
fn a_short_body_is_deserialized_whole() {
    let program = ReceivingBodyProgram::new(false, Some(10), b"abc".to_vec());
    assert_eq!(program.deserialize(), b"abc");
}

#[test]
fn a_body_of_known_length_can_be_complete_at_once() {
    let mut program = ReceivingBodyProgram::new(false, Some(3), b"abcd".to_vec());
    assert_eq!(program.step(None), Ok(ReceiveTurn::Complete));
}

#[test]
fn a_disconnected_client_is_an_error() {
    let mut program = ReceivingBodyProgram::new(false, Some(3), Vec::new());
    assert_eq!(program.step(receipt(0, b"")), Err(ReceiveError::Disconnected));
    let mut chunked = ReceivingBodyProgram::new(true, None, Vec::new());
    assert_eq!(chunked.step(receipt(0, b"")), Err(ReceiveError::Disconnected));
    assert_eq!(chunked.step(receipt(-1, b"")), Err(ReceiveError::Socket));
}

#[test]
fn a_chunked_body_is_received() {
    let mut program = ReceivingBodyProgram::new(true, None, Vec::new());
    assert_eq!(program.step(None), Ok(ReceiveTurn::Recv(16384)));
    assert_eq!(program.step(receipt(6, b"5\r\nhel")), Ok(ReceiveTurn::Recv(16384)));
    assert_eq!(program.step(receipt(9, b"lo\r\n0\r\n\r\n")), Ok(ReceiveTurn::Complete));
    assert_eq!(program.raw(), b"hello");
}

#[test]
fn pieces_of_a_chunked_body_come_to_the_same_as_the_whole() {
    let whole = b"3\r\nabc\r\n2\r\nde\r\n0\r\n\r\n";
    for cut in 1..whole.len() {
        let mut program = ReceivingBodyProgram::new(true, None, Vec::new());
        let first = program.step(receipt(cut as i32, &whole[..cut]));
        assert_eq!(first, Ok(ReceiveTurn::Recv(16384)));
        let rest = &whole[cut..];
        assert_eq!(program.step(receipt(rest.len() as i32, rest)), Ok(ReceiveTurn::Complete));
        assert_eq!(program.raw(), b"abcde");
    }
}

#[test]
fn broken_and_long_chunks_are_errors() {
    let mut program = ReceivingBodyProgram::new(true, None, Vec::new());
    assert_eq!(program.step(receipt(3, b"x\r\n")), Err(ReceiveError::Chunk(ChunkError::InvalidHexDigit)));
    let mut long = b"100001\r\n".to_vec();
    long.extend_from_slice(&vec![b'a'; 0x100001]);
    let mut program = ReceivingBodyProgram::new(true, None, Vec::new());
    assert_eq!(
        program.step(receipt(long.len() as i32, &long)),
        Err(ReceiveError::Chunk(ChunkError::TooLarge { limit: 1048576 }))
    );
}

#[test]
fn what_cannot_be_stepped_is_told() {
    assert!(!ReceivingBodyProgram::new(true, Some(1), Vec::new()).can_step(&None));
    assert!(!ReceivingBodyProgram::new(false, None, Vec::new()).can_step(&None));
    let program = ReceivingBodyProgram::new(false, Some(9), b"ab".to_vec());
    assert!(program.can_step(&receipt(7, b"")));
    assert!(!program.can_step(&receipt(-1, b"")));
    assert!(program.can_step(&receipt(0, b"")));
}

#[test]
fn negative_results_count_backwards() {
    assert_eq!(count_of(5), 5);
    assert_eq!(count_of(0), 0);
    assert_eq!(count_of(-1), u64::MAX);
    assert_eq!(count_of(i32::MIN), u64::MAX - 2147483647);
}

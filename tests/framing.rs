use rauta::framer::{LineFramer, MessageError, MAX_LINE};

fn lines(out: &[Result<Vec<u8>, MessageError>]) -> Vec<Vec<u8>> {
    out.iter().filter_map(|r| r.as_ref().ok().cloned()).collect()
}

#[test]
fn frames_crlf_lines() {
    let mut f = LineFramer::default();
    let out = f.feed(b"NICK a\r\nUSER a 0 * :A\r\nCAP");
    assert_eq!(out, vec![Ok(b"NICK a".to_vec()), Ok(b"USER a 0 * :A".to_vec())]);
    let out = f.feed(b" END\r\n");
    assert_eq!(out, vec![Ok(b"CAP END".to_vec())]);
}

#[test]
fn line_of_capacity_is_accepted() {
    let mut f = LineFramer::default();
    let mut input = vec![b'a'; MAX_LINE];
    input.extend_from_slice(b"\r\n");
    let out = f.feed(&input);
    assert_eq!(out, vec![Ok(vec![b'a'; MAX_LINE])]);
}

#[test]
fn oversized_line_is_rejected_and_resynced() {
    let mut f = LineFramer::default();
    let mut input = vec![b'a'; 600];
    input.extend_from_slice(b"\r\nPING x\r\n");
    let out = f.feed(&input);
    assert_eq!(out, vec![Err(MessageError::MessageTooLong), Ok(b"PING x".to_vec())]);
    assert!(lines(&out).iter().all(|l| l.len() <= MAX_LINE));
}

#[test]
fn malformed_bytes_are_errors() {
    let mut f = LineFramer::new(16);
    let out = f.feed(b"a\nb\r\nc\0d\r\nok\r\n");
    assert_eq!(
        out,
        vec![Err(MessageError::MalformedMessage), Err(MessageError::MalformedMessage), Ok(b"ok".to_vec())]
    );
}

#[test]
fn recovery_after_garbage() {
    let mut f = LineFramer::new(8);
    let mut out = f.feed(b"\0garbage without end");
    out.extend(f.feed(b"\r\nhello\r\n"));
    assert_eq!(out.last().unwrap(), &Ok(b"hello".to_vec()));
    let out = f.feed(b"\r\n");
    assert_eq!(out, vec![Ok(Vec::new())]);
}

#[test]
fn byte_at_a_time() {
    let mut f = LineFramer::default();
    let mut got = Vec::new();
    for b in b"A B\r\n".iter() {
        if let Some(r) = f.push_byte(*b) {
            got.push(r);
        }
    }
    assert_eq!(got, vec![Ok(b"A B".to_vec())]);
}

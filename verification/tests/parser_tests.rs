use unsqfs_wrap::OutputParser;

fn run(chunks: &[&[u8]]) -> (Vec<i32>, Vec<u8>) {
    let mut parser = OutputParser::new();
    let mut events: Vec<i32> = Vec::new();
    for chunk in chunks {
        events.extend(parser.feed(chunk));
    }
    let (tail, transcript) = parser.finish();
    events.extend(tail);
    (events, transcript)
}

#[test]
fn progress_collapse_basic() {
    let (events, transcript) = run(&[b"[ 10%\n[ 10%\n[ 55%\n[ 55%\n[100%\n"]);
    assert_eq!(events, vec![10, 55, 100]);
    assert_eq!(transcript, Vec::<u8>::new());
}

#[test]
fn chunk_boundary_mid_line() {
    let (events, transcript) = run(&[b"[ 1", b"0%\n"]);
    assert_eq!(events, vec![10]);
    assert_eq!(transcript, Vec::<u8>::new());
}

#[test]
fn unparseable_progress_dropped() {
    let (events, transcript) = run(&[b"[abc%\n"]);
    assert_eq!(events, Vec::<i32>::new());
    assert_eq!(transcript, Vec::<u8>::new());
}

#[test]
fn diagnostic_lines_in_order() {
    let (events, transcript) = run(&[b"error one\n[ 20%\nerror two\n"]);
    assert_eq!(events, vec![20]);
    assert_eq!(transcript, b"error one\nerror two\n".to_vec());
}

#[test]
fn crlf_and_empty_lines() {
    let (events, transcript) = run(&[b"[ 10%\r\n\r\n[ 20%\r\n"]);
    assert_eq!(events, vec![10, 20]);
    assert_eq!(transcript, Vec::<u8>::new());
}

#[test]
fn unterminated_final_line() {
    let (events, transcript) = run(&[b"[ 30%"]);
    assert_eq!(events, vec![30]);
    assert_eq!(transcript, Vec::<u8>::new());
}

#[test]
fn value_may_come_back() {
    let (events, _) = run(&[b"[ 10%\n[ 20%\n[ 10%\n"]);
    assert_eq!(events, vec![10, 20, 10]);
}

#[test]
fn leading_zero_not_emitted() {
    let (events, _) = run(&[b"[  0%\n[ 10%\n"]);
    assert_eq!(events, vec![10]);
}

#[test]
fn window_trims_whitespace() {
    let (events, _) = run(&[b"[  5%\n"]);
    assert_eq!(events, vec![5]);
}

#[test]
fn three_digit_value() {
    let (events, _) = run(&[b"[105%\n"]);
    assert_eq!(events, vec![105]);
}

#[test]
fn signed_value_parses() {
    let (events, _) = run(&[b"[ -5%\n[ +7%\n"]);
    assert_eq!(events, vec![-5, 7]);
}

#[test]
fn non_utf8_diagnostic_kept_verbatim() {
    let (events, transcript) = run(&[b"\xff\xfe\n"]);
    assert_eq!(events, Vec::<i32>::new());
    assert_eq!(transcript, vec![0xff, 0xfe, 10]);
}

#[test]
fn too_short_for_progress_is_diagnostic() {
    let (events, transcript) = run(&[b"[9%\n"]);
    assert_eq!(events, Vec::<i32>::new());
    assert_eq!(transcript, b"[9%\n".to_vec());
}

#[test]
fn empty_stream() {
    let (events, transcript) = run(&[]);
    assert_eq!(events, Vec::<i32>::new());
    assert_eq!(transcript, Vec::<u8>::new());
}

#[test]
fn repeated_chunks_same_as_one() {
    let whole = run(&[b"a\n[ 40%\nb\n[ 40%\n[ 41%\n"]);
    let split = run(&[b"a\n[ 4", b"0%\nb\n[ 40", b"%\n[ 41%", b"\n"]);
    assert_eq!(whole, split);
}

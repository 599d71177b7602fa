use unsqfs_wrap::command::build_args;
use unsqfs_wrap::command::escape_single_quotes;
use unsqfs_wrap::command::format_usize;
use unsqfs_wrap::command::plan_invocation;
use unsqfs_wrap::UnsquashfsError;

#[test]
fn escape_replaces_single_quotes() {
    assert_eq!(escape_single_quotes(b"a'b"), b"a'\"'\"'b".to_vec());
    assert_eq!(escape_single_quotes(b"no quotes"), b"no quotes".to_vec());
    assert_eq!(escape_single_quotes(b"''"), b"'\"'\"''\"'\"'".to_vec());
    assert_eq!(escape_single_quotes(b""), Vec::<u8>::new());
}

#[test]
fn format_usize_decimal() {
    assert_eq!(format_usize(0), b"0".to_vec());
    assert_eq!(format_usize(7), b"7".to_vec());
    assert_eq!(format_usize(10), b"10".to_vec());
    assert_eq!(format_usize(255), b"255".to_vec());
    assert_eq!(format_usize(1000), b"1000".to_vec());
}

#[test]
fn args_without_thread_limit() {
    let args = build_args(b"/a.squashfs", b"/out", None);
    let expected: Vec<Vec<u8>> = vec![
        b"-f".to_vec(),
        b"-q".to_vec(),
        b"-d".to_vec(),
        b"/out".to_vec(),
        b"/a.squashfs".to_vec(),
    ];
    assert_eq!(args, expected);
}

#[test]
fn args_with_thread_limit_come_first() {
    let args = build_args(b"/a.squashfs", b"/out", Some(4));
    let expected: Vec<Vec<u8>> = vec![
        b"-p".to_vec(),
        b"4".to_vec(),
        b"-f".to_vec(),
        b"-q".to_vec(),
        b"-d".to_vec(),
        b"/out".to_vec(),
        b"/a.squashfs".to_vec(),
    ];
    assert_eq!(args, expected);
}

#[test]
fn plan_fails_fast_without_binary() {
    let r = plan_invocation(false, Some(b"/a".to_vec()), Some(b"/out".to_vec()), None);
    assert_eq!(r, Err(UnsquashfsError::BinaryNotFound));
}

#[test]
fn plan_rejects_unrepresentable_paths() {
    let r = plan_invocation(true, None, Some(b"/out".to_vec()), None);
    assert_eq!(r, Err(UnsquashfsError::InvalidPath));
    let r = plan_invocation(true, Some(b"/a".to_vec()), None, Some(2));
    assert_eq!(r, Err(UnsquashfsError::InvalidPath));
}

#[test]
fn plan_builds_escaped_invocation() {
    let r = plan_invocation(
        true,
        Some(b"/tmp/it's.squashfs".to_vec()),
        Some(b"/out".to_vec()),
        Some(2),
    )
    .unwrap();
    let expected: Vec<Vec<u8>> = vec![
        b"-p".to_vec(),
        b"2".to_vec(),
        b"-f".to_vec(),
        b"-q".to_vec(),
        b"-d".to_vec(),
        b"/out".to_vec(),
        b"/tmp/it'\"'\"'s.squashfs".to_vec(),
    ];
    assert_eq!(r, expected);
}

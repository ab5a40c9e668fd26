use dot_templater::sniff::{sniff, SNIFF_LEN};
use dot_templater::{is_binary, is_dir, Entry};

#[test]
fn the_sniffer_looks_at_8001_bytes() {
    assert_eq!(SNIFF_LEN, 8001);
}

#[test]
fn a_zero_byte_at_the_start_makes_a_file_binary() {
    assert!(is_binary(&Entry::File(vec![0])));
    assert!(is_binary(&Entry::File(vec![b'a', 0, b'b'])));
    assert!(sniff(&vec![1, 2, 0]));
}

#[test]
fn a_zero_byte_within_the_first_8000_bytes_makes_a_file_binary() {
    let mut bytes = vec![b'x'; 9000];
    bytes[7999] = 0;
    assert!(is_binary(&Entry::File(bytes)));
}

#[test]
fn the_last_byte_looked_at_is_the_8001st() {
    let mut bytes = vec![b'x'; 9000];
    bytes[8000] = 0;
    assert!(is_binary(&Entry::File(bytes)));
    let mut bytes = vec![b'x'; 9000];
    bytes[8001] = 0;
    assert!(!is_binary(&Entry::File(bytes)));
    let mut bytes = vec![b'x'; 8001];
    bytes[8000] = 0;
    assert!(is_binary(&Entry::File(bytes)));
}

#[test]
fn a_text_file_is_not_binary() {
    assert!(!is_binary(&Entry::File(Vec::new())));
    assert!(!is_binary(&Entry::File(b"hello foo\n".to_vec())));
    assert!(!is_binary(&Entry::File(vec![b'x'; 8000])));
    assert!(!is_binary(&Entry::File(vec![b'x'; 20000])));
    assert!(!sniff(&vec![1, 2, 3]));
}

#[test]
fn a_directory_is_not_binary() {
    assert!(!is_binary(&Entry::Directory));
    assert!(is_dir(&Entry::Directory));
}

#[test]
fn what_cannot_be_read_is_taken_for_text() {
    assert!(!is_binary(&Entry::Unreadable));
    assert!(!is_dir(&Entry::Unreadable));
    assert!(!is_dir(&Entry::File(vec![0])));
}

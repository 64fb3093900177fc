use passkit::digest::md5_text;
use passkit::search::{bruteforce, wordlist};

fn md5_of(data: &[u8]) -> String {
    format!("{:x}", md5::compute(data))
}

#[test]
fn md5_text_known_digest() {
    assert_eq!(md5_text("abc"), "900150983cd24fb0d6963f7d28e17f72");
    assert_eq!(md5_text(""), "d41d8cd98f00b204e9800998ecf8427e");
}

#[test]
fn brute_finds_two_char_password() {
    let target = md5_of(b"ab");
    let found = bruteforce(&target, 2);
    assert_eq!(found, Some("ab".to_string()));
}

#[test]
fn brute_finds_single_char_password() {
    let target = md5_of(b"Q");
    let found = bruteforce(&target, 2);
    assert_eq!(found, Some("Q".to_string()));
}

#[test]
fn brute_finds_digit_password() {
    let target = md5_of(b"7");
    assert_eq!(bruteforce(&target, 1), Some("7".to_string()));
}

#[test]
fn brute_reports_exhaustion() {
    let target = md5_of(b"abc");
    let found = bruteforce(&target, 2);
    assert_eq!(found, None);
}

#[test]
fn wordlist_finds_second_line() {
    let lines = vec![b"cat\n".to_vec(), b"dog\n".to_vec(), b"fish\n".to_vec()];
    let target = md5_of(b"dog");
    let found = wordlist(&lines, &target);
    assert_eq!(found, Some((1, b"dog".to_vec())));
}

#[test]
fn wordlist_strips_crlf_endings() {
    let lines = vec![b"cat\r\n".to_vec(), b"dog\r\n".to_vec(), b"fish\r\n".to_vec()];
    let target = md5_of(b"dog");
    let found = wordlist(&lines, &target);
    assert_eq!(found, Some((1, b"dog".to_vec())));
}

#[test]
fn wordlist_last_line_may_lack_newline() {
    let lines = vec![b"cat\n".to_vec(), b"dog\n".to_vec(), b"fish".to_vec()];
    let target = md5_of(b"fish");
    let found = wordlist(&lines, &target);
    assert_eq!(found, Some((2, b"fish".to_vec())));
}

#[test]
fn wordlist_returns_first_match() {
    let lines = vec![b"dog\n".to_vec(), b"dog\n".to_vec()];
    let target = md5_of(b"dog");
    assert_eq!(wordlist(&lines, &target), Some((0, b"dog".to_vec())));
}

#[test]
fn wordlist_reports_not_found() {
    let lines = vec![b"cat\n".to_vec(), b"dog\n".to_vec(), b"fish\n".to_vec()];
    let target = md5_of(b"bird");
    let found = wordlist(&lines, &target);
    assert_eq!(found, None);
}

#[test]
fn wordlist_empty_file_is_not_found() {
    let lines: Vec<Vec<u8>> = Vec::new();
    let target = md5_of(b"dog");
    assert_eq!(wordlist(&lines, &target), None);
}

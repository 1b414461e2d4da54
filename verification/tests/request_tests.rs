use concurrent_labs::request::{
    chars_of, content_length_of, parse_i32_chars, parse_request, receive_request, trim_chars,
    BUFF_SIZE,
};

#[test]
fn finds_the_content_length() {
    let response = "HTTP/1.1 200 OK\r\nContent-Type: text/html\r\nContent-Length: 1256\r\n\r\n<html>";
    assert_eq!(parse_request(response), Some(1256));
    assert_eq!(content_length_of(response), Some(Some(1256)));
}

#[test]
fn no_header_gives_none() {
    assert_eq!(parse_request("HTTP/1.1 200 OK\r\nServer: x\r\n"), None);
    assert_eq!(parse_request(""), None);
    assert_eq!(content_length_of("content-length: 5"), None);
}

#[test]
fn first_matching_line_wins() {
    let response = "a\nContent-Length: 7\nContent-Length: 9\n";
    assert_eq!(parse_request(response), Some(7));
}

#[test]
fn value_is_between_first_two_colons_and_trimmed() {
    assert_eq!(parse_request("X Content-Length:  42 :junk"), Some(42));
    assert_eq!(content_length_of("X Content-Length:  42 :junk"), Some(Some(42)));
    assert_eq!(parse_request("Content-Length: \t-17 \u{a0}"), Some(-17));
    assert_eq!(parse_request("Content-Length: +8"), Some(8));
}

#[test]
fn unreadable_values_are_reported() {
    assert_eq!(content_length_of("Content-Length: abc"), Some(None));
    assert_eq!(content_length_of("Content-Length: "), Some(None));
    assert_eq!(content_length_of("Content-Length: 2147483648"), Some(None));
    assert_eq!(content_length_of("Content-Length: -2147483648"), Some(Some(i32::MIN)));
    assert_eq!(content_length_of("Content-Length: 1:2"), Some(Some(1)));
}

#[test]
fn parse_follows_str_parse() {
    for text in ["0", "-0", "+12", "-", "+", "", "12a", "99999999999", "2147483647", "-2147483649", " 1"] {
        let chars: Vec<char> = text.chars().collect();
        assert_eq!(parse_i32_chars(&chars), text.parse::<i32>().ok(), "{}", text);
    }
}

#[test]
fn trim_drops_unicode_white_space() {
    let chars: Vec<char> = " \u{3000}ab c\n\t".chars().collect();
    let expected: Vec<char> = "ab c".chars().collect();
    assert_eq!(trim_chars(&chars), expected);
    assert_eq!(chars_of("hé"), vec!['h', 'é']);
}

#[test]
fn receive_appends_the_whole_buffer() {
    let mut request = vec!['x'];
    let mut buff = [b'a'; BUFF_SIZE];
    buff[1] = 0;
    let more = receive_request(&mut request, &buff, BUFF_SIZE);
    assert!(more);
    assert_eq!(request.len(), 1 + BUFF_SIZE);
    assert_eq!(request[1], 'a');
    assert_eq!(request[2], '\0');
    let more = receive_request(&mut request, &buff, 3);
    assert!(!more);
    assert_eq!(request.len(), 1 + 2 * BUFF_SIZE);
}

#[test]
fn receive_decodes_multibyte_text() {
    let mut request = Vec::new();
    let bytes = "é!".as_bytes();
    receive_request(&mut request, bytes, 3);
    assert_eq!(request, vec!['é', '!']);
}

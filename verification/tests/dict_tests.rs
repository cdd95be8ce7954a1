use ac_benchmark::dict::{parse_line, DictError};
use ac_benchmark::naive_ac::NaiveAcBuilder;

#[test]
fn test_line_with_two_tokens() {
    assert_eq!(parse_line("abc def"), Ok(("abc", "def")));
    assert_eq!(parse_line("a b"), Ok(("a", "b")));
    assert_eq!(parse_line("1234 *"), Ok(("1234", "*")));
}

#[test]
fn test_white_space_around_tokens() {
    assert_eq!(parse_line("  abc \t  def  "), Ok(("abc", "def")));
    assert_eq!(parse_line("\tabc\tdef\r"), Ok(("abc", "def")));
    assert_eq!(parse_line("x\u{3000}y"), Ok(("x", "y")));
    assert_eq!(parse_line("x\u{a0}\u{2003}y\u{85}"), Ok(("x", "y")));
}

#[test]
fn test_tokens_of_several_bytes() {
    assert_eq!(parse_line("变形金刚 *"), Ok(("变形金刚", "*")));
    assert_eq!(parse_line(" é\u{3000}日本語 "), Ok(("é", "日本語")));
}

#[test]
fn test_line_with_other_token_count() {
    assert_eq!(parse_line(""), Err(DictError::InvalidLine));
    assert_eq!(parse_line("   \t "), Err(DictError::InvalidLine));
    assert_eq!(parse_line("abc"), Err(DictError::InvalidLine));
    assert_eq!(parse_line(" abc "), Err(DictError::InvalidLine));
    assert_eq!(parse_line("a b c"), Err(DictError::InvalidLine));
    assert_eq!(parse_line("a b c d e"), Err(DictError::InvalidLine));
}

#[test]
fn test_error_message() {
    assert_eq!(DictError::InvalidLine.message(), "Invalid dict file");
}

#[test]
fn test_dictionary_from_lines() {
    let lines = ["变形金刚 *", "一个人\t#", "12  34"];
    let mut ac = NaiveAcBuilder::<Vec<u8>>::new();
    for line in lines {
        let (key, value) = parse_line(line).expect("two tokens");
        ac.insert(key.as_bytes(), value.as_bytes().to_vec());
    }
    let ac = ac.build();
    let result = ac.replace("新变形金刚8".as_bytes());
    assert_eq!(String::from_utf8_lossy(&result), "新*8");
    let result = ac.replace("爱一个人其实不容易 12".as_bytes());
    assert_eq!(String::from_utf8_lossy(&result), "爱#其实不容易 34");
}

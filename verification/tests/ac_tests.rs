use ac_benchmark::naive_ac::{NaiveAc, NaiveAcBuilder};

fn rewrite_all(patterns: &[(&str, &'static str)], text: &str) -> String {
    let mut ac = NaiveAcBuilder::new();
    for (pattern, payload) in patterns {
        ac.insert(pattern.as_bytes(), *payload);
    }
    let ac = ac.build();
    let result = ac.replace(text.as_bytes());
    String::from_utf8_lossy(&result).into_owned()
}

#[test]
fn test_naive_ac1() {
    let pattern = ["1234", "12", "2333"];
    let text = "123423123233322122";
    let mut ac = NaiveAcBuilder::new();
    for pat in &pattern {
        ac.insert(pat.as_bytes(), "*");
    }
    let ac = ac.build();
    let result = ac.replace(text.as_bytes());
    let result_str = String::from_utf8_lossy(&result);
    assert_eq!(result_str, "*23*3*22*2");
}

#[test]
fn test_naive_ac2() {
    let pattern = ["1221", "12", "232"];
    let text = "122212212323122122";
    let mut ac = NaiveAcBuilder::new();
    for pat in &pattern {
        ac.insert(pat.as_bytes(), "*");
    }
    let ac = ac.build();
    let result = ac.replace(text.as_bytes());
    let result_str = String::from_utf8_lossy(&result);
    assert_eq!(result_str, "*22**3*22");
}

#[test]
fn test_naive_ac3() {
    let pattern = ["12312345"];
    let text = "123123445";
    let mut ac = NaiveAcBuilder::new();
    for pat in &pattern {
        ac.insert(pat.as_bytes(), "*");
    }
    let ac = ac.build();
    let result = ac.replace(text.as_bytes());
    let result_str = String::from_utf8_lossy(&result);
    assert_eq!(result_str, "123123445");
}

#[test]
fn test_naive_ac5() {
    let text = "1111111";
    let mut ac = NaiveAcBuilder::new();
    ac.insert("1111".as_bytes(), "*");
    ac.insert("111".as_bytes(), "#");
    let ac = ac.build();
    let result = ac.replace(text.as_bytes());
    let result_str = String::from_utf8_lossy(&result);
    assert_eq!(result_str, "*#");
}

#[test]
fn test_naive_ac6() {
    let text = "111111121112";
    let mut ac = NaiveAcBuilder::new();
    ac.insert("1111".as_bytes(), "*");
    ac.insert("1112".as_bytes(), "#");
    let ac = ac.build();
    let result = ac.replace(text.as_bytes());
    let result_str = String::from_utf8_lossy(&result);
    assert_eq!(result_str, "*##");
}

#[test]
fn test_naive_ac8() {
    let text = "1234";
    let mut ac = NaiveAcBuilder::new();
    ac.insert("23".as_bytes(), "*");
    ac.insert("12345".as_bytes(), "*");
    let ac = ac.build();
    let result = ac.replace(text.as_bytes());
    let result_str = String::from_utf8_lossy(&result);
    assert_eq!(result_str, "1*4");
}

#[test]
fn test_naive_ac9() {
    let text = "12345";
    let mut ac = NaiveAcBuilder::new();
    ac.insert("23".as_bytes(), "*");
    ac.insert("1234".as_bytes(), "*");
    let ac = ac.build();
    let result = ac.replace(text.as_bytes());
    let result_str = String::from_utf8_lossy(&result);
    assert_eq!(result_str, "*5");
}

#[test]
fn test_multibyte_pattern() {
    assert_eq!(rewrite_all(&[("变形金刚", "*")], "新变形金刚8"), "新*8");
    assert_eq!(
        rewrite_all(&[("一个人", "*"), ("不容易吗", "#")], "爱一个人其实不容易"),
        "爱*其实不容易"
    );
}

#[test]
fn test_last_write_wins() {
    let mut ac = NaiveAcBuilder::new();
    ac.insert(b"ab", "1");
    ac.insert(b"cd", "3");
    ac.insert(b"ab", "2");
    let ac = ac.build();
    assert_eq!(ac.replace(b"xabycd"), b"x2y3".to_vec());
    assert_eq!(ac.replace(b"ab"), b"2".to_vec());
}

#[test]
fn test_empty_dictionary_leaves_text() {
    let ac: NaiveAc<&str> = NaiveAcBuilder::new().build();
    assert_eq!(ac.replace(b"hello, world"), b"hello, world".to_vec());
    assert_eq!(ac.replace(&[0u8, 255, 0, 7]), vec![0u8, 255, 0, 7]);
    assert_eq!(ac.replace(b""), Vec::<u8>::new());
}

#[test]
fn test_text_without_pattern_unchanged() {
    let patterns = [("abc", "1"), ("xyz", "2"), ("bcd", "3")];
    assert_eq!(rewrite_all(&patterns, "ab xy zz bc d"), "ab xy zz bc d");
    assert_eq!(rewrite_all(&patterns, "abxyzabcx"), "ab21x");
    assert_eq!(rewrite_all(&patterns, ""), "");
}

#[test]
fn test_same_start_longest_wins() {
    let patterns = [("a", "1"), ("ab", "2"), ("abc", "3"), ("abcde", "5")];
    assert_eq!(rewrite_all(&patterns, "abcd"), "3d");
    assert_eq!(rewrite_all(&patterns, "abd"), "2d");
    assert_eq!(rewrite_all(&patterns, "ad"), "1d");
    assert_eq!(rewrite_all(&patterns, "abcde"), "5");
    assert_eq!(rewrite_all(&patterns, "abcabab"), "322");
}

#[test]
fn test_same_start_any_insertion_order() {
    let forward = [("x", "1"), ("xy", "2"), ("xyz", "3")];
    let backward = [("xyz", "3"), ("xy", "2"), ("x", "1")];
    let mixed = [("xy", "2"), ("xyz", "3"), ("x", "1")];
    for text in ["xyz", "xyxz", "xxyzxy", "zyx"] {
        let expected = rewrite_all(&forward, text);
        assert_eq!(rewrite_all(&backward, text), expected);
        assert_eq!(rewrite_all(&mixed, text), expected);
    }
    assert_eq!(rewrite_all(&forward, "xxyzxy"), "132");
}

#[test]
fn test_longer_of_two_with_same_end_preferred() {
    assert_eq!(rewrite_all(&[("bcd", "L"), ("cd", "S")], "abcd"), "aL");
    assert_eq!(rewrite_all(&[("cd", "S"), ("bcd", "L")], "abcd"), "aL");
    assert_eq!(rewrite_all(&[("bcd", "L"), ("cd", "S")], "acd"), "aS");
}

#[test]
fn test_shorter_taken_where_longer_is_blocked() {
    let patterns = [("ab", "X"), ("bcd", "L"), ("cd", "S")];
    assert_eq!(rewrite_all(&patterns, "abcd"), "XS");
    let patterns = [("abc", "A"), ("d", "D"), ("fg", "F"), ("cdefg", "L")];
    assert_eq!(rewrite_all(&patterns, "abcdefg"), "ADeF");
}

#[test]
fn test_accepted_spans_do_not_overlap() {
    assert_eq!(rewrite_all(&[("aba", "X")], "ababa"), "Xba");
    assert_eq!(rewrite_all(&[("aba", "X")], "abababa"), "XbX");
    assert_eq!(rewrite_all(&[("aa", "X")], "aaaaa"), "XXa");
    assert_eq!(rewrite_all(&[("abc", "1"), ("cde", "2")], "abcde"), "1de");
}

#[test]
fn test_failure_links() {
    let patterns = [("he", "1"), ("she", "2"), ("his", "3"), ("hers", "4")];
    assert_eq!(rewrite_all(&patterns, "ushers"), "u2rs");
    assert_eq!(rewrite_all(&patterns, "hershey"), "41y");
    assert_eq!(rewrite_all(&patterns, "hishe"), "31");
    assert_eq!(rewrite_all(&[("abcd", "1"), ("bce", "2")], "abce"), "a2");
    assert_eq!(rewrite_all(&[("aab", "1")], "aaab"), "a1");
}

#[test]
fn test_empty_pattern_occurs_nowhere() {
    let mut ac = NaiveAcBuilder::new();
    ac.insert(b"", "!");
    ac.insert(b"b", "B");
    let ac = ac.build();
    assert_eq!(ac.replace(b"abc"), b"aBc".to_vec());
    assert_eq!(ac.replace(b""), Vec::<u8>::new());
}

#[test]
fn test_zero_bytes_in_pattern_and_text() {
    let mut ac = NaiveAcBuilder::new();
    ac.insert(&[b'a', 0], "*");
    ac.insert(&[0, 0], "#");
    let ac = ac.build();
    assert_eq!(ac.replace(b"a"), b"a".to_vec());
    assert_eq!(ac.replace(&[b'a', 0]), b"*".to_vec());
    assert_eq!(ac.replace(&[0, 0, 0, b'a']), vec![b'#', 0, b'a']);
    assert_eq!(ac.replace(&[255, b'a', 0, 0, 0]), vec![255, b'*', b'#']);
}

#[test]
fn test_payload_may_be_empty_or_long() {
    assert_eq!(rewrite_all(&[("abc", "")], "xabcyabc"), "xy");
    assert_eq!(rewrite_all(&[("a", "aaaa")], "bab"), "baaaab");
    assert_eq!(rewrite_all(&[("a", "b"), ("b", "a")], "abba"), "baab");
}

#[test]
fn test_payload_kinds() {
    let mut owned = NaiveAcBuilder::<Vec<u8>>::new();
    owned.insert(b"key", vec![1, 2, 3]);
    let owned = owned.build();
    assert_eq!(owned.replace(b"a key."), vec![b'a', b' ', 1, 2, 3, b'.']);

    let bytes: [u8; 2] = [200, 201];
    let mut borrowed = NaiveAcBuilder::<&[u8]>::new();
    borrowed.insert(b"key", &bytes[..]);
    let borrowed = borrowed.build();
    assert_eq!(borrowed.replace(b"keykey"), vec![200, 201, 200, 201]);

    let mut text = NaiveAcBuilder::<&str>::new();
    text.insert(b"key", "é");
    let text = text.build();
    assert_eq!(text.replace(b"key"), vec![0xc3, 0xa9]);
}

#[test]
fn test_replace_can_be_repeated() {
    let mut ac = NaiveAcBuilder::new();
    ac.insert(b"cat", "dog");
    let ac = ac.build();
    let first = ac.replace(b"cat and cat");
    let second = ac.replace(b"cat and cat");
    assert_eq!(first, b"dog and dog".to_vec());
    assert_eq!(first, second);
    assert_eq!(ac.replace(b"concatenate"), b"condogenate".to_vec());
}

#[test]
fn test_every_byte_value_as_pattern() {
    let mut ac = NaiveAcBuilder::<Vec<u8>>::new();
    for b in 0..=255u8 {
        ac.insert(&[b], vec![255 - b]);
    }
    let ac = ac.build();
    let text: Vec<u8> = (0..=255u8).collect();
    let expected: Vec<u8> = (0..=255u8).rev().collect();
    assert_eq!(ac.replace(&text), expected);
}

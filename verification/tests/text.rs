use aether_threads::text::{
    before_first, contains, ends_with, has_char, is_white, join, same_text, second_word, split,
    split_once, starts_with, trim, trim_end, trim_start,
};

#[test]
fn white_space_is_that_of_unicode() {
    for n in 0..=0x10FFFFu32 {
        if let Some(c) = char::from_u32(n) {
            assert_eq!(is_white(c), c.is_whitespace(), "{:x}", n);
        }
    }
}

#[test]
fn trimming_agrees_with_std() {
    for s in ["", " ", "a", " a ", "\t\n a b \r\n", "\u{3000}x\u{85}", "x\u{200b}"] {
        assert_eq!(trim(s), s.trim());
        assert_eq!(trim_start(s), s.trim_start());
        assert_eq!(trim_end(s), s.trim_end());
    }
}

#[test]
fn splitting_agrees_with_std() {
    for s in ["", ",", "a", "a,b", ",a,,b,", "a b,c", "é,ü"] {
        let expected: Vec<&str> = s.split(',').collect();
        assert_eq!(split(s, ',', ','), expected);
        let either: Vec<&str> = s.split(|c: char| c == ',' || c == ' ').collect();
        assert_eq!(split(s, ',', ' '), either);
        assert_eq!(split_once(s, ','), s.split_once(','));
        assert_eq!(Some(before_first(s, ',')), s.split(',').next());
    }
}

#[test]
fn words_agree_with_std() {
    for s in ["", "a", " a ", "a b", "Uid:\t10123\t10123", "  x \n y z", "Uid:\r"] {
        assert_eq!(second_word(s), s.split_whitespace().nth(1));
    }
}

#[test]
fn search_agrees_with_std() {
    for s in ["", "a", "aab", "RenderThread", "héllo"] {
        for p in ["", "a", "ab", "Thread", "llo", "hé"] {
            assert_eq!(contains(s, p), s.contains(p));
            assert_eq!(starts_with(s, p), s.starts_with(p));
            assert_eq!(ends_with(s, p), s.ends_with(p));
            assert_eq!(same_text(s, p), s == p);
        }
        assert_eq!(has_char(s, 'a'), s.contains('a'));
    }
}

#[test]
fn joining_agrees_with_std() {
    let none: Vec<String> = vec![];
    assert_eq!(join(&none, ","), "");
    let one = vec!["x".to_string()];
    assert_eq!(join(&one, ","), "x");
    let three = vec!["x".to_string(), "".to_string(), "z".to_string()];
    assert_eq!(join(&three, ", "), "x, , z");
}

#[test]
fn splitting_undoes_joining() {
    let parts = vec!["0-3".to_string(), "".to_string(), "7".to_string()];
    let text = join(&parts, ",");
    assert_eq!(split(&text, ',', ','), vec!["0-3", "", "7"]);
}

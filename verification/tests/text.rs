use paragraphs::label::{decimal_string, label_string};
use paragraphs::tags::{is_block_element, is_code_tag, is_skip_tag, same_text};
use paragraphs::text::{char_is_space, chars_of, split_text, str_is_blank};

#[test]
fn white_space_is_that_of_the_standard_library() {
    let mut code: u32 = 0;
    while code <= 0x10FFFF {
        if let Some(c) = char::from_u32(code) {
            assert_eq!(char_is_space(c), c.is_whitespace(), "U+{:04X}", code);
        }
        code += 1;
    }
}

#[test]
fn characters_come_in_order() {
    assert_eq!(chars_of("héllo"), vec!['h', 'é', 'l', 'l', 'o']);
    assert_eq!(chars_of(""), Vec::<char>::new());
}

#[test]
fn blank_strings() {
    assert!(str_is_blank(""));
    assert!(str_is_blank(" \t\n\u{a0}"));
    assert!(!str_is_blank("  x "));
}

#[test]
fn short_text_is_one_chunk() {
    assert_eq!(split_text("Hello world", 500), vec!["Hello world".to_string()]);
}

#[test]
fn empty_text_has_no_chunk() {
    assert_eq!(split_text("", 10), Vec::<String>::new());
}

#[test]
fn chunks_end_at_word_boundaries() {
    let chunks = split_text("aaa bbb ccc ddd", 8);
    assert_eq!(chunks, vec!["aaa bbb ".to_string(), "ccc ddd".to_string()]);
}

#[test]
fn a_chunk_may_be_exactly_the_maximum() {
    let chunks = split_text("aaa bbb ccc", 8);
    assert_eq!(chunks, vec!["aaa bbb ".to_string(), "ccc".to_string()]);
    let chunks = split_text("aaa bbb ccc", 7);
    assert_eq!(chunks, vec!["aaa ".to_string(), "bbb ccc".to_string()]);
    let chunks = split_text("aaa bbb ccc", 6);
    assert_eq!(chunks, vec!["aaa ".to_string(), "bbb ".to_string(), "ccc".to_string()]);
}

#[test]
fn an_oversized_word_is_a_chunk_of_its_own() {
    let chunks = split_text("a bbbbbbbbbbbb c", 5);
    assert_eq!(chunks, vec!["a ".to_string(), "bbbbbbbbbbbb ".to_string(), "c".to_string()]);
}

#[test]
fn an_oversized_word_alone_is_not_cut() {
    assert_eq!(split_text("abcdefghij", 3), vec!["abcdefghij".to_string()]);
}

#[test]
fn each_white_space_character_ends_a_word() {
    let chunks = split_text("a  b", 2);
    assert_eq!(chunks, vec!["a ".to_string(), " b".to_string()]);
    let chunks = split_text("  ", 1);
    assert_eq!(chunks, vec![" ".to_string(), " ".to_string()]);
}

#[test]
fn a_maximum_of_zero_gives_one_word_per_chunk() {
    let chunks = split_text("ab cd", 0);
    assert_eq!(chunks, vec!["ab ".to_string(), "cd".to_string()]);
}

#[test]
fn length_is_counted_in_characters_not_bytes() {
    let chunks = split_text("éé éé éé", 6);
    assert_eq!(chunks, vec!["éé éé ".to_string(), "éé".to_string()]);
}

#[test]
fn chunks_joined_are_the_text() {
    let text = "The quick\tbrown  fox\njumps over the lazy dog. ";
    for max in 0..60 {
        let chunks = split_text(text, max);
        assert_eq!(chunks.concat(), text);
        for chunk in &chunks {
            let n = chunk.chars().count();
            assert!(n > 0);
            let words = chunk.split_inclusive(|c: char| c.is_whitespace()).count();
            assert!(n <= max || words == 1, "max {} chunk {:?}", max, chunk);
        }
    }
}

#[test]
fn decimal_numerals() {
    assert_eq!(decimal_string(0), "0");
    assert_eq!(decimal_string(7), "7");
    assert_eq!(decimal_string(10), "10");
    assert_eq!(decimal_string(1234567890), "1234567890");
    assert_eq!(decimal_string(u32::MAX), "4294967295");
}

#[test]
fn addressing_values() {
    assert_eq!(label_string(0), "para_0");
    assert_eq!(label_string(42), "para_42");
    assert_eq!(label_string(100), "para_100");
}

#[test]
fn tags_to_skip() {
    for tag in ["script", "style", "noscript", "iframe", "svg", "head", "link", "meta"] {
        assert!(is_skip_tag(tag), "{}", tag);
    }
    for tag in ["p", "div", "span", "pre", "code", "body", "SCRIPT", ""] {
        assert!(!is_skip_tag(tag), "{}", tag);
    }
}

#[test]
fn tags_of_code() {
    assert!(is_code_tag("pre"));
    assert!(is_code_tag("code"));
    assert!(!is_code_tag("p"));
    assert!(!is_code_tag("samp"));
}

#[test]
fn tags_of_blocks() {
    for tag in [
        "address", "article", "aside", "blockquote", "body", "canvas", "dd", "div", "dl", "dt",
        "fieldset", "figcaption", "figure", "footer", "form", "h1", "h2", "h3", "h4", "h5", "h6",
        "header", "hr", "li", "main", "nav", "noscript", "ol", "p", "pre", "section", "table",
        "tfoot", "ul", "video",
    ] {
        assert!(is_block_element(tag), "{}", tag);
    }
    for tag in ["span", "a", "b", "em", "code", "img", "html", "td", ""] {
        assert!(!is_block_element(tag), "{}", tag);
    }
}

#[test]
fn same_text_compares_characters() {
    assert!(same_text("abc", "abc"));
    assert!(!same_text("abc", "abd"));
    assert!(!same_text("abc", "ab"));
    assert!(same_text("", ""));
}

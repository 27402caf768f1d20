use link_checker::doc::{file_type, is_doc_file, FileType};
use link_checker::links::extract_links;
use regex::Regex;

fn captured(pattern: &Regex, text: &str) -> Vec<String> {
    pattern.captures_iter(text).map(|found| found["link"].to_string()).collect()
}

/// All texts over `alphabet` of at most `longest` characters.
fn texts(alphabet: &[char], longest: usize) -> Vec<String> {
    let mut all = vec![String::new()];
    let mut last = vec![String::new()];
    for _ in 0..longest {
        let mut next = Vec::new();
        for text in &last {
            for c in alphabet {
                let mut longer = text.clone();
                longer.push(*c);
                next.push(longer);
            }
        }
        all.extend(next.iter().cloned());
        last = next;
    }
    all
}

/// Texts over `alphabet`, drawn by a fixed rule.
fn drawn(alphabet: &[char], count: usize, longest: usize, seed: u64) -> Vec<String> {
    let mut state = seed;
    let mut step = move || {
        state = state.wrapping_mul(6364136223846793005).wrapping_add(1442695040888963407);
        (state >> 33) as usize
    };
    (0..count)
        .map(|_| {
            let length = step() % (longest + 1);
            (0..length).map(|_| alphabet[step() % alphabet.len()]).collect()
        })
        .collect()
}

#[test]
fn markdown_links_are_those_of_the_pattern_with_short_label_and_address() {
    let pattern = Regex::new(r"\[.*?\]\((?P<link>.*?)\)").unwrap();
    for text in texts(&['[', ']', '(', ')', 'a', '\n'], 6) {
        assert_eq!(extract_links(&text, FileType::MARKDOWN), captured(&pattern, &text), "{:?}", text);
    }
}

#[test]
fn markdown_links_of_longer_texts_are_those_of_the_pattern() {
    let pattern = Regex::new(r"\[.*?\]\((?P<link>.*?)\)").unwrap();
    for text in drawn(&['[', ']', '(', ')', 'a', '\n', '\u{e9}'], 20000, 40, 1) {
        assert_eq!(extract_links(&text, FileType::MARKDOWN), captured(&pattern, &text), "{:?}", text);
        assert_eq!(extract_links(&text, FileType::TXT), captured(&pattern, &text), "{:?}", text);
    }
}

#[test]
fn rst_links_are_those_of_the_pattern_with_short_label() {
    let pattern = Regex::new(r"`.*? <(?P<link>[^>]*)>`_").unwrap();
    for text in texts(&['`', ' ', '<', '>', '_', '\n'], 6) {
        assert_eq!(extract_links(&text, FileType::RST), captured(&pattern, &text), "{:?}", text);
    }
}

#[test]
fn rst_links_of_longer_texts_are_those_of_the_pattern() {
    let pattern = Regex::new(r"`.*? <(?P<link>[^>]*)>`_").unwrap();
    for text in drawn(&['`', ' ', '<', '>', '_', '\n', 'a', '\u{4e2d}'], 20000, 40, 2) {
        assert_eq!(extract_links(&text, FileType::RST), captured(&pattern, &text), "{:?}", text);
    }
}

#[test]
fn doc_file_names_are_those_of_the_pattern() {
    let pattern = Regex::new(r"(.*\.md$)|(.*\.rst$)|(?i)README").unwrap();
    for name in texts(&['.', 'm', 'd', 'r', 's', 't', '\n'], 5) {
        assert_eq!(is_doc_file(&name), pattern.is_match(&name), "{:?}", name);
    }
    let letters = ['R', 'r', 'E', 'e', 'A', 'a', 'D', 'd', 'M', 'm', '.', 'x', '\u{212a}'];
    for name in drawn(&letters, 20000, 12, 3) {
        assert_eq!(is_doc_file(&name), pattern.is_match(&name), "{:?}", name);
    }
    for name in ["README", "readme", "ReAdMe", "xxREADMExx", "READ ME", "R\u{c9}ADME", ""] {
        assert_eq!(is_doc_file(name), pattern.is_match(name), "{:?}", name);
    }
}

#[test]
fn file_types_are_those_of_the_patterns() {
    let rst = Regex::new(r"(.*\.rst$)").unwrap();
    let markdown = Regex::new(r"(.*\.md$)").unwrap();
    for name in texts(&['.', 'm', 'd', 'r', 's', 't', '\n'], 5) {
        let expected = if rst.is_match(&name) {
            FileType::RST
        } else if markdown.is_match(&name) {
            FileType::MARKDOWN
        } else {
            FileType::TXT
        };
        assert_eq!(file_type(&name), expected, "{:?}", name);
    }
}

use link_checker::doc::FileType;
use link_checker::links::{
    extract_links, extract_links_from_file, find_links, link_syntax, markdown_syntax, rst_syntax,
    LinkSyntax,
};

fn owned(links: &[&str]) -> Vec<String> {
    links.iter().map(|link| link.to_string()).collect()
}

#[test]
fn test_rst_link_regex() {
    let text = r"blabla `link <mylink.com>`_ blabla `another one <link.com>`_";
    let captures = extract_links(text, FileType::RST);

    assert_eq!(&captures[0], "mylink.com");
    assert_eq!(&captures[1], "link.com");
}

#[test]
fn rst_links_in_order() {
    let text = "blabla `link <mylink.com>`_ blabla `another one <link.com>`_";
    assert_eq!(extract_links(text, FileType::RST), owned(&["mylink.com", "link.com"]));
}

#[test]
fn markdown_links_in_order() {
    let text = "see [docs](http://example.com/a) and [more](http://example.com/b)";
    assert_eq!(
        extract_links(text, FileType::MARKDOWN),
        owned(&["http://example.com/a", "http://example.com/b"])
    );
}

#[test]
fn plain_text_is_read_like_markdown() {
    let text = "see [docs](http://example.com/a) and `rst <http://example.com/r>`_";
    assert_eq!(extract_links(text, FileType::TXT), owned(&["http://example.com/a"]));
    assert_eq!(extract_links(text, FileType::MARKDOWN), owned(&["http://example.com/a"]));
    assert_eq!(extract_links(text, FileType::RST), owned(&["http://example.com/r"]));
}

#[test]
fn a_link_that_stands_twice_is_given_twice() {
    let text = "[a](http://x.org) [b](http://x.org)\n[c](http://x.org)";
    assert_eq!(
        extract_links(text, FileType::MARKDOWN),
        owned(&["http://x.org", "http://x.org", "http://x.org"])
    );
}

#[test]
fn text_without_links_has_none() {
    assert_eq!(extract_links("", FileType::MARKDOWN), owned(&[]));
    assert_eq!(extract_links("", FileType::RST), owned(&[]));
    assert_eq!(extract_links("no links here", FileType::TXT), owned(&[]));
    assert_eq!(extract_links("[label] (http://x.org)", FileType::MARKDOWN), owned(&[]));
    assert_eq!(extract_links("[label](http://x.org", FileType::MARKDOWN), owned(&[]));
    assert_eq!(extract_links("label](http://x.org)", FileType::MARKDOWN), owned(&[]));
    assert_eq!(extract_links("`label <http://x.org>`", FileType::RST), owned(&[]));
    assert_eq!(extract_links("`label <http://x.org>_", FileType::RST), owned(&[]));
    assert_eq!(extract_links("`label<http://x.org>`_", FileType::RST), owned(&[]));
    assert_eq!(extract_links("label <http://x.org>`_", FileType::RST), owned(&[]));
}

#[test]
fn empty_label_and_empty_address() {
    assert_eq!(extract_links("[](http://x.org)", FileType::MARKDOWN), owned(&["http://x.org"]));
    assert_eq!(extract_links("[a]()", FileType::MARKDOWN), owned(&[""]));
    assert_eq!(extract_links("[]()", FileType::MARKDOWN), owned(&[""]));
    assert_eq!(extract_links("` <http://x.org>`_", FileType::RST), owned(&["http://x.org"]));
    assert_eq!(extract_links("`a <>`_", FileType::RST), owned(&[""]));
}

#[test]
fn markdown_label_and_address_stay_on_their_line() {
    assert_eq!(extract_links("[a\nb](http://x.org)", FileType::MARKDOWN), owned(&[]));
    assert_eq!(extract_links("[a](http://\nx.org)", FileType::MARKDOWN), owned(&[]));
    assert_eq!(
        extract_links("[a](http://\nx.org) [b](http://y.org)", FileType::MARKDOWN),
        owned(&["http://y.org"])
    );
    assert_eq!(
        extract_links("[a\n[b](http://y.org)", FileType::MARKDOWN),
        owned(&["http://y.org"])
    );
}

#[test]
fn rst_address_may_run_over_lines_its_label_may_not() {
    assert_eq!(
        extract_links("`a <http://\nx.org>`_", FileType::RST),
        owned(&["http://\nx.org"])
    );
    assert_eq!(extract_links("`a\nb <http://x.org>`_", FileType::RST), owned(&[]));
}

#[test]
fn the_shortest_label_is_taken() {
    assert_eq!(
        extract_links("[a](b) and c](d)", FileType::MARKDOWN),
        owned(&["b"])
    );
    assert_eq!(
        extract_links("[a]b](c)", FileType::MARKDOWN),
        owned(&["c"])
    );
    assert_eq!(
        extract_links("[x [y](u)", FileType::MARKDOWN),
        owned(&["u"])
    );
    assert_eq!(
        extract_links("`a <x `b <y>`_", FileType::RST),
        owned(&["x `b <y"])
    );
}

#[test]
fn a_label_end_whose_address_is_not_closed_is_passed_over() {
    assert_eq!(
        extract_links("`a <x> b <y>`_", FileType::RST),
        owned(&["y"])
    );
    assert_eq!(
        extract_links("[a](b [c](d)", FileType::MARKDOWN),
        owned(&["b [c](d"])
    );
}

#[test]
fn the_search_goes_on_behind_a_link() {
    assert_eq!(
        extract_links("[a](b)[c](d)", FileType::MARKDOWN),
        owned(&["b", "d"])
    );
    assert_eq!(
        extract_links("`a <b>`_`c <d>`_", FileType::RST),
        owned(&["b", "d"])
    );
    assert_eq!(
        extract_links("[a](b)](c)", FileType::MARKDOWN),
        owned(&["b"])
    );
}

#[test]
fn addresses_with_letters_outside_ascii() {
    assert_eq!(
        extract_links("d\u{e9}j\u{e0} [vu\u{4e2d}](http://\u{e9}.org/\u{4e2d}) \u{e9}", FileType::MARKDOWN),
        owned(&["http://\u{e9}.org/\u{4e2d}"])
    );
    assert_eq!(
        extract_links("\u{4e2d} `\u{e9} <\u{4e2d}\u{6587}>`_", FileType::RST),
        owned(&["\u{4e2d}\u{6587}"])
    );
}

#[test]
fn a_file_that_could_not_be_read_has_no_links() {
    for file_type in [FileType::MARKDOWN, FileType::RST, FileType::TXT] {
        let (links, said) =
            extract_links_from_file("\"a.md\"", Err("No such file or directory"), file_type);
        assert_eq!(links, owned(&[]));
        assert_eq!(
            said,
            Some("Can't read file \"a.md\" (beacuse No such file or directory)".to_string())
        );
    }
}

#[test]
fn a_file_that_was_read_has_the_links_of_its_content() {
    assert_eq!(
        extract_links_from_file("README", Ok("[a](b)"), FileType::TXT),
        (owned(&["b"]), None)
    );
    assert_eq!(
        extract_links_from_file("a.rst", Ok("`a <b>`_"), FileType::RST),
        (owned(&["b"]), None)
    );
    assert_eq!(extract_links_from_file("a.rst", Ok(""), FileType::RST), (owned(&[]), None));
}

#[test]
fn links_in_a_syntax_of_ones_own() {
    let syntax = LinkSyntax {
        open: '{',
        label_end: '-',
        url_start: '>',
        close: '}',
        tail: vec!['!'],
        url_on_one_line: true,
    };
    assert_eq!(
        find_links("{a->b}! {c->d} {e-f->g\n}! {h->i}!{->}!", &syntax),
        owned(&["b", "i", ""])
    );
}

#[test]
fn syntax_of_each_file_type() {
    let md = markdown_syntax();
    assert_eq!(md.open, '[');
    assert_eq!(md.label_end, ']');
    assert_eq!(md.url_start, '(');
    assert_eq!(md.close, ')');
    assert_eq!(md.tail, Vec::<char>::new());
    assert!(md.url_on_one_line);
    let rst = rst_syntax();
    assert_eq!(rst.open, '`');
    assert_eq!(rst.label_end, ' ');
    assert_eq!(rst.url_start, '<');
    assert_eq!(rst.close, '>');
    assert_eq!(rst.tail, vec!['`', '_']);
    assert!(!rst.url_on_one_line);
    assert_eq!(link_syntax(FileType::RST).open, '`');
    assert_eq!(link_syntax(FileType::MARKDOWN).open, '[');
    assert_eq!(link_syntax(FileType::TXT).open, '[');
}

#[test]
fn a_long_line_of_openings_is_searched_quickly() {
    let mut text = String::new();
    for _ in 0..20000 {
        text.push_str("[](");
    }
    assert_eq!(extract_links(&text, FileType::MARKDOWN), owned(&[]));
    text.push(')');
    assert_eq!(extract_links(&text, FileType::MARKDOWN).len(), 1);
}

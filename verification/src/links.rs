//! The hyperlinks that a document holds.
//!
//! A link is written as an opening mark, a label, two characters that end
//! the label and start the address, the address, and a closing mark:
//! `[label](address)` in Markdown and in plain text, and
//! `` `label <address>`_ `` in reStructuredText. Links are looked for from
//! the start of the text; the search goes on behind each link found.

use vstd::prelude::*;

use crate::doc::FileType;
use crate::report::{unreadable_line, unreadable_text};
use crate::text::{chars_of, string_of};

verus! {

/// How a link is written in one markup.
pub struct LinkSyntax {
    /// The character that opens a link.
    pub open: char,
    /// The character that ends the label.
    pub label_end: char,
    /// The character that follows it and stands before the address.
    pub url_start: char,
    /// The character that ends the address. No address holds it.
    pub close: char,
    /// What has to follow `close` at once.
    pub tail: Vec<char>,
    /// The address ends with its line: it holds no line feed.
    pub url_on_one_line: bool,
}

/// A `LinkSyntax` as contracts speak of it.
pub struct Shape {
    /// The character that opens a link.
    pub open: char,
    /// The character that ends the label.
    pub label_end: char,
    /// The character that follows it and stands before the address.
    pub url_start: char,
    /// The character that ends the address. No address holds it.
    pub close: char,
    /// What has to follow `close` at once.
    pub tail: Seq<char>,
    /// The address ends with its line: it holds no line feed.
    pub url_on_one_line: bool,
}

impl View for LinkSyntax {
    type V = Shape;

    open spec fn view(&self) -> Shape {
        Shape {
            open: self.open,
            label_end: self.label_end,
            url_start: self.url_start,
            close: self.close,
            tail: self.tail@,
            url_on_one_line: self.url_on_one_line,
        }
    }
}

/// `[label](address)`, the address on one line.
pub open spec fn markdown_shape() -> Shape {
    Shape {
        open: '[',
        label_end: ']',
        url_start: '(',
        close: ')',
        tail: Seq::empty(),
        url_on_one_line: true,
    }
}

/// `` `label <address>`_ ``; the address may run over several lines.
pub open spec fn rst_shape() -> Shape {
    Shape {
        open: '`',
        label_end: ' ',
        url_start: '<',
        close: '>',
        tail: seq!['`', '_'],
        url_on_one_line: false,
    }
}

/// The shape of the links in a file of this type. Plain text is read like
/// Markdown.
pub open spec fn shape_of(file_type: FileType) -> Shape {
    match file_type {
        FileType::RST => rst_shape(),
        FileType::MARKDOWN => markdown_shape(),
        FileType::TXT => markdown_shape(),
    }
}

/// `c` may stand in an address.
pub open spec fn in_url(shape: Shape, c: char) -> bool {
    c != shape.close && (shape.url_on_one_line ==> c != '\n')
}

/// No line feed stands in `text` from index `from` up to `to`, `to` left out.
pub open spec fn one_line(text: Seq<char>, from: int, to: int) -> bool {
    forall|i: int| from <= i < to ==> #[trigger] text[i] != '\n'
}

/// Only characters of an address stand in `text` from `from` up to `to`.
pub open spec fn url_span(shape: Shape, text: Seq<char>, from: int, to: int) -> bool {
    forall|i: int| from <= i < to ==> in_url(shape, #[trigger] text[i])
}

/// The closing mark stands at index `end` of `text`, and what has to follow
/// it does.
pub open spec fn closes_at(shape: Shape, text: Seq<char>, end: int) -> bool {
    &&& 0 <= end
    &&& end + 1 + shape.tail.len() <= text.len()
    &&& text[end] == shape.close
    &&& text.subrange(end + 1, end + 1 + shape.tail.len()) == shape.tail
}

/// A link stands in `text`: it opens at index `start`, its label ends before
/// `mid`, and its address runs from `mid + 2` up to the closing mark at `end`.
/// The label is on one line.
pub open spec fn link_at(shape: Shape, text: Seq<char>, start: int, mid: int, end: int) -> bool {
    &&& 0 <= start < mid
    &&& mid + 2 <= end
    &&& text[start] == shape.open
    &&& one_line(text, start + 1, mid)
    &&& text[mid] == shape.label_end
    &&& text[mid + 1] == shape.url_start
    &&& url_span(shape, text, mid + 2, end)
    &&& closes_at(shape, text, end)
}

/// The link at `start`, `mid`, `end` is the one that a search from index
/// `from` finds: no link opens between `from` and `start`, and no link that
/// opens at `start` has a shorter label.
pub open spec fn first_link_at(
    shape: Shape,
    text: Seq<char>,
    from: int,
    start: int,
    mid: int,
    end: int,
) -> bool {
    &&& from <= start
    &&& link_at(shape, text, start, mid, end)
    &&& forall|s: int, m: int, e: int|
        from <= s && #[trigger] link_at(shape, text, s, m, e) ==> start < s || (start == s && mid
            <= m)
}

/// The addresses of the links of `text` from index `from` on, in the order
/// in which they stand: that of the link that a search from `from` finds,
/// then those from behind that link on.
pub open spec fn links_from(shape: Shape, text: Seq<char>, from: int) -> Seq<Seq<char>>
    decreases text.len() - from,
{
    if exists|s: int, m: int, e: int| first_link_at(shape, text, from, s, m, e) {
        let (s, m, e) = choose|s: int, m: int, e: int| first_link_at(shape, text, from, s, m, e);
        seq![text.subrange(m + 2, e)] + links_from(shape, text, e + 1 + shape.tail.len())
    } else {
        Seq::empty()
    }
}

/// The addresses of all links of a document of the given type.
pub open spec fn links_in(text: Seq<char>, file_type: FileType) -> Seq<Seq<char>> {
    links_from(shape_of(file_type), text, 0)
}

/// A search has one result: two links that it may find are the same link.
pub proof fn lemma_first_link_is_one(
    shape: Shape,
    text: Seq<char>,
    from: int,
    a: (int, int, int),
    b: (int, int, int),
)
    requires
        first_link_at(shape, text, from, a.0, a.1, a.2),
        first_link_at(shape, text, from, b.0, b.1, b.2),
    ensures
        a == b,
{
    assert(link_at(shape, text, a.0, a.1, a.2));
    assert(link_at(shape, text, b.0, b.1, b.2));
    if a.2 < b.2 {
        assert(in_url(shape, text[a.2]));
    }
    if b.2 < a.2 {
        assert(in_url(shape, text[b.2]));
    }
}

/// Once a search from `from` has found its link, the addresses from `from` on
/// are the address of that link and those from behind it on.
pub proof fn lemma_links_after_found(
    shape: Shape,
    text: Seq<char>,
    from: int,
    start: int,
    mid: int,
    end: int,
)
    requires
        first_link_at(shape, text, from, start, mid, end),
    ensures
        links_from(shape, text, from) == seq![text.subrange(mid + 2, end)] + links_from(
            shape,
            text,
            end + 1 + shape.tail.len(),
        ),
{
    let found = choose|s: int, m: int, e: int| first_link_at(shape, text, from, s, m, e);
    lemma_first_link_is_one(shape, text, from, found, (start, mid, end));
}

/// Where no link opens at or behind `from`, there are no addresses.
pub proof fn lemma_links_none(shape: Shape, text: Seq<char>, from: int)
    requires
        forall|s: int, m: int, e: int| from <= s ==> !#[trigger] link_at(shape, text, s, m, e),
    ensures
        links_from(shape, text, from) == Seq::<Seq<char>>::empty(),
{
}

/// The index of the first character from `from` on that cannot stand in an
/// address, or the length of `text` where there is none.
spec fn url_stop(shape: Shape, text: Seq<char>, from: int) -> int
    decreases text.len() - from,
{
    if from >= text.len() {
        text.len() as int
    } else if !in_url(shape, text[from]) {
        from
    } else {
        url_stop(shape, text, from + 1)
    }
}

/// A label may end at `mid`: the two characters between label and address
/// stand there, and the address behind them is closed.
spec fn label_may_end(shape: Shape, text: Seq<char>, mid: int) -> bool {
    &&& 0 <= mid
    &&& mid + 1 < text.len()
    &&& text[mid] == shape.label_end
    &&& text[mid + 1] == shape.url_start
    &&& closes_at(shape, text, url_stop(shape, text, mid + 2))
}

/// The first index from `from` on at which a label may end, with no line
/// feed between `from` and it, or the length of `text` where there is none.
spec fn label_stop(shape: Shape, text: Seq<char>, from: int) -> int
    decreases text.len() - from,
{
    if from >= text.len() {
        text.len() as int
    } else if label_may_end(shape, text, from) {
        from
    } else if text[from] == '\n' {
        text.len() as int
    } else {
        label_stop(shape, text, from + 1)
    }
}

proof fn lemma_stops_at_end(shape: Shape, text: Seq<char>)
    ensures
        url_stop(shape, text, text.len() as int) == text.len(),
        label_stop(shape, text, text.len() as int) == text.len(),
{
}

proof fn lemma_url_stop(shape: Shape, text: Seq<char>, from: int)
    requires
        0 <= from <= text.len(),
    ensures
        from <= url_stop(shape, text, from) <= text.len(),
        url_span(shape, text, from, url_stop(shape, text, from)),
        url_stop(shape, text, from) < text.len() ==> !in_url(
            shape,
            text[url_stop(shape, text, from)],
        ),
    decreases text.len() - from,
{
    if from < text.len() && in_url(shape, text[from]) {
        lemma_url_stop(shape, text, from + 1);
    }
}

proof fn lemma_link_ends_at_stop(shape: Shape, text: Seq<char>, start: int, mid: int, end: int)
    requires
        link_at(shape, text, start, mid, end),
    ensures
        url_stop(shape, text, mid + 2) == end,
        label_may_end(shape, text, mid),
{
    lemma_url_stop(shape, text, mid + 2);
    let stop = url_stop(shape, text, mid + 2);
    if stop < end {
        assert(in_url(shape, text[stop]));
    }
    if end < stop {
        assert(in_url(shape, text[end]));
    }
}

proof fn lemma_label_stop(shape: Shape, text: Seq<char>, from: int)
    requires
        0 <= from <= text.len(),
    ensures
        from <= label_stop(shape, text, from) <= text.len(),
        label_stop(shape, text, from) < text.len() ==> {
            &&& label_may_end(shape, text, label_stop(shape, text, from))
            &&& one_line(text, from, label_stop(shape, text, from))
        },
        label_stop(shape, text, from) < text.len() ==> forall|mid: int|
            from <= mid < label_stop(shape, text, from) ==> !#[trigger] label_may_end(
                shape,
                text,
                mid,
            ),
        label_stop(shape, text, from) == text.len() ==> forall|mid: int|
            from <= mid && #[trigger] label_may_end(shape, text, mid) ==> !one_line(
                text,
                from,
                mid,
            ),
    decreases text.len() - from,
{
    if from < text.len() && !label_may_end(shape, text, from) {
        if text[from] == '\n' {
            assert forall|mid: int|
                from <= mid && #[trigger] label_may_end(shape, text, mid) implies !one_line(
                text,
                from,
                mid,
            ) by {
                assert(text[from] == '\n');
            }
        } else {
            lemma_label_stop(shape, text, from + 1);
            let stop = label_stop(shape, text, from);
            if stop == text.len() {
                assert forall|mid: int|
                    from <= mid && #[trigger] label_may_end(shape, text, mid) implies !one_line(
                    text,
                    from,
                    mid,
                ) by {
                    assert(!one_line(text, from + 1, mid));
                }
            }
        }
    }
}

/// What a search finds at `start`, where a link opens: the link with the
/// shortest label, or that no link stands there.
proof fn lemma_link_from_start(shape: Shape, text: Seq<char>, start: int)
    requires
        0 <= start < text.len(),
        text[start] == shape.open,
    ensures
        label_stop(shape, text, start + 1) <= text.len(),
        label_stop(shape, text, start + 1) < text.len() ==> {
            let mid = label_stop(shape, text, start + 1);
            &&& link_at(shape, text, start, mid, url_stop(shape, text, mid + 2))
            &&& forall|m: int, e: int| #[trigger] link_at(shape, text, start, m, e) ==> mid <= m
        },
        label_stop(shape, text, start + 1) == text.len() ==> forall|m: int, e: int|
            !#[trigger] link_at(shape, text, start, m, e),
{
    lemma_label_stop(shape, text, start + 1);
    let mid = label_stop(shape, text, start + 1);
    if mid < text.len() {
        lemma_url_stop(shape, text, mid + 2);
    }
    assert forall|m: int, e: int| #[trigger] link_at(shape, text, start, m, e) implies mid <= m
        && mid < text.len() by {
        lemma_link_ends_at_stop(shape, text, start, m, e);
    }
}

proof fn lemma_search_finds(
    shape: Shape,
    text: Seq<char>,
    from: int,
    at: int,
    start: int,
    mid: int,
    end: int,
)
    requires
        0 <= from <= at <= start,
        link_at(shape, text, start, mid, end),
        forall|s: int, m: int, e: int| from <= s < at ==> !#[trigger] link_at(shape, text, s, m, e),
    ensures
        exists|s: int, m: int, e: int| first_link_at(shape, text, from, s, m, e),
    decreases start - at,
{
    if text[at] == shape.open {
        lemma_link_from_start(shape, text, at);
    }
    let stop = label_stop(shape, text, at + 1);
    if text[at] == shape.open && stop < text.len() {
        assert(first_link_at(shape, text, from, at, stop, url_stop(shape, text, stop + 2)));
    } else {
        assert(forall|m: int, e: int| !#[trigger] link_at(shape, text, at, m, e));
        lemma_search_finds(shape, text, from, at + 1, start, mid, end);
    }
}

/// Where a link stands at or behind `from`, a search from `from` finds one:
/// there is at least one address.
pub proof fn lemma_link_is_found(
    shape: Shape,
    text: Seq<char>,
    from: int,
    start: int,
    mid: int,
    end: int,
)
    requires
        0 <= from <= start,
        link_at(shape, text, start, mid, end),
    ensures
        links_from(shape, text, from).len() > 0,
{
    lemma_search_finds(shape, text, from, from, start, mid, end);
}

/// Nothing but a link gives an address: each address stands in `text`, at or
/// behind `from`, between the marks of a link.
pub proof fn lemma_address_is_of_link(shape: Shape, text: Seq<char>, from: int, k: int)
    requires
        0 <= k < links_from(shape, text, from).len(),
    ensures
        exists|s: int, m: int, e: int|
            from <= s && #[trigger] link_at(shape, text, s, m, e) && links_from(shape, text, from)[k]
                == text.subrange(m + 2, e),
    decreases k,
{
    let (start, mid, end) = choose|s: int, m: int, e: int|
        first_link_at(shape, text, from, s, m, e);
    assert(link_at(shape, text, start, mid, end));
    if k > 0 {
        let behind = end + 1 + shape.tail.len();
        lemma_address_is_of_link(shape, text, behind, k - 1);
        let (s, m, e) = choose|s: int, m: int, e: int|
            behind <= s && #[trigger] link_at(shape, text, s, m, e) && links_from(
                shape,
                text,
                behind,
            )[k - 1] == text.subrange(m + 2, e);
        assert(link_at(shape, text, s, m, e));
    }
}

/// How links are written in Markdown and in plain text.
pub fn markdown_syntax() -> (syntax: LinkSyntax)
    ensures
        syntax@ == markdown_shape(),
{
    LinkSyntax {
        open: '[',
        label_end: ']',
        url_start: '(',
        close: ')',
        tail: Vec::new(),
        url_on_one_line: true,
    }
}

/// How links are written in reStructuredText.
pub fn rst_syntax() -> (syntax: LinkSyntax)
    ensures
        syntax@ == rst_shape(),
{
    let mut tail: Vec<char> = Vec::new();
    tail.push('`');
    tail.push('_');
    assert(tail@ =~= seq!['`', '_']);
    LinkSyntax {
        open: '`',
        label_end: ' ',
        url_start: '<',
        close: '>',
        tail,
        url_on_one_line: false,
    }
}

/// How links are written in a file of this type.
pub fn link_syntax(file_type: FileType) -> (syntax: LinkSyntax)
    ensures
        syntax@ == shape_of(file_type),
{
    match file_type {
        FileType::RST => rst_syntax(),
        FileType::MARKDOWN => markdown_syntax(),
        FileType::TXT => markdown_syntax(),
    }
}

fn stands_in_url(syntax: &LinkSyntax, c: char) -> (yes: bool)
    ensures
        yes == in_url(syntax@, c),
{
    c != syntax.close && (!syntax.url_on_one_line || c != '\n')
}

fn closes(syntax: &LinkSyntax, text: &Vec<char>, end: usize) -> (yes: bool)
    ensures
        yes == closes_at(syntax@, text@, end as int),
{
    let n = text.len();
    let t = syntax.tail.len();
    if end >= n || text[end] != syntax.close || n - end - 1 < t {
        return false;
    }
    let ghost behind = text@.subrange(end + 1, end + 1 + t);
    let mut k: usize = 0;
    while k < t
        invariant
            k <= t,
            t == syntax.tail.len(),
            n == text.len(),
            end + 1 + t <= n,
            behind == text@.subrange(end + 1, end + 1 + t),
            forall|j: int| 0 <= j < k ==> behind[j] == syntax.tail@[j],
        decreases t - k,
    {
        if text[end + 1 + k] != syntax.tail[k] {
            assert(behind[k as int] != syntax.tail@[k as int]);
            return false;
        }
        k = k + 1;
    }
    assert(behind =~= syntax.tail@);
    true
}

/// For every index of `text`, where an address that starts there stops, and
/// where a label that starts there may end.
fn find_stops(syntax: &LinkSyntax, text: &Vec<char>) -> (stops: (Vec<usize>, Vec<usize>))
    ensures
        stops.0.len() == text.len(),
        stops.1.len() == text.len(),
        forall|p: int| 0 <= p < text.len() ==> stops.0[p] == url_stop(syntax@, text@, p),
        forall|p: int| 0 <= p < text.len() ==> stops.1[p] == label_stop(syntax@, text@, p),
{
    let n = text.len();
    let mut urls: Vec<usize> = vec![n; n];
    let mut labels: Vec<usize> = vec![n; n];
    let mut p = n;
    while p > 0
        invariant
            p <= n,
            n == text.len(),
            urls.len() == n,
            labels.len() == n,
            forall|q: int| p <= q < n ==> urls[q] == url_stop(syntax@, text@, q),
            forall|q: int| p <= q < n ==> labels[q] == label_stop(syntax@, text@, q),
        decreases p,
    {
        p = p - 1;
        proof {
            lemma_stops_at_end(syntax@, text@);
        }
        let c = text[p];
        let url = if !stands_in_url(syntax, c) {
            p
        } else if p + 1 < n {
            urls[p + 1]
        } else {
            n
        };
        assert(url == url_stop(syntax@, text@, p as int));
        urls.set(p, url);
        let mut may_end = false;
        if p + 1 < n {
            if c == syntax.label_end && text[p + 1] == syntax.url_start {
                let stop = if p + 2 < n {
                    urls[p + 2]
                } else {
                    n
                };
                may_end = closes(syntax, text, stop);
            }
        }
        assert(may_end == label_may_end(syntax@, text@, p as int));
        let label = if may_end {
            p
        } else if c == '\n' || p + 1 >= n {
            n
        } else {
            labels[p + 1]
        };
        assert(label == label_stop(syntax@, text@, p as int));
        labels.set(p, label);
    }
    (urls, labels)
}

/// The addresses of the links that `content` holds in the given syntax, in
/// the order in which the links stand. An address that stands several times
/// is given several times.
///
/// A link is looked for from the start of the text: the first place at which
/// a link opens, and there the link with the shortest label. The next link
/// is looked for behind the end of that one. Text that is no link is passed
/// over.
pub fn find_links(content: &str, syntax: &LinkSyntax) -> (links: Vec<String>)
    ensures
        links.deep_view() == links_from(syntax@, content@, 0),
{
    let text = chars_of(content);
    let n = text.len();
    let (urls, labels) = find_stops(syntax, &text);
    let mut links: Vec<String> = Vec::new();
    let mut at: usize = 0;
    let ghost shape = syntax@;
    let ghost mut from: int = 0;
    proof {
        assert(links.deep_view() + links_from(shape, text@, 0) =~= links_from(shape, text@, 0));
    }
    while at < n
        invariant
            shape == syntax@,
            n == text.len(),
            urls.len() == n,
            labels.len() == n,
            forall|p: int| 0 <= p < n ==> urls[p] == url_stop(shape, text@, p),
            forall|p: int| 0 <= p < n ==> labels[p] == label_stop(shape, text@, p),
            0 <= from <= at <= n,
            forall|s: int, m: int, e: int|
                from <= s < at ==> !#[trigger] link_at(shape, text@, s, m, e),
            links.deep_view() + links_from(shape, text@, from) == links_from(shape, text@, 0),
        decreases n - at,
    {
        let mid = if text[at] == syntax.open && at + 1 < n {
            labels[at + 1]
        } else {
            n
        };
        proof {
            if text@[at as int] == shape.open {
                lemma_link_from_start(shape, text@, at as int);
            }
        }
        if mid < n {
            let ghost end_at = url_stop(shape, text@, mid + 2);
            assert(link_at(shape, text@, at as int, mid as int, end_at));
            let end = urls[mid + 2];
            let link = string_of(&text, mid + 2, end);
            proof {
                assert(first_link_at(shape, text@, from, at as int, mid as int, end as int));
                lemma_links_after_found(shape, text@, from, at as int, mid as int, end as int);
                let before = links.deep_view();
                let found = seq![text@.subrange(mid + 2, end as int)];
                let behind = links_from(shape, text@, end + 1 + shape.tail.len());
                assert(before + (found + behind) =~= (before + found) + behind);
                assert(links@.push(link).len() == links@.len() + 1);
                assert(Seq::new(
                    links@.push(link).len(),
                    |i: int| links@.push(link)[i].deep_view(),
                ) =~= before + found);
                from = end + 1 + shape.tail.len();
            }
            links.push(link);
            at = end + 1 + syntax.tail.len();
        } else {
            assert forall|m: int, e: int| !#[trigger] link_at(shape, text@, at as int, m, e) by {
                lemma_stops_at_end(shape, text@);
            }
            at = at + 1;
        }
    }
    proof {
        lemma_links_none(shape, text@, from);
        assert(links.deep_view() + Seq::<Seq<char>>::empty() =~= links.deep_view());
    }
    links
}

/// The addresses of the links in `content`, a document of the given type, in
/// the order in which the links stand.
pub fn extract_links(content: &str, file_type: FileType) -> (links: Vec<String>)
    ensures
        links.deep_view() == links_in(content@, file_type),
{
    let syntax = link_syntax(file_type);
    find_links(content, &syntax)
}

/// The addresses of the links in a file of the given type, from what a read
/// of the file gave: its content, or the reason why it could not be read.
///
/// A file that could not be read has no links. That is no failure; it is
/// said in a line for the user, which names the file by `path` and gives the
/// reason. For a file that was read there is no such line.
pub fn extract_links_from_file(
    path: &str,
    contents: Result<&str, &str>,
    file_type: FileType,
) -> (found: (Vec<String>, Option<String>))
    ensures
        contents matches Ok(text) ==> found.0.deep_view() == links_in(text@, file_type)
            && found.1 is None,
        contents matches Err(reason) ==> found.0@.len() == 0 && found.1 is Some && found.1->0@
            == unreadable_text(path@, reason@),
{
    match contents {
        Ok(text) => (extract_links(text, file_type), None),
        Err(reason) => (Vec::new(), Some(unreadable_line(path, reason))),
    }
}

} // verus!

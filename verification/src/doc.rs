//! Which files count as documentation, and in which markup they are written.
//!
//! Both questions are answered from the file name alone.

use vstd::prelude::*;

use crate::text::chars_of;

verus! {

/// The markup of a documentation file, as far as link extraction cares.
#[allow(non_camel_case_types)]
#[derive(Clone, Copy, Debug, PartialEq, Eq, Structural)]
pub enum FileType {
    /// Anything that is neither of the two below; read like Markdown.
    TXT,
    /// A name that ends in `.md`.
    MARKDOWN,
    /// A name that ends in `.rst`.
    RST,
}

/// The characters `.md`.
pub open spec fn md_suffix() -> Seq<char> {
    seq!['.', 'm', 'd']
}

/// The characters `.rst`.
pub open spec fn rst_suffix() -> Seq<char> {
    seq!['.', 'r', 's', 't']
}

/// The characters `README`.
pub open spec fn readme() -> Seq<char> {
    seq!['R', 'E', 'A', 'D', 'M', 'E']
}

/// `text` ends with the characters of `suffix`.
pub open spec fn ends_with(text: Seq<char>, suffix: Seq<char>) -> bool {
    suffix.len() <= text.len() && text.subrange(text.len() - suffix.len(), text.len() as int)
        == suffix
}

/// The lower-case form of an upper-case ASCII letter; any other character
/// stands for itself.
pub open spec fn ascii_lower(c: char) -> char {
    if 'A' <= c && c <= 'Z' {
        ((c as u8) + 32) as char
    } else {
        c
    }
}

/// `a` and `b` are the same character, or the two cases of one ASCII letter.
pub open spec fn same_letter(a: char, b: char) -> bool {
    ascii_lower(a) == ascii_lower(b)
}

/// The word of `word.len()` characters that starts at index `at` of `text`
/// is `word`, whatever the case of its ASCII letters.
pub open spec fn word_at(text: Seq<char>, at: int, word: Seq<char>) -> bool {
    &&& 0 <= at
    &&& at + word.len() <= text.len()
    &&& forall|k: int| 0 <= k < word.len() ==> same_letter(#[trigger] text[at + k], word[k])
}

/// `README` stands somewhere in `name`, in any mix of cases.
pub open spec fn mentions_readme(name: Seq<char>) -> bool {
    exists|at: int| word_at(name, at, readme())
}

/// The name of a documentation file: it ends in `.md` or in `.rst`, or it
/// holds `README` in any mix of cases.
pub open spec fn is_doc_name(name: Seq<char>) -> bool {
    ends_with(name, md_suffix()) || ends_with(name, rst_suffix()) || mentions_readme(name)
}

/// The markup that a file of this name is read as. `.rst` is looked for
/// first; whatever is neither `.rst` nor `.md` is plain text.
pub open spec fn file_type_of(name: Seq<char>) -> FileType {
    if ends_with(name, rst_suffix()) {
        FileType::RST
    } else if ends_with(name, md_suffix()) {
        FileType::MARKDOWN
    } else {
        FileType::TXT
    }
}

/// No name ends both in `.md` and in `.rst`, so the order in which the two
/// endings are looked for never decides a file's type.
pub proof fn lemma_suffixes_exclude(name: Seq<char>)
    ensures
        !(ends_with(name, md_suffix()) && ends_with(name, rst_suffix())),
{
    if ends_with(name, md_suffix()) && ends_with(name, rst_suffix()) {
        let n = name.len() as int;
        assert(name.subrange(n - 3, n)[2] == 'd');
        assert(name.subrange(n - 4, n)[3] == 't');
    }
}

fn has_md_suffix(name: &Vec<char>) -> (yes: bool)
    ensures
        yes == ends_with(name@, md_suffix()),
{
    let n = name.len();
    if n < 3 {
        return false;
    }
    let yes = name[n - 3] == '.' && name[n - 2] == 'm' && name[n - 1] == 'd';
    proof {
        let tail = name@.subrange(n - 3, n as int);
        if yes {
            assert(tail =~= md_suffix());
        } else {
            assert(tail[0] == name@[n - 3] && tail[1] == name@[n - 2] && tail[2] == name@[n - 1]);
        }
    }
    yes
}

fn has_rst_suffix(name: &Vec<char>) -> (yes: bool)
    ensures
        yes == ends_with(name@, rst_suffix()),
{
    let n = name.len();
    if n < 4 {
        return false;
    }
    let yes = name[n - 4] == '.' && name[n - 3] == 'r' && name[n - 2] == 's' && name[n - 1]
        == 't';
    proof {
        let tail = name@.subrange(n - 4, n as int);
        if yes {
            assert(tail =~= rst_suffix());
        } else {
            assert(tail[0] == name@[n - 4] && tail[1] == name@[n - 3] && tail[2] == name@[n - 2]
                && tail[3] == name@[n - 1]);
        }
    }
    yes
}

/// `c` is `upper` or its lower-case form, for an upper-case ASCII letter.
fn is_letter(c: char, upper: char, lower: char) -> (yes: bool)
    requires
        'A' <= upper <= 'Z',
        lower == ascii_lower(upper),
    ensures
        yes == same_letter(c, upper),
{
    c == upper || c == lower
}

fn readme_starts_at(name: &Vec<char>, at: usize) -> (yes: bool)
    requires
        at + 6 <= name.len(),
    ensures
        yes == word_at(name@, at as int, readme()),
{
    let yes = is_letter(name[at], 'R', 'r') && is_letter(name[at + 1], 'E', 'e') && is_letter(
        name[at + 2],
        'A',
        'a',
    ) && is_letter(name[at + 3], 'D', 'd') && is_letter(name[at + 4], 'M', 'm') && is_letter(
        name[at + 5],
        'E',
        'e',
    );
    proof {
        let text = name@;
        let start = at as int;
        if !yes {
            // One of the six letters differs; it is a witness against the word.
            assert(text[start + 0] == name@[at as int]);
            assert(text[start + 1] == name@[at + 1]);
            assert(text[start + 2] == name@[at + 2]);
            assert(text[start + 3] == name@[at + 3]);
            assert(text[start + 4] == name@[at + 4]);
            assert(text[start + 5] == name@[at + 5]);
        }
    }
    yes
}

fn has_readme(name: &Vec<char>) -> (yes: bool)
    ensures
        yes == mentions_readme(name@),
{
    let n = name.len();
    if n < 6 {
        assert forall|at: int| !word_at(name@, at, readme()) by {}
        return false;
    }
    let mut at: usize = 0;
    while at <= n - 6
        invariant
            n == name.len(),
            6 <= n,
            forall|earlier: int| 0 <= earlier < at ==> !word_at(name@, earlier, readme()),
        decreases n - at,
    {
        if readme_starts_at(name, at) {
            return true;
        }
        at = at + 1;
    }
    assert forall|any: int| !word_at(name@, any, readme()) by {}
    false
}

/// Tells whether a file of this name is documentation: the name ends in
/// `.md` or `.rst`, or holds `README` in any mix of cases.
pub fn is_doc_file(name: &str) -> (yes: bool)
    ensures
        yes == is_doc_name(name@),
{
    let chars = chars_of(name);
    has_md_suffix(&chars) || has_rst_suffix(&chars) || has_readme(&chars)
}

/// The markup that a file of this name is read as.
///
/// Every name that ends in `.rst` is reStructuredText, every name that ends
/// in `.md` is Markdown, and every other name, `README` among them, is plain
/// text.
pub fn file_type(name: &str) -> (kind: FileType)
    ensures
        kind == file_type_of(name@),
        ends_with(name@, rst_suffix()) ==> kind == FileType::RST,
        ends_with(name@, md_suffix()) ==> kind == FileType::MARKDOWN,
        !ends_with(name@, rst_suffix()) && !ends_with(name@, md_suffix()) ==> kind
            == FileType::TXT,
{
    let chars = chars_of(name);
    proof {
        lemma_suffixes_exclude(name@);
    }
    if has_rst_suffix(&chars) {
        FileType::RST
    } else if has_md_suffix(&chars) {
        FileType::MARKDOWN
    } else {
        FileType::TXT
    }
}

} // verus!

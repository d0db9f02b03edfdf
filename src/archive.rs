//! Where the document of an archived page is written: a file named by the
//! slug of the page's URL, under the output directory.
//!
//! Converting the page's HTML to Markdown is not done here. `html2md` panics on
//! some HTML (an `<li>` left inside inline markup, such as `<b>`), no short
//! precondition describes those inputs, and a conversion failure must be
//! reported as that page's failure; catching the panic needs `std::panic`, so
//! the conversion stays with the caller that performs the page's I/O.
use vstd::prelude::*;

verus! {

/// The slug that `slugify` makes of a text, given its stop words, separator and
/// length bound.
pub uninterp spec fn slug_of(text: Seq<char>, stop_words: Seq<char>, sep: Seq<char>, max_len: nat) -> Seq<char>;

/// Relies on `slugify::slugify`: the slug depends on its arguments alone, holds
/// at most `max_length` characters, each an ASCII lowercase letter, a digit or
/// the separator's first character. That character must be ASCII, else the slug
/// is not valid UTF-8 and the call panics.
#[verifier::external_body]
fn slugify_text(text: &str, stop_words: &str, sep: &str, max_length: usize) -> (r: String)
    requires
        sep@.len() > 0,
        sep@[0] <= '\u{7f}',
    ensures
        r@ == slug_of(text@, stop_words@, sep@, max_length as nat),
        r@.len() <= max_length,
        forall|i: int| 0 <= i < r@.len() ==> is_slug_char(#[trigger] r@[i], sep@[0]),
{
    slugify::slugify(text, stop_words, sep, Some(max_length))
}

pub open spec fn is_slug_char(c: char, sep: char) -> bool {
    ('a' <= c && c <= 'z') || ('0' <= c && c <= '9') || c == sep
}

/// Longest slug used as a file name.
pub const MAX_SLUG_LEN: usize = 100;

/// The directory that holds the archived documents.
pub const OUTPUT_DIR: &'static str = "output";

pub open spec fn output_prefix() -> Seq<char> {
    seq!['o', 'u', 't', 'p', 'u', 't', '/']
}

pub open spec fn markdown_suffix() -> Seq<char> {
    seq!['.', 'm', 'd']
}

/// The path of the document whose file name is `slug`.
pub open spec fn document_path_of(slug: Seq<char>) -> Seq<char> {
    output_prefix() + slug + markdown_suffix()
}

/// The slug that names the document of the page at `url`.
pub open spec fn page_slug(url: Seq<char>) -> Seq<char> {
    slug_of(url, seq![], seq!['-'], MAX_SLUG_LEN as nat)
}

fn push_all(out: &mut Vec<char>, cs: &Vec<char>)
    ensures
        final(out)@ == old(out)@ + cs@,
{
    let ghost start = out@;
    let mut i: usize = 0;
    while i < cs.len()
        invariant
            i <= cs.len(),
            out@ == start + cs@.take(i as int),
        decreases cs.len() - i,
    {
        out.push(cs[i]);
        assert(cs@.take(i + 1) =~= cs@.take(i as int).push(cs@[i as int]));
        i = i + 1;
    }
    assert(cs@.take(i as int) =~= cs@);
}

/// The path, under the output directory, of the document named by `slug`.
pub fn document_path(slug: &str) -> (r: String)
    ensures
        r@ == document_path_of(slug@),
{
    let mut all: Vec<char> = vec!['o', 'u', 't', 'p', 'u', 't', '/'];
    assert(all@ =~= output_prefix());
    let body = crate::text::chars_of(slug);
    push_all(&mut all, &body);
    let suffix = vec!['.', 'm', 'd'];
    assert(suffix@ =~= markdown_suffix());
    push_all(&mut all, &suffix);
    crate::text::string_of(&all, 0, all.len())
}

/// The path of the document of the page at `url`: the URL's slug, at most
/// `MAX_SLUG_LEN` characters of `a-z`, `0-9` and `-` (so never a `/`), as a
/// `.md` file directly inside the output directory.
pub fn page_path(url: &str) -> (r: String)
    ensures
        r@ == document_path_of(page_slug(url@)),
        page_slug(url@).len() <= MAX_SLUG_LEN,
        forall|i: int| 0 <= i < page_slug(url@).len() ==> is_slug_char(#[trigger] page_slug(url@)[i], '-'),
{
    proof {
        reveal_strlit("");
        reveal_strlit("-");
        assert(""@ =~= Seq::<char>::empty());
        assert("-"@ =~= seq!['-']);
    }
    let slug = slugify_text(url, "", "-", MAX_SLUG_LEN);
    document_path(slug.as_str())
}

} // verus!

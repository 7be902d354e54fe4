//! Markdown as HTML.
use vstd::prelude::*;

verus! {

/// The HTML that `pulldown_cmark::html::push_html` makes of what
/// `pulldown_cmark::Parser` reads in a Markdown text with tables.
pub uninterp spec fn markdown_html(md: Seq<char>) -> Seq<char>;

/// Markdown as HTML: `pulldown_cmark::Parser::new_ext` with
/// `Options::ENABLE_TABLES` reads the text, and `pulldown_cmark::html::push_html`
/// writes what was read. The result is a function of the text alone.
#[verifier::external_body]
pub(crate) fn markdown_to_html(md: &str) -> (r: String)
    ensures
        r@ == markdown_html(md@),
{
    let parser = pulldown_cmark::Parser::new_ext(md, pulldown_cmark::Options::ENABLE_TABLES);
    let mut html = String::new();
    pulldown_cmark::html::push_html(&mut html, parser);
    html
}

} // verus!

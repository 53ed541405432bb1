//! The links of a fetched page: which anchors of the document count as
//! links to content pages of the site, and what their identifiers are.
//!
//! Reading the anchors out of the HTML is left to the `scraper` crate; which
//! of them count, and how they become identifiers, is decided here.

use vstd::prelude::*;
use vstd::string::StringExecFns;
use crate::text::{has_char, starts_with, texts};

verus! {

/// The `href` attributes of the `a` elements that the `scraper` crate finds
/// in the HTML document `body`, in the order in which it yields the
/// elements; `None` for an element that has no such attribute.
pub uninterp spec fn anchor_hrefs(body: Seq<char>) -> Seq<Option<Seq<char>>>;

/// A list of attribute values, read as texts.
pub open spec fn href_texts(hrefs: Seq<Option<String>>) -> Seq<Option<Seq<char>>> {
    hrefs.map_values(
        |href: Option<String>|
            match href {
                Some(text) => Some(text@),
                None => None,
            },
    )
}

/// Parses `body` with `scraper::Html::parse_document`, walks the elements
/// that `Html::select` yields for the selector `scraper::Selector::parse("a")`,
/// and reads the `href` of each with `Element::attr`. Parsing a document
/// does not fail, and what is read depends on the document alone; the
/// contract gives that result its name and claims nothing else of it.
#[verifier::external_body]
fn document_anchors(body: &str) -> (hrefs: Vec<Option<String>>)
    ensures
        href_texts(hrefs@) == anchor_hrefs(body@),
{
    let document = scraper::Html::parse_document(body);
    match scraper::Selector::parse("a") {
        Ok(anchors) => document.select(&anchors).map(
            |node| node.value().attr("href").map(|href| href.to_string()),
        ).collect(),
        Err(_) => Vec::new(),
    }
}

/// `href` points at a content page of the site: it is a site-relative path
/// under `/wiki/` and holds no colon, which would mark a namespaced page.
pub open spec fn is_content_href(href: Seq<char>) -> bool {
    "/wiki/"@.is_prefix_of(href) && !href.contains(':')
}

/// The identifiers that `hrefs` give rise to, in order: each content href,
/// made absolute by putting `prefix` in front of it.
pub open spec fn links_of(hrefs: Seq<Option<Seq<char>>>, prefix: Seq<char>) -> Seq<Seq<char>>
    decreases hrefs.len(),
{
    if hrefs.len() == 0 {
        Seq::empty()
    } else {
        let before = links_of(hrefs.drop_last(), prefix);
        match hrefs.last() {
            Some(href) => if is_content_href(href) {
                before.push(prefix + href)
            } else {
                before
            },
            None => before,
        }
    }
}

/// Whether `href` points at a content page of the site.
pub fn content_href(href: &str) -> (content: bool)
    ensures
        content == is_content_href(href@),
{
    starts_with(href, "/wiki/") && !has_char(href, ':')
}

/// The identifiers of the content pages that `hrefs` point at, in order,
/// each made absolute with `prefix`.
pub fn links_from_hrefs(hrefs: &Vec<Option<String>>, prefix: &str) -> (links: Vec<String>)
    ensures
        texts(links@) == links_of(href_texts(hrefs@), prefix@),
{
    let mut links: Vec<String> = Vec::new();
    let mut i: usize = 0;
    while i < hrefs.len()
        invariant
            i <= hrefs.len(),
            texts(links@) == links_of(href_texts(hrefs@).take(i as int), prefix@),
        decreases hrefs.len() - i,
    {
        let ghost seen = href_texts(hrefs@).take(i as int);
        let ghost had = texts(links@);
        proof {
            let next = href_texts(hrefs@).take(i + 1);
            assert(next.drop_last() =~= seen);
            assert(next.last() == href_texts(hrefs@)[i as int]);
        }
        match &hrefs[i] {
            Some(href) => {
                if content_href(href.as_str()) {
                    links.push(prefix.to_owned().concat(href.as_str()));
                    assert(texts(links@) =~= had.push(prefix@ + href@));
                }
            },
            None => {},
        }
        i = i + 1;
    }
    assert(href_texts(hrefs@).take(i as int) =~= href_texts(hrefs@));
    links
}

/// The identifiers of the content pages that the anchors of the HTML
/// document `body` point at, in the order in which the anchors are read,
/// each made absolute with `prefix`.
pub fn page_links(body: &str, prefix: &str) -> (links: Vec<String>)
    ensures
        texts(links@) == links_of(anchor_hrefs(body@), prefix@),
{
    let hrefs = document_anchors(body);
    links_from_hrefs(&hrefs, prefix)
}

} // verus!

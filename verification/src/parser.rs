//! Rendering of an entry as a fragment of HTML.

use vstd::prelude::*;
use vstd::string::StringExecFns;
use crate::entry::{Entry, EntryView};
use crate::text::{join, joined, or_empty, text_or_empty};

verus! {

/// Something that can be shown to the reader as HTML.
pub trait Parser {
    /// The HTML text that `into_html` writes.
    spec fn html(&self) -> Seq<char>;

    /// Writes the value as a fragment of HTML.
    fn into_html(&self) -> (r: String)
        ensures
            r@ == self.html(),
    ;
}

/// The publication time that is shown for an entry that carries none.
pub open spec fn unknown_time() -> Seq<char> {
    "1970-01-01 00:00:00 UTC"@
}

/// The body as it is shown: nothing where it only repeats the summary.
pub open spec fn shown_body(e: EntryView) -> Seq<char> {
    if text_or_empty(e.content) == text_or_empty(e.summary) {
        Seq::empty()
    } else {
        text_or_empty(e.content)
    }
}

/// The link that closes the fragment, where the entry has a canonical link.
pub open spec fn link_html(e: EntryView) -> Seq<char> {
    if e.links.len() > 0 {
        "<a  class=\"feed-item-link\" href='"@ + e.links[0] + "'>Read more</a>"@
    } else {
        Seq::empty()
    }
}

/// The fragment for an entry: title, time of publication, authors,
/// categories, summary, body, and the canonical link where there is one.
pub open spec fn entry_html(e: EntryView) -> Seq<char> {
    "<h1 class=\"feed-item-title\">"@ + text_or_empty(e.title) + "</h1>"@ + "<p>"@ + (
    match e.published {
        Some(t) => t,
        None => unknown_time(),
    }) + "</p>"@ + "<p class=\"feed-item-summary\">"@ + joined(e.authors, ", "@) + "</p>"@
        + "<p class=\"feed-item-summary\">"@ + joined(e.categories, ", "@) + "</p>"@
        + "<p class=\"feed-item-summary\">"@ + text_or_empty(e.summary) + "</p>"@
        + "<p class=\"feed-item-content\">"@ + shown_body(e) + "</p>"@ + link_html(e)
}

impl Parser for Entry {
    open spec fn html(&self) -> Seq<char> {
        entry_html(self@)
    }

    fn into_html(&self) -> (r: String) {
        let summary = or_empty(&self.summary);
        let mut content = or_empty(&self.content);
        if content == summary {
            content = String::new();
        }
        assert(content@ =~= shown_body(self@));
        let mut html = String::new();
        html.append("<h1 class=\"feed-item-title\">");
        html.append(or_empty(&self.title).as_str());
        html.append("</h1>");
        html.append("<p>");
        match &self.published {
            Some(t) => html.append(t.as_str()),
            None => html.append("1970-01-01 00:00:00 UTC"),
        }
        html.append("</p>");
        html.append("<p class=\"feed-item-summary\">");
        html.append(join(&self.authors, ", ").as_str());
        html.append("</p>");
        html.append("<p class=\"feed-item-summary\">");
        html.append(join(&self.categories, ", ").as_str());
        html.append("</p>");
        html.append("<p class=\"feed-item-summary\">");
        html.append(summary.as_str());
        html.append("</p>");
        html.append("<p class=\"feed-item-content\">");
        html.append(content.as_str());
        html.append("</p>");
        if self.links.len() > 0 {
            html.append("<a  class=\"feed-item-link\" href='");
            html.append(self.links[0].as_str());
            html.append("'>Read more</a>");
            assert(self@.links[0] == self.links[0]@);
        }
        assert(html@ =~= entry_html(self@));
        html
    }
}

} // verus!

//! Normalising MIME types to the closed set of content types that a document
//! can be reported with, and choosing the parser for a MIME type.

use vstd::prelude::*;
use vstd::string::*;

use crate::text::{
    ascii_lowercase,
    lowercase,
    str_eq,
    str_to_ascii_lowercase,
    str_to_lowercase,
    trim,
    trimmed,
};

verus! {

/// Which of the two parsers reads a document.
#[derive(Clone, Copy, Debug, PartialEq, Eq, Hash, Structural)]
pub enum Syntax {
    Html,
    Xml,
}

/// The parser that reads a document and the content type it is reported with.
#[derive(Clone, Copy, Debug)]
pub struct ParsePlan {
    pub syntax: Syntax,
    pub content_type: &'static str,
}

/// The content type that a lowercase, trimmed MIME label stands for. Labels
/// that are not known stand for `application/xml`.
pub open spec fn mime_of_label(label: Seq<char>) -> Seq<char> {
    if label == "text/html"@ || label == "text/html4"@ || label == "text/html5"@ {
        "text/html"@
    } else if label == "text/xhtml"@ || label == "application/xhtml"@ || label
        == "application/xhtml+xml"@ {
        "application/xhtml+xml"@
    } else if label == "image/svg"@ || label == "image/svg+xml"@ || label
        == "application/svg+xml"@ {
        "image/svg+xml"@
    } else {
        "application/xml"@
    }
}

/// The content type that free-form text stands for: the text is trimmed, then
/// lowercased, then read as a label.
pub open spec fn mime_of_text(m: Seq<char>) -> Seq<char> {
    mime_of_label(lowercase(trimmed(m)))
}

/// Whether free-form text names one of the two HTML content types.
pub open spec fn is_html_text(m: Seq<char>) -> bool {
    mime_of_text(m) == "text/html"@ || mime_of_text(m) == "application/xhtml+xml"@
}

/// What a caller-supplied MIME type looks like once it has been trimmed and
/// its ASCII letters folded: the form in which it reaches the normaliser.
pub open spec fn folded(mime: Seq<char>) -> Seq<char> {
    ascii_lowercase(trimmed(mime))
}

/// The plan for a document of the given MIME type. HTML and XHTML types are
/// read by the HTML parser and reported as `text/html`; every other type is
/// read by the XML parser and reported under its normalised content type.
pub open spec fn plan_of(mime: Seq<char>) -> (Syntax, Seq<char>) {
    if is_html_text(folded(mime)) {
        (Syntax::Html, "text/html"@)
    } else {
        (Syntax::Xml, mime_of_text(folded(mime)))
    }
}

/// Reads a label that is already lowercase and trimmed.
pub fn mime_from_label(label: &str) -> (r: &'static str)
    ensures
        r@ == mime_of_label(label@),
{
    if str_eq(label, "text/html") || str_eq(label, "text/html4") || str_eq(label, "text/html5") {
        "text/html"
    } else if str_eq(label, "text/xhtml") || str_eq(label, "application/xhtml") || str_eq(
        label,
        "application/xhtml+xml",
    ) {
        "application/xhtml+xml"
    } else if str_eq(label, "image/svg") || str_eq(label, "image/svg+xml") || str_eq(
        label,
        "application/svg+xml",
    ) {
        "image/svg+xml"
    } else {
        "application/xml"
    }
}

/// Normalises a MIME type, ignoring case and surrounding whitespace.
pub fn normalized_mime(m: &str) -> (r: &'static str)
    ensures
        r@ == mime_of_text(m@),
{
    let lowered = str_to_lowercase(trim(m));
    mime_from_label(lowered.as_str())
}

/// Whether a MIME type normalises to `text/html` or `application/xhtml+xml`.
pub fn is_html_mime(m: &str) -> (r: bool)
    ensures
        r == is_html_text(m@),
{
    let normalized = normalized_mime(m);
    str_eq(normalized, "text/html") || str_eq(normalized, "application/xhtml+xml")
}

/// The content type assumed when none is given.
pub fn default_mime_type() -> (r: String)
    ensures
        r@ == "application/xml"@,
{
    "application/xml".to_owned()
}

/// A caller-supplied MIME type with surrounding whitespace removed and its
/// ASCII letters in lowercase.
pub fn fold_mime(mime: &str) -> (r: String)
    ensures
        r@ == folded(mime@),
{
    str_to_ascii_lowercase(trim(mime))
}

/// The content type under which an XML-like document is reported.
pub fn xml_content_type(mime: &str) -> (r: &'static str)
    ensures
        r@ == mime_of_text(folded(mime@)),
{
    let lowered = fold_mime(mime);
    normalized_mime(lowered.as_str())
}

/// Chooses the parser and the reported content type for a MIME type.
pub fn plan_document(mime: &str) -> (plan: ParsePlan)
    ensures
        (plan.syntax, plan.content_type@) == plan_of(mime@),
{
    let lowered = fold_mime(mime);
    if is_html_mime(lowered.as_str()) {
        ParsePlan { syntax: Syntax::Html, content_type: "text/html" }
    } else {
        ParsePlan { syntax: Syntax::Xml, content_type: normalized_mime(lowered.as_str()) }
    }
}

/// Whatever the input, the normalised content type is one of the four known
/// ones.
pub proof fn lemma_mime_closed(label: Seq<char>)
    ensures
        mime_of_label(label) == "text/html"@ || mime_of_label(label) == "application/xhtml+xml"@
            || mime_of_label(label) == "image/svg+xml"@ || mime_of_label(label)
            == "application/xml"@,
{
}

/// Normalising is idempotent on labels: a normalised content type is its own
/// label.
pub proof fn lemma_mime_idempotent(label: Seq<char>)
    ensures
        mime_of_label(mime_of_label(label)) == mime_of_label(label),
{
    reveal_strlit("text/html");
    reveal_strlit("text/html4");
    reveal_strlit("text/html5");
    reveal_strlit("text/xhtml");
    reveal_strlit("application/xhtml");
    reveal_strlit("application/xhtml+xml");
    reveal_strlit("image/svg");
    reveal_strlit("image/svg+xml");
    reveal_strlit("application/svg+xml");
    reveal_strlit("application/xml");
    let m = mime_of_label(label);
    if m == "application/xml"@ {
        assert("application/xml"@.len() == 15);
        assert("application/xml"@[0] == 'a');
        assert("application/xml"@[1] == 'p');
    } else if m == "image/svg+xml"@ {
        assert("image/svg+xml"@.len() == 13);
        assert("image/svg+xml"@[9] == '+');
    } else if m == "application/xhtml+xml"@ {
        assert("application/xhtml+xml"@.len() == 21);
        assert("application/xhtml+xml"@[0] == 'a');
    }
}

} // verus!

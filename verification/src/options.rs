//! What a caller can ask of a parse.

use vstd::prelude::*;
use vstd::string::*;

use crate::mime::default_mime_type;
use crate::quirks_mode::QuirksMode;

verus! {

/// Options for parsing a document.
///
/// | Option              | Default               | Meaning                              |
/// |---------------------|-----------------------|--------------------------------------|
/// | `exact_errors`      | `true`                | Report parse errors precisely.       |
/// | `scripting_enabled` | `true`                | Parse as if scripting were enabled.  |
/// | `iframe_srcdoc`     | `false`               | The input is an iframe's `srcdoc`.   |
/// | `drop_doctype`      | `false`               | Leave the doctype out of the tree.   |
/// | `quirks_mode`       | `NoQuirks`            | The quirks mode to start in.         |
/// | `content_type`      | `application/xml`     | Which kind of document is parsed.    |
#[derive(Debug, Clone)]
pub struct ParseOptions {
    pub exact_errors: bool,
    pub scripting_enabled: bool,
    pub iframe_srcdoc: bool,
    pub drop_doctype: bool,
    pub quirks_mode: QuirksMode,
    pub content_type: Option<String>,
}

impl Default for ParseOptions {
    fn default() -> (r: ParseOptions)
        ensures
            r.exact_errors,
            r.scripting_enabled,
            !r.iframe_srcdoc,
            !r.drop_doctype,
            r.quirks_mode == QuirksMode::NoQuirks,
            r.content_type matches Some(content_type) && content_type@ == "application/xml"@,
    {
        ParseOptions {
            exact_errors: true,
            scripting_enabled: true,
            iframe_srcdoc: false,
            drop_doctype: false,
            quirks_mode: QuirksMode::NoQuirks,
            content_type: Some(default_mime_type()),
        }
    }
}

/// Options for parsing a fragment: those for a document, and the name of the
/// element in whose context the fragment is parsed.
#[derive(Debug, Clone)]
pub struct FragmentParseOptions {
    pub base: ParseOptions,
    pub context_element: String,
}

impl Default for FragmentParseOptions {
    /// The defaults of a document, except that the doctype is dropped; the
    /// context element is `div`.
    fn default() -> (r: FragmentParseOptions)
        ensures
            r.base.exact_errors,
            r.base.scripting_enabled,
            !r.base.iframe_srcdoc,
            r.base.drop_doctype,
            r.base.quirks_mode == QuirksMode::NoQuirks,
            r.base.content_type matches Some(content_type) && content_type@ == "application/xml"@,
            r.context_element@ == "div"@,
    {
        let mut base = ParseOptions::default();
        base.drop_doctype = true;
        base.iframe_srcdoc = false;
        FragmentParseOptions { base, context_element: "div".to_owned() }
    }
}

} // verus!

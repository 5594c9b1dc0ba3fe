use dawm::options::{FragmentParseOptions, ParseOptions};
use dawm::QuirksMode;

#[test]
fn document_options_have_their_defaults() {
    let options = ParseOptions::default();
    assert!(options.exact_errors);
    assert!(options.scripting_enabled);
    assert!(!options.iframe_srcdoc);
    assert!(!options.drop_doctype);
    assert_eq!(options.quirks_mode, QuirksMode::NoQuirks);
    assert_eq!(options.content_type.as_deref(), Some("application/xml"));
}

#[test]
fn fragment_options_drop_the_doctype() {
    let options = FragmentParseOptions::default();
    assert!(options.base.exact_errors);
    assert!(options.base.scripting_enabled);
    assert!(!options.base.iframe_srcdoc);
    assert!(options.base.drop_doctype);
    assert_eq!(options.base.quirks_mode, QuirksMode::NoQuirks);
    assert_eq!(options.base.content_type.as_deref(), Some("application/xml"));
    assert_eq!(options.context_element, "div");
}

use dawm::Interner;

#[test]
fn interning_twice_returns_the_same_id() {
    let mut interner = Interner::default();
    let hello = interner.intern("hello");
    let world = interner.intern("world");
    let hello_again = interner.intern("hello");
    assert_eq!(hello, hello_again);
    assert_ne!(hello, world);
    assert_eq!(interner.get(hello as usize), "hello");
    assert_eq!(interner.get(world as usize), "world");
}

#[test]
fn ids_are_equal_exactly_for_equal_strings() {
    let words = ["a", "b", "", "ab", "a", "B", "b", "html", "ab"];
    let mut interner = Interner::new();
    let ids: Vec<u32> = words.iter().map(|w| interner.intern(w)).collect();
    for i in 0..words.len() {
        for j in 0..words.len() {
            assert_eq!(ids[i] == ids[j], words[i] == words[j]);
        }
    }
    assert_eq!(ids, vec![0, 1, 2, 3, 0, 4, 1, 5, 3]);
    assert_eq!(interner.into_strings(), vec!["a", "b", "", "ab", "B", "html"]);
}

#[test]
fn new_interner_is_empty() {
    let mut interner = Interner::new();
    assert_eq!(interner.len(), 0);
    assert_eq!(interner.intern("x"), 0);
    assert_eq!(interner.intern(""), 1);
    assert_eq!(interner.len(), 2);
}

#[test]
fn default_seed_starts_with_the_empty_string() {
    let mut interner = Interner::default();
    assert_eq!(interner.len(), 24);
    assert_eq!(interner.get(0), "");
    assert_eq!(interner.intern(""), 0);
    assert_eq!(interner.intern("html"), 1);
    assert_eq!(interner.intern("value"), 23);
    assert_eq!(interner.len(), 24);
    assert_eq!(interner.intern("article"), 24);
    assert_eq!(interner.len(), 25);
}

#[test]
fn default_seed_has_fixed_ids() {
    let seed = [
        "", "html", "head", "body", "div", "span", "script", "style", "a", "img", "meta", "link",
        "rel", "class", "id", "hidden", "disabled", "content", "type", "href", "src", "title",
        "alt", "value",
    ];
    let mut interner = Interner::new_default_seed();
    interner.intern("unrelated");
    for (i, word) in seed.iter().enumerate() {
        assert_eq!(interner.intern(word) as usize, i);
    }
    assert_eq!(interner.len(), 25);
}

#[test]
fn extended_seed_follows_the_default_seed() {
    let mut interner = Interner::new_extended_seed();
    assert_eq!(interner.len(), 44);
    assert_eq!(interner.get(0), "");
    assert_eq!(interner.get(23), "value");
    assert_eq!(interner.get(24), "xmlns");
    assert_eq!(interner.intern("http://www.w3.org/1999/xhtml"), 26);
    assert_eq!(interner.intern("http://www.w3.org/1998/Math/MathML"), 31);
    assert_eq!(interner.intern("aria-describedby"), 43);
    assert_eq!(interner.intern("new"), 44);
}

#[test]
fn seed_and_extend_keep_duplicates() {
    let mut interner = Interner::seed(&["x", "y", "x"]);
    assert_eq!(interner.len(), 3);
    assert_eq!(interner.intern("x"), 0);
    assert_eq!(interner.intern("y"), 1);
    let mut interner = interner.extend(&["y", "z"]);
    assert_eq!(interner.len(), 5);
    assert_eq!(interner.intern("y"), 1);
    assert_eq!(interner.intern("z"), 4);
    assert_eq!(interner.into_strings(), vec!["x", "y", "x", "y", "z"]);
}

#[test]
fn try_intern_returns_the_id() {
    let mut interner = Interner::new();
    assert_eq!(interner.try_intern("a"), Some(0));
    assert_eq!(interner.try_intern("b"), Some(1));
    assert_eq!(interner.try_intern("a"), Some(0));
    assert_eq!(interner.len(), 2);
}

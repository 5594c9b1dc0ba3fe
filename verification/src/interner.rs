//! A string interner: a table of strings in which the position of a string
//! is its permanent id.
//!
//! Strings are handed out as small integers. Interning a string that the
//! table already holds returns the position at which it first occurs;
//! interning a new string appends it and returns its position. Positions are
//! never reused or reassigned, so an id stays valid for as long as the
//! interner lives.

use vstd::prelude::*;
use vstd::string::*;

use crate::text::str_eq;

verus! {

/// The characters of each string of a sequence.
pub open spec fn string_views(strings: Seq<String>) -> Seq<Seq<char>> {
    strings.map_values(|s: String| s@)
}

/// The characters of each string slice of a sequence.
pub open spec fn str_views(strings: Seq<&str>) -> Seq<Seq<char>> {
    strings.map_values(|s: &str| s@)
}

/// The first position at which `s` occurs in `table`, or the length of the
/// table when it does not occur: in both cases the id that interning `s`
/// returns.
pub open spec fn position(table: Seq<Seq<char>>, s: Seq<char>) -> nat
    decreases table.len(),
{
    if table.len() == 0 {
        0
    } else if table[0] == s {
        0
    } else {
        1 + position(table.drop_first(), s)
    }
}

/// The table after `s` has been interned.
pub open spec fn interned(table: Seq<Seq<char>>, s: Seq<char>) -> Seq<Seq<char>> {
    if position(table, s) < table.len() {
        table
    } else {
        table.push(s)
    }
}

/// The table after each of `strings` has been interned, in order.
pub open spec fn interned_all(table: Seq<Seq<char>>, strings: Seq<Seq<char>>) -> Seq<Seq<char>>
    decreases strings.len(),
{
    if strings.len() == 0 {
        table
    } else {
        interned_all(interned(table, strings[0]), strings.drop_first())
    }
}

/// The vocabulary that a default interner starts with.
pub open spec fn default_seed() -> Seq<Seq<char>> {
    seq![
        ""@,
        "html"@,
        "head"@,
        "body"@,
        "div"@,
        "span"@,
        "script"@,
        "style"@,
        "a"@,
        "img"@,
        "meta"@,
        "link"@,
        "rel"@,
        "class"@,
        "id"@,
        "hidden"@,
        "disabled"@,
        "content"@,
        "type"@,
        "href"@,
        "src"@,
        "title"@,
        "alt"@,
        "value"@,
    ]
}

/// What the extended vocabulary adds to the default one.
pub open spec fn extended_seed_tail() -> Seq<Seq<char>> {
    seq![
        "xmlns"@,
        "xlink"@,
        "http://www.w3.org/1999/xhtml"@,
        "http://www.w3.org/2000/svg"@,
        "http://www.w3.org/1999/xlink"@,
        "http://www.w3.org/XML/1998/namespace"@,
        "http://www.w3.org/2000/xmlns/"@,
        "http://www.w3.org/1998/Math/MathML"@,
        "svg"@,
        "xml"@,
        "align"@,
        "lang"@,
        "for"@,
        "width"@,
        "height"@,
        "role"@,
        "aria-hidden"@,
        "aria-label"@,
        "aria-labelledby"@,
        "aria-describedby"@,
    ]
}

/// The vocabulary that an extended interner starts with.
pub open spec fn extended_seed() -> Seq<Seq<char>> {
    default_seed() + extended_seed_tail()
}

/// `position` is the least index at which the string occurs, and the length
/// of the table exactly when the string does not occur.
pub proof fn lemma_position(table: Seq<Seq<char>>, s: Seq<char>)
    ensures
        position(table, s) <= table.len(),
        position(table, s) < table.len() ==> table[position(table, s) as int] == s,
        forall|j: int| 0 <= j < position(table, s) ==> table[j] != s,
        position(table, s) < table.len() <==> table.contains(s),
    decreases table.len(),
{
    if table.len() > 0 && table[0] != s {
        let rest = table.drop_first();
        lemma_position(rest, s);
        assert forall|j: int| 0 <= j < position(table, s) implies table[j] != s by {
            if j > 0 {
                assert(table[j] == rest[j - 1]);
            }
        }
        if position(rest, s) < rest.len() {
            assert(table[position(table, s) as int] == rest[position(rest, s) as int]);
        }
        if table.contains(s) {
            let j = choose|j: int| 0 <= j < table.len() && table[j] == s;
            assert(rest[j - 1] == s);
        }
    }
}

/// An index before which the string does not occur, and at which it occurs
/// or the table ends, is the string's position.
pub proof fn lemma_position_is(table: Seq<Seq<char>>, s: Seq<char>, i: nat)
    requires
        i <= table.len(),
        forall|j: int| 0 <= j < i ==> table[j] != s,
        i == table.len() || table[i as int] == s,
    ensures
        position(table, s) == i,
{
    lemma_position(table, s);
    let p = position(table, s);
    if p < i {
        assert(table[p as int] == s);
    }
}

/// Interning keeps every entry of the table in place, and afterwards the
/// string stands at the id that was returned.
pub proof fn lemma_interned(table: Seq<Seq<char>>, s: Seq<char>)
    ensures
        table.len() <= interned(table, s).len() <= table.len() + 1,
        forall|j: int| 0 <= j < table.len() ==> interned(table, s)[j] == table[j],
        position(table, s) < interned(table, s).len(),
        interned(table, s)[position(table, s) as int] == s,
        position(interned(table, s), s) == position(table, s),
{
    lemma_position(table, s);
    lemma_position_is(interned(table, s), s, position(table, s));
}

/// Interning one string does not move another: a string that the table holds
/// keeps its id.
pub proof fn lemma_interned_keeps(table: Seq<Seq<char>>, s: Seq<char>, other: Seq<char>)
    requires
        table.contains(s),
    ensures
        position(interned(table, other), s) == position(table, s),
        interned(table, other).contains(s),
{
    lemma_position(table, s);
    lemma_interned(table, other);
    lemma_position_is(interned(table, other), s, position(table, s));
    lemma_position(interned(table, other), s);
}

/// Interning a run of strings only appends: the old table is a prefix of the
/// new one.
pub proof fn lemma_interned_all_extends(table: Seq<Seq<char>>, strings: Seq<Seq<char>>)
    ensures
        table.len() <= interned_all(table, strings).len(),
        forall|j: int| 0 <= j < table.len() ==> interned_all(table, strings)[j] == table[j],
    decreases strings.len(),
{
    if strings.len() > 0 {
        lemma_interned(table, strings[0]);
        lemma_interned_all_extends(interned(table, strings[0]), strings.drop_first());
    }
}

/// A string that the table holds keeps its id whatever is interned later.
pub proof fn lemma_interned_all_keeps(
    table: Seq<Seq<char>>,
    strings: Seq<Seq<char>>,
    s: Seq<char>,
)
    requires
        table.contains(s),
    ensures
        position(interned_all(table, strings), s) == position(table, s),
        interned_all(table, strings).contains(s),
    decreases strings.len(),
{
    if strings.len() > 0 {
        lemma_interned_keeps(table, s, strings[0]);
        lemma_interned_all_keeps(interned(table, strings[0]), strings.drop_first(), s);
    }
}

/// Every string of a run is in the table once the run has been interned.
pub proof fn lemma_interned_all_holds(table: Seq<Seq<char>>, strings: Seq<Seq<char>>, i: int)
    requires
        0 <= i < strings.len(),
    ensures
        interned_all(table, strings).contains(strings[i]),
    decreases strings.len(),
{
    let next = interned(table, strings[0]);
    let rest = strings.drop_first();
    if i == 0 {
        lemma_interned(table, strings[0]);
        assert(next[position(table, strings[0]) as int] == strings[0]);
        lemma_interned_all_keeps(next, rest, strings[0]);
    } else {
        assert(rest[i - 1] == strings[i]);
        lemma_interned_all_holds(next, rest, i - 1);
    }
}

/// Interning two runs one after the other is interning their concatenation.
pub proof fn lemma_interned_all_concat(
    table: Seq<Seq<char>>,
    first: Seq<Seq<char>>,
    second: Seq<Seq<char>>,
)
    ensures
        interned_all(table, first + second) == interned_all(interned_all(table, first), second),
    decreases first.len(),
{
    if first.len() == 0 {
        assert(first + second =~= second);
    } else {
        assert((first + second)[0] == first[0]);
        assert((first + second).drop_first() =~= first.drop_first() + second);
        lemma_interned_all_concat(interned(table, first[0]), first.drop_first(), second);
    }
}

/// A table without duplicates stays without duplicates when a string is
/// interned.
pub proof fn lemma_interned_unique(table: Seq<Seq<char>>, s: Seq<char>)
    requires
        table.no_duplicates(),
    ensures
        interned(table, s).no_duplicates(),
{
    lemma_position(table, s);
}

/// A table without duplicates stays without duplicates whatever is
/// interned.
pub proof fn lemma_interned_all_unique(table: Seq<Seq<char>>, strings: Seq<Seq<char>>)
    requires
        table.no_duplicates(),
    ensures
        interned_all(table, strings).no_duplicates(),
    decreases strings.len(),
{
    if strings.len() > 0 {
        lemma_interned_unique(table, strings[0]);
        lemma_interned_all_unique(interned(table, strings[0]), strings.drop_first());
    }
}

/// Interning `a` and then `b` returns the same id for both exactly when they
/// are the same string.
pub proof fn lemma_intern_injective(table: Seq<Seq<char>>, a: Seq<char>, b: Seq<char>)
    ensures
        position(table, a) == position(interned(table, a), b) <==> a == b,
{
    let after = interned(table, a);
    lemma_interned(table, a);
    lemma_position(after, b);
    if a == b {
    } else if position(after, b) < after.len() {
        assert(after[position(after, b) as int] == b);
    }
}

/// Interning a string again, after any run of other strings has been
/// interned, returns the id it was first given.
pub proof fn lemma_intern_stable(table: Seq<Seq<char>>, s: Seq<char>, later: Seq<Seq<char>>)
    ensures
        position(interned_all(interned(table, s), later), s) == position(table, s),
{
    lemma_interned(table, s);
    lemma_position(interned(table, s), s);
    lemma_interned_all_keeps(interned(table, s), later, s);
}

/// The default vocabulary starts with the empty string and holds no string
/// twice.
pub proof fn lemma_default_seed_unique()
    ensures
        default_seed().len() == 24,
        default_seed()[0] == Seq::<char>::empty(),
        default_seed().no_duplicates(),
{
    reveal_strlit("");
    reveal_strlit("html");
    reveal_strlit("head");
    reveal_strlit("body");
    reveal_strlit("div");
    reveal_strlit("span");
    reveal_strlit("script");
    reveal_strlit("style");
    reveal_strlit("a");
    reveal_strlit("img");
    reveal_strlit("meta");
    reveal_strlit("link");
    reveal_strlit("rel");
    reveal_strlit("class");
    reveal_strlit("id");
    reveal_strlit("hidden");
    reveal_strlit("disabled");
    reveal_strlit("content");
    reveal_strlit("type");
    reveal_strlit("href");
    reveal_strlit("src");
    reveal_strlit("title");
    reveal_strlit("alt");
    reveal_strlit("value");
    let seed = default_seed();
    assert(seed[0] =~= Seq::<char>::empty());
    assert forall|i: int, j: int| 0 <= i < j < seed.len() implies seed[i] != seed[j] by {
        assert(seed[i].len() != seed[j].len() || seed[i][0] != seed[j][0] || seed[i][1]
            != seed[j][1] || seed[i][2] != seed[j][2]);
    }
}

/// Interning a string of the default vocabulary into any table that starts
/// with that vocabulary returns the string's fixed index there and leaves the
/// table as it is.
pub proof fn lemma_default_seed_fixed(table: Seq<Seq<char>>, i: int)
    requires
        table.len() >= default_seed().len(),
        table.take(default_seed().len() as int) == default_seed(),
        0 <= i < default_seed().len(),
    ensures
        position(table, default_seed()[i]) == i,
        interned(table, default_seed()[i]) == table,
{
    lemma_default_seed_unique();
    let seed = default_seed();
    assert forall|j: int| 0 <= j < seed.len() implies table[j] == seed[j] by {
        assert(table.take(seed.len() as int)[j] == table[j]);
    }
    lemma_position_is(table, seed[i], i as nat);
}

/// A deduplicating table of strings.
#[derive(Debug, Clone, PartialEq, Eq, Hash)]
pub struct Interner {
    table: Vec<String>,
}

impl View for Interner {
    type V = Seq<Seq<char>>;

    /// The table: the string with id `i` is at index `i`.
    closed spec fn view(&self) -> Seq<Seq<char>> {
        string_views(self.table@)
    }
}

impl Interner {
    /// An interner with an empty table.
    pub fn new() -> (r: Self)
        ensures
            r@ == Seq::<Seq<char>>::empty(),
    {
        let r = Interner { table: Vec::new() };
        assert(r@ =~= Seq::<Seq<char>>::empty());
        r
    }

    /// An interner whose table holds `strings`, in order and as given: a
    /// string that is listed twice is stored twice, and interning it returns
    /// its first index.
    pub fn seed(strings: &[&str]) -> (r: Self)
        ensures
            r@ == str_views(strings@),
    {
        let r = Interner::new().extend(strings);
        assert(r@ =~= str_views(strings@));
        r
    }

    /// An interner seeded with the common vocabulary of HTML documents.
    pub fn new_default_seed() -> (r: Self)
        ensures
            r@ == default_seed(),
    {
        let seed = [
            "",
            "html",
            "head",
            "body",
            "div",
            "span",
            "script",
            "style",
            "a",
            "img",
            "meta",
            "link",
            "rel",
            "class",
            "id",
            "hidden",
            "disabled",
            "content",
            "type",
            "href",
            "src",
            "title",
            "alt",
            "value",
        ];
        let r = Interner::seed(seed.as_slice());
        assert(r@ =~= default_seed());
        r
    }

    /// An interner seeded with the default vocabulary followed by common
    /// namespace URIs and further attribute names.
    pub fn new_extended_seed() -> (r: Self)
        ensures
            r@ == extended_seed(),
    {
        let tail = [
            "xmlns",
            "xlink",
            "http://www.w3.org/1999/xhtml",
            "http://www.w3.org/2000/svg",
            "http://www.w3.org/1999/xlink",
            "http://www.w3.org/XML/1998/namespace",
            "http://www.w3.org/2000/xmlns/",
            "http://www.w3.org/1998/Math/MathML",
            "svg",
            "xml",
            "align",
            "lang",
            "for",
            "width",
            "height",
            "role",
            "aria-hidden",
            "aria-label",
            "aria-labelledby",
            "aria-describedby",
        ];
        let r = Interner::new_default_seed().extend(tail.as_slice());
        assert(str_views(tail@) =~= extended_seed_tail());
        r
    }

    /// Appends `strings` to the table, in order and without looking for
    /// duplicates.
    pub fn extend(self, strings: &[&str]) -> (r: Self)
        ensures
            r@ == self@ + str_views(strings@),
    {
        let mut table = self.table;
        let mut i: usize = 0;
        while i < strings.len()
            invariant
                i <= strings.len(),
                string_views(table@) == self@ + str_views(strings@.take(i as int)),
            decreases strings.len() - i,
        {
            let ghost before = table@;
            table.push(strings[i].to_owned());
            i += 1;
            proof {
                let taken = strings@.take(i as int);
                assert(taken.drop_last() =~= strings@.take(i - 1));
                assert(string_views(table@) =~= string_views(before).push(strings@[i - 1]@));
                assert(string_views(table@) =~= self@ + str_views(taken));
            }
        }
        assert(strings@.take(i as int) =~= strings@);
        Interner { table }
    }

    /// The table, by value.
    pub fn into_strings(self) -> (r: Vec<String>)
        ensures
            string_views(r@) == self@,
    {
        self.table
    }

    /// The number of strings in the table.
    pub fn len(&self) -> (r: usize)
        ensures
            r == self@.len(),
    {
        self.table.len()
    }

    /// The string with the given id.
    pub fn get(&self, id: usize) -> (r: &str)
        requires
            id < self@.len(),
        ensures
            r@ == self@[id as int],
    {
        self.table[id].as_str()
    }

    /// Interns `s` if its id fits in 32 bits.
    ///
    /// Returns the id of `s`: the first index at which the table holds it,
    /// or, if the table does not hold it, the index at which it is appended.
    /// Returns `None`, and leaves the table as it is, exactly when that id
    /// is above `u32::MAX`.
    pub fn try_intern(&mut self, s: &str) -> (r: Option<u32>)
        ensures
            r is Some <==> position(old(self)@, s@) <= u32::MAX,
            r matches Some(id) ==> id == position(old(self)@, s@) && final(self)@ == interned(
                old(self)@,
                s@,
            ),
            r is None ==> final(self)@ == old(self)@,
    {
        let mut i: usize = 0;
        while i < self.table.len()
            invariant
                i <= self.table.len(),
                self.table == old(self).table,
                forall|j: int| 0 <= j < i ==> self@[j] != s@,
            ensures
                i <= self.table.len(),
                self.table == old(self).table,
                forall|j: int| 0 <= j < i ==> self@[j] != s@,
                i == self.table.len() || self@[i as int] == s@,
            decreases self.table.len() - i,
        {
            if str_eq(self.table[i].as_str(), s) {
                break ;
            }
            i += 1;
        }
        proof {
            lemma_position_is(self@, s@, i as nat);
        }
        if i > u32::MAX as usize {
            return None;
        }
        if i == self.table.len() {
            self.table.push(s.to_owned());
            assert(self@ =~= old(self)@.push(s@));
        }
        Some(i as u32)
    }

    /// Interns `s` and returns its id.
    ///
    /// The id is the first index at which the table holds `s`; a string that
    /// the table does not hold is appended, and its id is its index. The id
    /// must fit in 32 bits.
    pub fn intern(&mut self, s: &str) -> (id: u32)
        requires
            position(old(self)@, s@) <= u32::MAX,
        ensures
            id == position(old(self)@, s@),
            final(self)@ == interned(old(self)@, s@),
    {
        match self.try_intern(s) {
            Some(id) => id,
            None => vstd::pervasive::unreached(),
        }
    }
}

impl Default for Interner {
    fn default() -> (r: Self)
        ensures
            r@ == default_seed(),
    {
        Interner::new_default_seed()
    }
}

} // verus!

//! Which words are identifiers: a letter class test on each character, the
//! raw `r#` form, and the words that are reserved.
use vstd::prelude::*;
use crate::directive::contains_name;

verus! {

/// Whether `c` has the Unicode `XID_Start` property.
pub uninterp spec fn xid_start(c: char) -> bool;

/// Whether `c` has the Unicode `XID_Continue` property.
pub uninterp spec fn xid_continue(c: char) -> bool;

pub open spec fn is_ascii_letter(c: char) -> bool {
    ('a' as u32 <= c as u32 <= 'z' as u32) || ('A' as u32 <= c as u32 <= 'Z' as u32)
}

pub open spec fn is_ascii_digit(c: char) -> bool {
    '0' as u32 <= c as u32 <= '9' as u32
}

/// Relies on `unicode_ident::is_xid_start`: a lookup of one character in the
/// crate's fixed `XID_Start` table; below 128 that is the ASCII letters.
#[verifier::external_body]
fn char_is_xid_start(c: char) -> (r: bool)
    ensures
        r == xid_start(c),
        (c as u32) < 128 ==> (r <==> is_ascii_letter(c)),
{
    unicode_ident::is_xid_start(c)
}

/// Relies on `unicode_ident::is_xid_continue`: a lookup of one character in the
/// crate's fixed `XID_Continue` table; below 128 that is the ASCII letters,
/// digits and `_`.
#[verifier::external_body]
fn char_is_xid_continue(c: char) -> (r: bool)
    ensures
        r == xid_continue(c),
        (c as u32) < 128 ==> (r <==> (is_ascii_letter(c) || is_ascii_digit(c) || c == '_')),
{
    unicode_ident::is_xid_continue(c)
}

/// An identifier's shape: `_` or an `XID_Start` character, then `XID_Continue` characters.
pub open spec fn ident_shape(w: Seq<char>) -> bool {
    &&& w.len() > 0
    &&& (w[0] == '_' || xid_start(w[0]))
    &&& forall|k: int| 1 <= k < w.len() ==> xid_continue(#[trigger] w[k])
}

/// The words that cannot be identifiers.
pub open spec fn reserved() -> Seq<Seq<char>> {
    seq![
        "_"@, "abstract"@, "as"@, "async"@, "await"@, "become"@, "box"@, "break"@,
        "const"@, "continue"@, "crate"@, "do"@, "dyn"@, "else"@, "enum"@,
        "extern"@, "false"@, "final"@, "fn"@, "for"@, "if"@, "impl"@, "in"@,
        "let"@, "loop"@, "macro"@, "match"@, "mod"@, "move"@, "mut"@,
        "override"@, "priv"@, "pub"@, "ref"@, "return"@, "Self"@, "self"@,
        "static"@, "struct"@, "super"@, "trait"@, "true"@, "try"@, "type"@,
        "typeof"@, "unsafe"@, "unsized"@, "use"@, "virtual"@, "where"@,
        "while"@, "yield"@,
    ]
}

/// The words that cannot follow `r#`.
pub open spec fn not_raw() -> Seq<Seq<char>> {
    seq!["_"@, "super"@, "self"@, "Self"@, "crate"@]
}

pub open spec fn is_raw(w: Seq<char>) -> bool {
    w.len() >= 2 && w[0] == 'r' && w[1] == '#'
}

/// Whether a word is an identifier: `r#` before a name that may be raw, or a
/// name of identifier shape that is not reserved.
pub open spec fn is_ident(w: Seq<char>) -> bool {
    if is_raw(w) {
        ident_shape(w.skip(2)) && !not_raw().contains(w.skip(2))
    } else {
        ident_shape(w) && !reserved().contains(w)
    }
}

fn reserved_words() -> (r: Vec<String>)
    ensures
        r.deep_view() == reserved(),
{
    let r = vec![
        String::from_str("_"), String::from_str("abstract"), String::from_str("as"),
        String::from_str("async"), String::from_str("await"), String::from_str("become"),
        String::from_str("box"), String::from_str("break"), String::from_str("const"),
        String::from_str("continue"), String::from_str("crate"), String::from_str("do"),
        String::from_str("dyn"), String::from_str("else"), String::from_str("enum"),
        String::from_str("extern"), String::from_str("false"), String::from_str("final"),
        String::from_str("fn"), String::from_str("for"), String::from_str("if"),
        String::from_str("impl"), String::from_str("in"), String::from_str("let"),
        String::from_str("loop"), String::from_str("macro"), String::from_str("match"),
        String::from_str("mod"), String::from_str("move"), String::from_str("mut"),
        String::from_str("override"), String::from_str("priv"), String::from_str("pub"),
        String::from_str("ref"), String::from_str("return"), String::from_str("Self"),
        String::from_str("self"), String::from_str("static"), String::from_str("struct"),
        String::from_str("super"), String::from_str("trait"), String::from_str("true"),
        String::from_str("try"), String::from_str("type"), String::from_str("typeof"),
        String::from_str("unsafe"), String::from_str("unsized"), String::from_str("use"),
        String::from_str("virtual"), String::from_str("where"), String::from_str("while"),
        String::from_str("yield"),
    ];
    assert(r.deep_view() =~= reserved());
    r
}

fn not_raw_words() -> (r: Vec<String>)
    ensures
        r.deep_view() == not_raw(),
{
    let r = vec![
        String::from_str("_"), String::from_str("super"), String::from_str("self"),
        String::from_str("Self"), String::from_str("crate"),
    ];
    assert(r.deep_view() =~= not_raw());
    r
}

fn has_ident_shape(w: &str) -> (r: bool)
    ensures
        r == ident_shape(w@),
{
    let n = w.unicode_len();
    if n == 0 {
        return false;
    }
    let c = w.get_char(0);
    if !(c == '_' || char_is_xid_start(c)) {
        return false;
    }
    let mut i: usize = 1;
    while i < n
        invariant
            n == w@.len(),
            1 <= i <= n,
            forall|k: int| 1 <= k < i ==> xid_continue(#[trigger] w@[k]),
        decreases n - i,
    {
        if !char_is_xid_continue(w.get_char(i)) {
            return false;
        }
        i = i + 1;
    }
    true
}

/// Whether a word is an identifier.
pub fn word_is_ident(w: &str) -> (r: bool)
    ensures
        r == is_ident(w@),
{
    let n = w.unicode_len();
    if n >= 2 && w.get_char(0) == 'r' && w.get_char(1) == '#' {
        let rest = w.substring_char(2, n);
        assert(rest@ =~= w@.skip(2));
        if !has_ident_shape(rest) {
            return false;
        }
        !contains_name(&not_raw_words(), &String::from_str(rest))
    } else {
        if !has_ident_shape(w) {
            return false;
        }
        !contains_name(&reserved_words(), &String::from_str(w))
    }
}

} // verus!

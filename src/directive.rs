//! The rewrite directive: which observer to call, and which names it observes.
use vstd::prelude::*;
use crate::ident::{is_ident, word_is_ident};

verus! {

/// One of the four fields of a directive, in their fixed order.
#[derive(Clone, Copy, Debug, PartialEq, Eq, Structural)]
pub enum Field {
    Context,
    Propose,
    Register,
    Request,
}

/// Why a directive was refused.
#[derive(Clone, Copy, Debug, PartialEq, Eq, Structural)]
pub enum ConfigError {
    /// The text ended where the field's label was due.
    MissingField(Field),
    /// The field's label was due and another token stands there.
    UnexpectedLabel(Field),
    /// The field's label is not followed by `=`.
    ExpectedEquals(Field),
    /// The observer reference is not an identifier.
    InvalidObserver,
    /// The field's value is not a bracketed, comma-separated list of identifiers.
    MalformedList(Field),
    /// The field is not followed by the comma that separates it from the next.
    ExpectedComma(Field),
    /// Something follows the last field.
    TrailingInput,
}

/// The parsed configuration of one instrumented function.
#[derive(Debug, PartialEq, Eq)]
pub struct RewriteDirective {
    /// The observer instance that generated calls go to.
    pub observer: String,
    /// Names whose declarations and assignments are reported.
    pub propose: Vec<String>,
    /// Names whose reads are reported with their type.
    pub register: Vec<String>,
    /// Names whose reads the observer may replace.
    pub request: Vec<String>,
}

/// The model of a directive.
pub struct DirectiveM {
    pub observer: Seq<char>,
    pub propose: Seq<Seq<char>>,
    pub register: Seq<Seq<char>>,
    pub request: Seq<Seq<char>>,
}

impl View for RewriteDirective {
    type V = DirectiveM;

    open spec fn view(&self) -> DirectiveM {
        DirectiveM {
            observer: self.observer@,
            propose: self.propose.deep_view(),
            register: self.register.deep_view(),
            request: self.request.deep_view(),
        }
    }
}

/// Whether `name` is one of `names`.
pub fn contains_name(names: &Vec<String>, name: &String) -> (r: bool)
    ensures
        r == names.deep_view().contains(name@),
{
    let mut i: usize = 0;
    while i < names.len()
        invariant
            i <= names.len(),
            forall|j: int| 0 <= j < i ==> names.deep_view()[j] != name@,
        decreases names.len() - i,
    {
        if names[i] == *name {
            assert(names.deep_view()[i as int] == name@);
            return true;
        }
        i = i + 1;
    }
    false
}

/// A token of directive text.
#[derive(Debug, PartialEq, Eq)]
pub enum Token {
    /// A maximal run of characters that are neither white space nor punctuation.
    Word(String),
    Equals,
    Comma,
    Open,
    Close,
}

/// The model of a token.
pub enum TokenM {
    Word(Seq<char>),
    Equals,
    Comma,
    Open,
    Close,
}

impl View for Token {
    type V = TokenM;

    open spec fn view(&self) -> TokenM {
        match self {
            Token::Word(w) => TokenM::Word(w@),
            Token::Equals => TokenM::Equals,
            Token::Comma => TokenM::Comma,
            Token::Open => TokenM::Open,
            Token::Close => TokenM::Close,
        }
    }
}


pub open spec fn is_space(c: char) -> bool {
    c == ' ' || c == '\t' || c == '\n' || c == '\r'
}

pub open spec fn is_punct(c: char) -> bool {
    c == '=' || c == ',' || c == '[' || c == ']'
}

pub open spec fn is_word_char(c: char) -> bool {
    !is_space(c) && !is_punct(c)
}

pub open spec fn punct_token(c: char) -> TokenM {
    if c == '=' {
        TokenM::Equals
    } else if c == ',' {
        TokenM::Comma
    } else if c == '[' {
        TokenM::Open
    } else {
        TokenM::Close
    }
}

/// The number of word characters that `s` starts with.
pub open spec fn word_len(s: Seq<char>) -> nat
    decreases s.len(),
{
    if s.len() > 0 && is_word_char(s[0]) {
        1 + word_len(s.drop_first())
    } else {
        0
    }
}

/// The tokens of a text: white space separates, each punctuation character is
/// a token, and each maximal run of other characters is a word.
pub open spec fn lex(s: Seq<char>) -> Seq<TokenM>
    decreases s.len(),
    via lex_decreases
{
    if s.len() == 0 {
        Seq::empty()
    } else if is_space(s[0]) {
        lex(s.drop_first())
    } else if is_punct(s[0]) {
        seq![punct_token(s[0])] + lex(s.drop_first())
    } else {
        let n = word_len(s);
        seq![TokenM::Word(s.take(n as int))] + lex(s.skip(n as int))
    }
}

pub proof fn lemma_word_len(s: Seq<char>)
    ensures
        word_len(s) <= s.len(),
        s.len() > 0 && is_word_char(s[0]) ==> word_len(s) >= 1,
        forall|k: int| 0 <= k < word_len(s) ==> is_word_char(#[trigger] s[k]),
        word_len(s) < s.len() ==> !is_word_char(s[word_len(s) as int]),
    decreases s.len(),
{
    if s.len() > 0 && is_word_char(s[0]) {
        lemma_word_len(s.drop_first());
        assert forall|k: int| 0 <= k < word_len(s) implies is_word_char(#[trigger] s[k]) by {
            if k > 0 {
                assert(s[k] == s.drop_first()[k - 1]);
            }
        }
    }
}

#[via_fn]
proof fn lex_decreases(s: Seq<char>) {
    lemma_word_len(s);
}

pub open spec fn label(f: Field) -> Seq<char> {
    match f {
        Field::Context => "context"@,
        Field::Propose => "propose"@,
        Field::Register => "register"@,
        Field::Request => "request"@,
    }
}

/// Whether a token is a word that is an identifier.
pub open spec fn ident_word(t: TokenM) -> bool {
    t matches TokenM::Word(w) && is_ident(w)
}

pub open spec fn is_token(ts: Seq<TokenM>, i: int, t: TokenM) -> bool {
    0 <= i < ts.len() && ts[i] == t
}

/// The error in the `label =` that must stand at `i`, if any.
pub open spec fn head_error(ts: Seq<TokenM>, i: int, f: Field) -> Option<ConfigError> {
    if i >= ts.len() {
        Some(ConfigError::MissingField(f))
    } else if ts[i] != TokenM::Word(label(f)) {
        Some(ConfigError::UnexpectedLabel(f))
    } else if !is_token(ts, i + 1, TokenM::Equals) {
        Some(ConfigError::ExpectedEquals(f))
    } else {
        None
    }
}

/// The items of a list whose `[` came just before `i`, and the position after its `]`.
pub open spec fn list_items(ts: Seq<TokenM>, i: int) -> Option<(Seq<Seq<char>>, int)>
    decreases ts.len() - i,
{
    if i < 0 || i >= ts.len() {
        None
    } else if ts[i] == TokenM::Close {
        Some((Seq::empty(), i + 1))
    } else if ident_word(ts[i]) {
        let w = ts[i]->Word_0;
        if is_token(ts, i + 1, TokenM::Close) {
            Some((seq![w], i + 2))
        } else if is_token(ts, i + 1, TokenM::Comma) {
            match list_items(ts, i + 2) {
                Some((rest, j)) => Some((seq![w] + rest, j)),
                None => None,
            }
        } else {
            None
        }
    } else {
        None
    }
}

/// The field `f = [items]` at `i`: its items and the position after it.
pub open spec fn list_field(ts: Seq<TokenM>, i: int, f: Field) -> Result<(Seq<Seq<char>>, int), ConfigError> {
    match head_error(ts, i, f) {
        Some(e) => Err(e),
        None => if is_token(ts, i + 2, TokenM::Open) {
            match list_items(ts, i + 3) {
                Some(r) => Ok(r),
                None => Err(ConfigError::MalformedList(f)),
            }
        } else {
            Err(ConfigError::MalformedList(f))
        },
    }
}

/// The comma after field `f`, at `i`, before the field `next`.
pub open spec fn separator_error(ts: Seq<TokenM>, i: int, f: Field, next: Field) -> Option<ConfigError> {
    if i >= ts.len() {
        Some(ConfigError::MissingField(next))
    } else if ts[i] != TokenM::Comma {
        Some(ConfigError::ExpectedComma(f))
    } else {
        None
    }
}

/// The observer reference of `context = observer,`, which must open the tokens.
pub open spec fn context_field(ts: Seq<TokenM>) -> Result<Seq<char>, ConfigError> {
    match head_error(ts, 0, Field::Context) {
        Some(e) => Err(e),
        None => if 2 < ts.len() && ident_word(ts[2]) {
            match separator_error(ts, 3, Field::Context, Field::Propose) {
                Some(e) => Err(e),
                None => Ok(ts[2]->Word_0),
            }
        } else {
            Err(ConfigError::InvalidObserver)
        },
    }
}

/// The directive that a sequence of tokens spells, or the first error in it.
pub open spec fn parse_tokens(ts: Seq<TokenM>) -> Result<DirectiveM, ConfigError> {
    match context_field(ts) {
        Err(e) => Err(e),
        Ok(observer) => match list_field(ts, 4, Field::Propose) {
            Err(e) => Err(e),
            Ok((propose, i)) => match separator_error(ts, i, Field::Propose, Field::Register) {
                Some(e) => Err(e),
                None => match list_field(ts, i + 1, Field::Register) {
                    Err(e) => Err(e),
                    Ok((register, j)) => match separator_error(ts, j, Field::Register, Field::Request) {
                        Some(e) => Err(e),
                        None => match list_field(ts, j + 1, Field::Request) {
                            Err(e) => Err(e),
                            Ok((request, k)) => if k < ts.len() {
                                Err(ConfigError::TrailingInput)
                            } else {
                                Ok(DirectiveM { observer, propose, register, request })
                            },
                        },
                    },
                },
            },
        },
    }
}

/// The directive that a text spells, or the first error in it.
pub open spec fn parse_text(s: Seq<char>) -> Result<DirectiveM, ConfigError> {
    parse_tokens(lex(s))
}

pub open spec fn tokens_model(ts: Seq<Token>) -> Seq<TokenM> {
    ts.map_values(|t: Token| t@)
}

fn char_is_space(c: char) -> (r: bool)
    ensures
        r == is_space(c),
{
    c == ' ' || c == '\t' || c == '\n' || c == '\r'
}

fn char_is_punct(c: char) -> (r: bool)
    ensures
        r == is_punct(c),
{
    c == '=' || c == ',' || c == '[' || c == ']'
}

/// Splits directive text into tokens.
pub fn tokenize(text: &str) -> (r: Vec<Token>)
    ensures
        tokens_model(r@) == lex(text@),
{
    let n = text.unicode_len();
    let ghost s = text@;
    let mut out: Vec<Token> = Vec::new();
    let mut i: usize = 0;
    assert(s.subrange(0, n as int) =~= s);
    assert(tokens_model(out@) + lex(s) =~= lex(s));
    while i < n
        invariant
            n == s.len(),
            s == text@,
            i <= n,
            lex(s) == tokens_model(out@) + lex(s.subrange(i as int, n as int)),
        decreases n - i,
    {
        let ghost rest = s.subrange(i as int, n as int);
        let c = text.get_char(i);
        assert(rest[0] == c);
        if char_is_space(c) {
            assert(rest.drop_first() =~= s.subrange(i + 1, n as int));
            i = i + 1;
        } else if char_is_punct(c) {
            let t = if c == '=' {
                Token::Equals
            } else if c == ',' {
                Token::Comma
            } else if c == '[' {
                Token::Open
            } else {
                Token::Close
            };
            assert(t@ == punct_token(c));
            assert(rest.drop_first() =~= s.subrange(i + 1, n as int));
            let ghost before = out@;
            out.push(t);
            assert(tokens_model(out@) =~= tokens_model(before) + seq![t@]);
            assert(tokens_model(before) + (seq![t@] + lex(rest.drop_first())) =~= tokens_model(out@)
                + lex(rest.drop_first()));
            i = i + 1;
        } else {
            let mut j: usize = i + 1;
            while j < n && !char_is_space(text.get_char(j)) && !char_is_punct(text.get_char(j))
                invariant
                    n == s.len(),
                    s == text@,
                    i < j <= n,
                    is_word_char(s[i as int]),
                    forall|k: int| i <= k < j ==> is_word_char(#[trigger] s[k]),
                decreases n - j,
            {
                j = j + 1;
            }
            proof {
                lemma_word_len(rest);
                let m = word_len(rest) as int;
                if m < j - i {
                    assert(rest[m] == s[i + m]);
                }
                if m > j - i {
                    assert(rest[j - i] == s[j as int]);
                }
                assert(m == j - i);
                assert(rest.take(m) =~= s.subrange(i as int, j as int));
                assert(rest.skip(m) =~= s.subrange(j as int, n as int));
            }
            let w = String::from_str(text.substring_char(i, j));
            let t = Token::Word(w);
            let ghost before = out@;
            out.push(t);
            assert(tokens_model(out@) =~= tokens_model(before) + seq![t@]);
            assert(tokens_model(before) + (seq![t@] + lex(s.subrange(j as int, n as int))) =~= tokens_model(out@)
                + lex(s.subrange(j as int, n as int)));
            i = j;
        }
    }
    assert(lex(s.subrange(n as int, n as int)) =~= Seq::<TokenM>::empty());
    assert(tokens_model(out@) + Seq::<TokenM>::empty() =~= tokens_model(out@));
    out
}

fn label_text(f: Field) -> (r: String)
    ensures
        r@ == label(f),
{
    match f {
        Field::Context => String::from_str("context"),
        Field::Propose => String::from_str("propose"),
        Field::Register => String::from_str("register"),
        Field::Request => String::from_str("request"),
    }
}

fn token_is(ts: &Vec<Token>, i: usize, t: &Token) -> (r: bool)
    ensures
        r == is_token(tokens_model(ts@), i as int, t@),
{
    if i >= ts.len() {
        return false;
    }
    match (&ts[i], t) {
        (Token::Word(a), Token::Word(b)) => *a == *b,
        (Token::Equals, Token::Equals) => true,
        (Token::Comma, Token::Comma) => true,
        (Token::Open, Token::Open) => true,
        (Token::Close, Token::Close) => true,
        _ => false,
    }
}

/// The identifier at `i`, if a word that is an identifier stands there.
fn ident_at(ts: &Vec<Token>, i: usize) -> (r: Option<String>)
    requires
        i < ts.len(),
    ensures
        match r {
            Some(w) => ident_word(tokens_model(ts@)[i as int]) && w@ == tokens_model(ts@)[i as int]->Word_0,
            None => !ident_word(tokens_model(ts@)[i as int]),
        },
{
    match &ts[i] {
        Token::Word(w) => {
            if word_is_ident(w.as_str()) {
                Some(w.clone())
            } else {
                None
            }
        },
        _ => None,
    }
}

fn head(ts: &Vec<Token>, i: usize, f: Field) -> (r: Option<ConfigError>)
    ensures
        r == head_error(tokens_model(ts@), i as int, f),
{
    if i >= ts.len() {
        Some(ConfigError::MissingField(f))
    } else if !token_is(ts, i, &Token::Word(label_text(f))) {
        Some(ConfigError::UnexpectedLabel(f))
    } else if !token_is(ts, i + 1, &Token::Equals) {
        Some(ConfigError::ExpectedEquals(f))
    } else {
        None
    }
}

fn separator(ts: &Vec<Token>, i: usize, f: Field, next: Field) -> (r: Option<ConfigError>)
    ensures
        r == separator_error(tokens_model(ts@), i as int, f, next),
{
    if i >= ts.len() {
        Some(ConfigError::MissingField(next))
    } else if !token_is(ts, i, &Token::Comma) {
        Some(ConfigError::ExpectedComma(f))
    } else {
        None
    }
}

fn items(ts: &Vec<Token>, i: usize) -> (r: Option<(Vec<String>, usize)>)
    requires
        i <= ts.len(),
    ensures
        match list_items(tokens_model(ts@), i as int) {
            Some((names, j)) => r matches Some((v, k)) && v.deep_view() == names && k == j && k <= ts.len(),
            None => r is None,
        },
    decreases ts.len() - i,
{
    let ghost m = tokens_model(ts@);
    if i >= ts.len() {
        return None;
    }
    if token_is(ts, i, &Token::Close) {
        let v: Vec<String> = Vec::new();
        assert(v.deep_view() =~= Seq::<Seq<char>>::empty());
        return Some((v, i + 1));
    }
    match ident_at(ts, i) {
        None => None,
        Some(w) => {
            if token_is(ts, i + 1, &Token::Close) {
                let mut v: Vec<String> = Vec::new();
                v.push(w);
                assert(v.deep_view() =~= seq![m[i as int]->Word_0]);
                Some((v, i + 2))
            } else if token_is(ts, i + 1, &Token::Comma) {
                match items(ts, i + 2) {
                    None => None,
                    Some((rest, j)) => {
                        let ghost tail = rest.deep_view();
                        let mut v = rest;
                        v.insert(0, w);
                        assert(v.deep_view() =~= seq![m[i as int]->Word_0] + tail);
                        Some((v, j))
                    },
                }
            } else {
                None
            }
        },
    }
}

fn list(ts: &Vec<Token>, i: usize, f: Field) -> (r: Result<(Vec<String>, usize), ConfigError>)
    requires
        i <= ts.len(),
    ensures
        match list_field(tokens_model(ts@), i as int, f) {
            Ok((names, j)) => r matches Ok((v, k)) && v.deep_view() == names && k == j && k <= ts.len(),
            Err(e) => r == Err::<(Vec<String>, usize), ConfigError>(e),
        },
{
    match head(ts, i, f) {
        Some(e) => Err(e),
        None => {
            if token_is(ts, i + 2, &Token::Open) {
                match items(ts, i + 3) {
                    Some(r) => Ok(r),
                    None => Err(ConfigError::MalformedList(f)),
                }
            } else {
                Err(ConfigError::MalformedList(f))
            }
        },
    }
}

impl RewriteDirective {
    /// Parses directive text:
    /// `context = observer, propose = [..], register = [..], request = [..]`.
    pub fn parse(text: &str) -> (r: Result<RewriteDirective, ConfigError>)
        ensures
            match parse_text(text@) {
                Ok(d) => r matches Ok(v) && v@ == d,
                Err(e) => r == Err::<RewriteDirective, ConfigError>(e),
            },
    {
        let ts = tokenize(text);
        let ghost m = tokens_model(ts@);
        if let Some(e) = head(&ts, 0, Field::Context) {
            return Err(e);
        }
        let observer = if 2 < ts.len() {
            match ident_at(&ts, 2) {
                Some(w) => w,
                None => return Err(ConfigError::InvalidObserver),
            }
        } else {
            return Err(ConfigError::InvalidObserver);
        };
        if let Some(e) = separator(&ts, 3, Field::Context, Field::Propose) {
            return Err(e);
        }
        let (propose, i) = match list(&ts, 4, Field::Propose) {
            Ok(r) => r,
            Err(e) => return Err(e),
        };
        if let Some(e) = separator(&ts, i, Field::Propose, Field::Register) {
            return Err(e);
        }
        let (register, j) = match list(&ts, i + 1, Field::Register) {
            Ok(r) => r,
            Err(e) => return Err(e),
        };
        if let Some(e) = separator(&ts, j, Field::Register, Field::Request) {
            return Err(e);
        }
        let (request, k) = match list(&ts, j + 1, Field::Request) {
            Ok(r) => r,
            Err(e) => return Err(e),
        };
        if k < ts.len() {
            return Err(ConfigError::TrailingInput);
        }
        Ok(RewriteDirective { observer, propose, register, request })
    }
}

/// The tokens of a list's items: the names, separated by commas.
pub open spec fn item_tokens(ns: Seq<Seq<char>>) -> Seq<TokenM>
    decreases ns.len(),
{
    if ns.len() == 0 {
        Seq::empty()
    } else if ns.len() == 1 {
        seq![TokenM::Word(ns[0])]
    } else {
        item_tokens(ns.drop_last()) + seq![TokenM::Comma, TokenM::Word(ns.last())]
    }
}

/// The tokens of the field `f = [ns]`.
pub open spec fn field_tokens(f: Field, ns: Seq<Seq<char>>) -> Seq<TokenM> {
    seq![TokenM::Word(label(f)), TokenM::Equals, TokenM::Open] + item_tokens(ns) + seq![TokenM::Close]
}

/// The tokens that spell a directive.
pub open spec fn directive_tokens(d: DirectiveM) -> Seq<TokenM> {
    seq![TokenM::Word(label(Field::Context)), TokenM::Equals, TokenM::Word(d.observer), TokenM::Comma]
        + field_tokens(Field::Propose, d.propose) + seq![TokenM::Comma] + field_tokens(
        Field::Register,
        d.register,
    ) + seq![TokenM::Comma] + field_tokens(Field::Request, d.request)
}

pub open spec fn token_text(t: TokenM) -> Seq<char> {
    match t {
        TokenM::Word(w) => w,
        TokenM::Equals => seq!['='],
        TokenM::Comma => seq![','],
        TokenM::Open => seq!['['],
        TokenM::Close => seq![']'],
    }
}

/// Tokens as text, each followed by one space.
pub open spec fn render_tokens(ts: Seq<TokenM>) -> Seq<char>
    decreases ts.len(),
{
    if ts.len() == 0 {
        Seq::empty()
    } else {
        token_text(ts[0]) + seq![' '] + render_tokens(ts.drop_first())
    }
}

/// The text of a directive.
pub open spec fn render_text(d: DirectiveM) -> Seq<char> {
    render_tokens(directive_tokens(d))
}

fn push_items(out: &mut Vec<Token>, names: &Vec<String>)
    ensures
        tokens_model(final(out)@) == tokens_model(old(out)@) + item_tokens(names.deep_view()),
{
    let ghost start = tokens_model(out@);
    let ghost ns = names.deep_view();
    let mut i: usize = 0;
    assert(ns.take(0) =~= Seq::<Seq<char>>::empty());
    assert(start + item_tokens(ns.take(0)) =~= start);
    while i < names.len()
        invariant
            ns == names.deep_view(),
            i <= names.len(),
            tokens_model(out@) == start + item_tokens(ns.take(i as int)),
        decreases names.len() - i,
    {
        let ghost before = tokens_model(out@);
        assert(ns.take(i + 1).drop_last() =~= ns.take(i as int));
        if i > 0 {
            out.push(Token::Comma);
        }
        out.push(Token::Word(names[i].clone()));
        if i == 0 {
            assert(tokens_model(out@) =~= before + seq![TokenM::Word(ns[0])]);
            assert(item_tokens(ns.take(1)) =~= seq![TokenM::Word(ns[0])]);
            assert(start + seq![TokenM::Word(ns[0])] =~= tokens_model(out@));
        } else {
            assert(tokens_model(out@) =~= before + seq![TokenM::Comma, TokenM::Word(ns[i as int])]);
        }
        i = i + 1;
    }
    assert(ns.take(names.len() as int) =~= ns);
}

fn push_field(out: &mut Vec<Token>, f: Field, names: &Vec<String>)
    ensures
        tokens_model(final(out)@) == tokens_model(old(out)@) + field_tokens(f, names.deep_view()),
{
    let ghost start = tokens_model(out@);
    out.push(Token::Word(label_text(f)));
    out.push(Token::Equals);
    out.push(Token::Open);
    assert(tokens_model(out@) =~= start + seq![TokenM::Word(label(f)), TokenM::Equals, TokenM::Open]);
    push_items(out, names);
    let ghost mid = tokens_model(out@);
    out.push(Token::Close);
    assert(tokens_model(out@) =~= mid + seq![TokenM::Close]);
    assert(tokens_model(out@) =~= start + field_tokens(f, names.deep_view()));
}

impl RewriteDirective {
    /// The tokens that spell this directive.
    pub fn tokens(&self) -> (r: Vec<Token>)
        ensures
            tokens_model(r@) == directive_tokens(self@),
    {
        let mut out: Vec<Token> = Vec::new();
        out.push(Token::Word(label_text(Field::Context)));
        out.push(Token::Equals);
        out.push(Token::Word(self.observer.clone()));
        out.push(Token::Comma);
        let ghost a = tokens_model(out@);
        assert(a =~= seq![TokenM::Word(label(Field::Context)), TokenM::Equals, TokenM::Word(self.observer@), TokenM::Comma]);
        push_field(&mut out, Field::Propose, &self.propose);
        let ghost b = tokens_model(out@);
        out.push(Token::Comma);
        assert(tokens_model(out@) =~= b + seq![TokenM::Comma]);
        push_field(&mut out, Field::Register, &self.register);
        let ghost c = tokens_model(out@);
        out.push(Token::Comma);
        assert(tokens_model(out@) =~= c + seq![TokenM::Comma]);
        push_field(&mut out, Field::Request, &self.request);
        assert(tokens_model(out@) =~= directive_tokens(self@));
        out
    }

    /// The directive as text, which parses back to an equal directive.
    pub fn render(&self) -> (r: String)
        ensures
            r@ == render_text(self@),
    {
        let ts = self.tokens();
        let ghost m = tokens_model(ts@);
        let mut out = String::new();
        let mut i: usize = 0;
        assert(m.take(0) =~= Seq::<TokenM>::empty());
        while i < ts.len()
            invariant
                m == tokens_model(ts@),
                i <= ts.len(),
                out@ == render_tokens(m.take(i as int)),
            decreases ts.len() - i,
        {
            let piece = match &ts[i] {
                Token::Word(w) => w.as_str(),
                Token::Equals => "=",
                Token::Comma => ",",
                Token::Open => "[",
                Token::Close => "]",
            };
            proof {
                reveal_strlit("=");
                reveal_strlit(",");
                reveal_strlit("[");
                reveal_strlit("]");
                reveal_strlit(" ");
            }
            assert(piece@ =~= token_text(m[i as int]));
            let ghost before = out@;
            out.append(piece);
            out.append(" ");
            proof {
                assert(m.take(i + 1) =~= m.take(i as int) + seq![m[i as int]]);
                lemma_render_concat(m.take(i as int), seq![m[i as int]]);
                assert(seq![m[i as int]].drop_first() =~= Seq::<TokenM>::empty());
                reveal_with_fuel(render_tokens, 2);
                assert(render_tokens(seq![m[i as int]]) =~= token_text(m[i as int]) + seq![' ']);
                assert(out@ =~= before + (token_text(m[i as int]) + seq![' ']));
            }
            i = i + 1;
        }
        assert(m.take(ts.len() as int) =~= m);
        out
    }
}

/// Rendering distributes over concatenation.
pub proof fn lemma_render_concat(a: Seq<TokenM>, b: Seq<TokenM>)
    ensures
        render_tokens(a + b) == render_tokens(a) + render_tokens(b),
    decreases a.len(),
{
    if a.len() == 0 {
        assert(a + b =~= b);
        assert(render_tokens(a) + render_tokens(b) =~= render_tokens(b));
    } else {
        lemma_render_concat(a.drop_first(), b);
        assert((a + b).drop_first() =~= a.drop_first() + b);
        assert(render_tokens(a + b) =~= render_tokens(a) + render_tokens(b));
    }
}

/// A word as the lexer makes it: not empty, and only of word characters.
pub open spec fn word_ok(w: Seq<char>) -> bool {
    w.len() > 0 && forall|k: int| 0 <= k < w.len() ==> is_word_char(#[trigger] w[k])
}

pub open spec fn words_ok(ts: Seq<TokenM>) -> bool {
    forall|i: int| 0 <= i < ts.len() && (#[trigger] ts[i] is Word) ==> word_ok(ts[i]->Word_0)
}

/// A name that renders and lexes back as itself, and that the parser accepts.
pub open spec fn name_ok(w: Seq<char>) -> bool {
    word_ok(w) && is_ident(w)
}

pub open spec fn names_ok(ns: Seq<Seq<char>>) -> bool {
    forall|k: int| 0 <= k < ns.len() ==> name_ok(#[trigger] ns[k])
}

pub open spec fn directive_ok(d: DirectiveM) -> bool {
    name_ok(d.observer) && names_ok(d.propose) && names_ok(d.register) && names_ok(d.request)
}

proof fn lemma_words_ok_concat(a: Seq<TokenM>, b: Seq<TokenM>)
    requires
        words_ok(a),
        words_ok(b),
    ensures
        words_ok(a + b),
{
    assert forall|i: int| 0 <= i < (a + b).len() && (#[trigger] (a + b)[i] is Word) implies word_ok(
        (a + b)[i]->Word_0,
    ) by {
        if i < a.len() {
            assert((a + b)[i] == a[i]);
        } else {
            assert((a + b)[i] == b[i - a.len()]);
        }
    }
}

/// Every word that the lexer makes is well formed.
proof fn lemma_lex_words(s: Seq<char>)
    ensures
        words_ok(lex(s)),
    decreases s.len(),
{
    if s.len() == 0 {
    } else if is_space(s[0]) {
        lemma_lex_words(s.drop_first());
    } else if is_punct(s[0]) {
        lemma_lex_words(s.drop_first());
        lemma_words_ok_concat(seq![punct_token(s[0])], lex(s.drop_first()));
    } else {
        let n = word_len(s);
        lemma_word_len(s);
        lemma_lex_words(s.skip(n as int));
        let w = s.take(n as int);
        assert forall|k: int| 0 <= k < w.len() implies is_word_char(#[trigger] w[k]) by {
            assert(w[k] == s[k]);
        }
        assert(words_ok(seq![TokenM::Word(w)]));
        lemma_words_ok_concat(seq![TokenM::Word(w)], lex(s.skip(n as int)));
    }
}

/// Rendered tokens lex back to themselves.
proof fn lemma_lex_render(ts: Seq<TokenM>)
    requires
        words_ok(ts),
    ensures
        lex(render_tokens(ts)) == ts,
    decreases ts.len(),
{
    if ts.len() == 0 {
        assert(lex(Seq::<char>::empty()) =~= ts);
    } else {
        let t = ts[0];
        let rest = ts.drop_first();
        assert(words_ok(rest)) by {
            assert forall|i: int| 0 <= i < rest.len() && (#[trigger] rest[i] is Word) implies word_ok(
                rest[i]->Word_0,
            ) by {
                assert(rest[i] == ts[i + 1]);
            }
        }
        lemma_lex_render(rest);
        let r = render_tokens(rest);
        let tail = seq![' '] + r;
        assert(tail.drop_first() =~= r);
        assert(lex(tail) == lex(r));
        let s = render_tokens(ts);
        assert(s =~= token_text(t) + tail);
        match t {
            TokenM::Word(w) => {
                assert(word_ok(w));
                lemma_word_len(s);
                let n = word_len(s) as int;
                assert forall|k: int| 0 <= k < w.len() implies s[k] == w[k] by {}
                if n < w.len() {
                    assert(s[n] == w[n]);
                }
                if n > w.len() {
                    assert(s[w.len() as int] == ' ');
                }
                assert(n == w.len());
                assert(s.take(n) =~= w);
                assert(s.skip(n) =~= tail);
                assert(lex(s) =~= seq![t] + rest);
            },
            _ => {
                assert(s.drop_first() =~= tail);
                assert(lex(s) =~= seq![t] + rest);
            },
        }
        assert(seq![t] + rest =~= ts);
    }
}

proof fn lemma_item_tokens_front(ns: Seq<Seq<char>>)
    requires
        ns.len() >= 2,
    ensures
        item_tokens(ns) == seq![TokenM::Word(ns[0]), TokenM::Comma] + item_tokens(ns.drop_first()),
    decreases ns.len(),
{
    if ns.len() == 2 {
        assert(ns.drop_last() =~= seq![ns[0]]);
        assert(ns.drop_first() =~= seq![ns[1]]);
        assert(item_tokens(ns.drop_last()) == seq![TokenM::Word(ns[0])]);
        assert(item_tokens(ns.drop_first()) == seq![TokenM::Word(ns[1])]);
        assert(item_tokens(ns) =~= seq![TokenM::Word(ns[0]), TokenM::Comma] + item_tokens(ns.drop_first()));
    } else {
        lemma_item_tokens_front(ns.drop_last());
        assert(ns.drop_last().drop_first() =~= ns.drop_first().drop_last());
        assert(item_tokens(ns) =~= seq![TokenM::Word(ns[0]), TokenM::Comma] + item_tokens(ns.drop_first()));
    }
}

proof fn lemma_item_words(ns: Seq<Seq<char>>)
    requires
        names_ok(ns),
    ensures
        words_ok(item_tokens(ns)),
    decreases ns.len(),
{
    if ns.len() == 1 {
        assert(name_ok(ns[0]));
    } else if ns.len() > 1 {
        lemma_item_words(ns.drop_last());
        assert(name_ok(ns.last()));
        assert(words_ok(seq![TokenM::Comma, TokenM::Word(ns.last())]));
        lemma_words_ok_concat(item_tokens(ns.drop_last()), seq![TokenM::Comma, TokenM::Word(ns.last())]);
    }
}

/// A list's items, rendered, parse back to the names.
proof fn lemma_list_items(ts: Seq<TokenM>, i: int, ns: Seq<Seq<char>>)
    requires
        0 <= i,
        names_ok(ns),
        i + item_tokens(ns).len() + 1 <= ts.len(),
        ts.subrange(i, i + item_tokens(ns).len() + 1) == item_tokens(ns) + seq![TokenM::Close],
    ensures
        list_items(ts, i) == Some((ns, i + item_tokens(ns).len() + 1)),
    decreases ns.len(),
{
    let l = item_tokens(ns).len() as int;
    assert(ts[i] == ts.subrange(i, i + l + 1)[0]);
    if ns.len() == 0 {
    } else if ns.len() == 1 {
        assert(name_ok(ns[0]));
        assert(ts[i + 1] == ts.subrange(i, i + l + 1)[1]);
        assert(seq![ns[0]] =~= ns);
    } else {
        lemma_item_tokens_front(ns);
        let tail = ns.drop_first();
        let lt = item_tokens(tail).len() as int;
        assert(names_ok(tail)) by {
            assert forall|k: int| 0 <= k < tail.len() implies name_ok(#[trigger] tail[k]) by {
                assert(tail[k] == ns[k + 1]);
            }
        }
        assert(name_ok(ns[0]));
        assert(ts[i + 1] == ts.subrange(i, i + l + 1)[1]);
        assert(ts.subrange(i + 2, i + 2 + lt + 1) =~= ts.subrange(i, i + l + 1).subrange(2, l + 1));
        assert(ts.subrange(i + 2, i + 2 + lt + 1) =~= item_tokens(tail) + seq![TokenM::Close]);
        lemma_list_items(ts, i + 2, tail);
        assert(seq![ns[0]] + tail =~= ns);
    }
}

proof fn lemma_list_field(ts: Seq<TokenM>, i: int, f: Field, ns: Seq<Seq<char>>)
    requires
        0 <= i,
        names_ok(ns),
        i + field_tokens(f, ns).len() <= ts.len(),
        ts.subrange(i, i + field_tokens(f, ns).len()) == field_tokens(f, ns),
    ensures
        list_field(ts, i, f) == Ok::<(Seq<Seq<char>>, int), ConfigError>((ns, i + field_tokens(f, ns).len())),
{
    let l = field_tokens(f, ns).len() as int;
    let sub = ts.subrange(i, i + l);
    assert(ts[i] == sub[0]);
    assert(ts[i + 1] == sub[1]);
    assert(ts[i + 2] == sub[2]);
    assert(ts.subrange(i + 3, i + l) =~= sub.subrange(3, l));
    assert(sub.subrange(3, l) =~= item_tokens(ns) + seq![TokenM::Close]);
    lemma_list_items(ts, i + 3, ns);
}

/// The tokens of a well-formed directive parse back to it.
proof fn lemma_parse_directive_tokens(d: DirectiveM)
    requires
        directive_ok(d),
    ensures
        parse_tokens(directive_tokens(d)) == Ok::<DirectiveM, ConfigError>(d),
{
    let ts = directive_tokens(d);
    let a = seq![TokenM::Word(label(Field::Context)), TokenM::Equals, TokenM::Word(d.observer), TokenM::Comma];
    let p = field_tokens(Field::Propose, d.propose);
    let g = field_tokens(Field::Register, d.register);
    let q = field_tokens(Field::Request, d.request);
    let c = seq![TokenM::Comma];
    assert(ts == a + p + c + g + c + q);
    assert(ts[0] == a[0]);
    assert(ts[1] == a[1]);
    assert(ts[2] == a[2]);
    assert(ts[3] == a[3]);
    let i = 4 + p.len() as int;
    assert(ts.subrange(4, i) =~= p);
    lemma_list_field(ts, 4, Field::Propose, d.propose);
    assert(ts[i] == TokenM::Comma);
    let j = i + 1 + g.len() as int;
    assert(ts.subrange(i + 1, j) =~= g);
    lemma_list_field(ts, i + 1, Field::Register, d.register);
    assert(ts[j] == TokenM::Comma);
    let k = j + 1 + q.len() as int;
    assert(ts.subrange(j + 1, k) =~= q);
    lemma_list_field(ts, j + 1, Field::Request, d.request);
    assert(k == ts.len());
}

proof fn lemma_list_items_names(ts: Seq<TokenM>, i: int)
    requires
        words_ok(ts),
        list_items(ts, i) is Some,
    ensures
        names_ok((list_items(ts, i)->0).0),
    decreases ts.len() - i,
{
    if ts[i] != TokenM::Close {
        let w = ts[i]->Word_0;
        assert(name_ok(w));
        if is_token(ts, i + 1, TokenM::Close) {
        } else {
            lemma_list_items_names(ts, i + 2);
            let rest = (list_items(ts, i + 2)->0).0;
            assert forall|k: int| 0 <= k < rest.len() + 1 implies name_ok(#[trigger] (seq![w] + rest)[k]) by {
                if k > 0 {
                    assert((seq![w] + rest)[k] == rest[k - 1]);
                }
            }
        }
    }
}

proof fn lemma_list_field_names(ts: Seq<TokenM>, i: int, f: Field)
    requires
        words_ok(ts),
        list_field(ts, i, f) is Ok,
    ensures
        names_ok((list_field(ts, i, f)->Ok_0).0),
{
    lemma_list_items_names(ts, i + 3);
}

/// What the parser returns is well formed.
proof fn lemma_parsed_ok(ts: Seq<TokenM>)
    requires
        words_ok(ts),
        parse_tokens(ts) is Ok,
    ensures
        directive_ok(parse_tokens(ts)->Ok_0),
{
    let i = (list_field(ts, 4, Field::Propose)->Ok_0).1;
    let j = (list_field(ts, i + 1, Field::Register)->Ok_0).1;
    lemma_list_field_names(ts, 4, Field::Propose);
    lemma_list_field_names(ts, i + 1, Field::Register);
    lemma_list_field_names(ts, j + 1, Field::Request);
}

proof fn lemma_label_ok(f: Field)
    ensures
        word_ok(label(f)),
{
    reveal_strlit("context");
    reveal_strlit("propose");
    reveal_strlit("register");
    reveal_strlit("request");
}

proof fn lemma_field_words(f: Field, ns: Seq<Seq<char>>)
    requires
        names_ok(ns),
    ensures
        words_ok(field_tokens(f, ns)),
{
    lemma_label_ok(f);
    lemma_item_words(ns);
    let h = seq![TokenM::Word(label(f)), TokenM::Equals, TokenM::Open];
    assert(words_ok(h));
    lemma_words_ok_concat(h, item_tokens(ns));
    lemma_words_ok_concat(h + item_tokens(ns), seq![TokenM::Close]);
}

proof fn lemma_directive_words(d: DirectiveM)
    requires
        directive_ok(d),
    ensures
        words_ok(directive_tokens(d)),
{
    lemma_label_ok(Field::Context);
    let a = seq![TokenM::Word(label(Field::Context)), TokenM::Equals, TokenM::Word(d.observer), TokenM::Comma];
    let c = seq![TokenM::Comma];
    let p = field_tokens(Field::Propose, d.propose);
    let g = field_tokens(Field::Register, d.register);
    let q = field_tokens(Field::Request, d.request);
    assert(words_ok(a));
    assert(words_ok(c));
    lemma_field_words(Field::Propose, d.propose);
    lemma_field_words(Field::Register, d.register);
    lemma_field_words(Field::Request, d.request);
    lemma_words_ok_concat(a, p);
    lemma_words_ok_concat(a + p, c);
    lemma_words_ok_concat(a + p + c, g);
    lemma_words_ok_concat(a + p + c + g, c);
    lemma_words_ok_concat(a + p + c + g + c, q);
}

/// Round trip: a directive that the parser accepted, rendered to text and
/// parsed again, gives back the same directive.
pub proof fn lemma_round_trip(text: Seq<char>, d: DirectiveM)
    requires
        parse_text(text) == Ok::<DirectiveM, ConfigError>(d),
    ensures
        parse_text(render_text(d)) == Ok::<DirectiveM, ConfigError>(d),
{
    lemma_lex_words(text);
    lemma_parsed_ok(lex(text));
    lemma_directive_words(d);
    lemma_lex_render(directive_tokens(d));
    lemma_parse_directive_tokens(d);
}

} // verus!

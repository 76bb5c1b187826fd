use rx_observer::directive::{ConfigError, Field, RewriteDirective, Token};
use rx_observer::ident::word_is_ident;

fn strings(names: &[&str]) -> Vec<String> {
    names.iter().map(|n| n.to_string()).collect()
}

#[test]
fn parses_all_four_fields() {
    let d = RewriteDirective::parse(
        "context = SNAPSHOTCONTEXT,\n propose = [_index, _index2, k, my_struct],\n register = [k, l, ss],\n request = [q, my_struct]",
    )
    .unwrap();
    assert_eq!(d.observer, "SNAPSHOTCONTEXT");
    assert_eq!(d.propose, strings(&["_index", "_index2", "k", "my_struct"]));
    assert_eq!(d.register, strings(&["k", "l", "ss"]));
    assert_eq!(d.request, strings(&["q", "my_struct"]));
}

#[test]
fn parses_empty_lists() {
    let d = RewriteDirective::parse("context = C, propose = [], register = [], request = []").unwrap();
    assert_eq!(d.observer, "C");
    assert!(d.propose.is_empty());
    assert!(d.register.is_empty());
    assert!(d.request.is_empty());
}

#[test]
fn accepts_trailing_comma_in_list() {
    let d = RewriteDirective::parse("context=C,propose=[a,],register=[b],request=[]").unwrap();
    assert_eq!(d.propose, strings(&["a"]));
    assert_eq!(d.register, strings(&["b"]));
}

#[test]
fn fields_out_of_order_are_an_unexpected_label() {
    let r = RewriteDirective::parse("context = C, register = [], propose = [], request = []");
    assert_eq!(r, Err(ConfigError::UnexpectedLabel(Field::Propose)));
    let r = RewriteDirective::parse("observer = C, propose = [], register = [], request = []");
    assert_eq!(r, Err(ConfigError::UnexpectedLabel(Field::Context)));
}

#[test]
fn list_without_commas_is_malformed() {
    let r = RewriteDirective::parse("context = C, propose = [a b], register = [], request = []");
    assert_eq!(r, Err(ConfigError::MalformedList(Field::Propose)));
}

#[test]
fn list_without_brackets_is_malformed() {
    let r = RewriteDirective::parse("context = C, propose = [], register = a, request = []");
    assert_eq!(r, Err(ConfigError::MalformedList(Field::Register)));
}

#[test]
fn leading_comma_in_list_is_malformed() {
    let r = RewriteDirective::parse("context = C, propose = [], register = [], request = [, q]");
    assert_eq!(r, Err(ConfigError::MalformedList(Field::Request)));
}

#[test]
fn keyword_in_list_is_malformed() {
    let r = RewriteDirective::parse("context = C, propose = [let], register = [], request = []");
    assert_eq!(r, Err(ConfigError::MalformedList(Field::Propose)));
    let r = RewriteDirective::parse("context = C, propose = [1x], register = [], request = []");
    assert_eq!(r, Err(ConfigError::MalformedList(Field::Propose)));
}

#[test]
fn missing_fields_are_reported() {
    assert_eq!(RewriteDirective::parse(""), Err(ConfigError::MissingField(Field::Context)));
    assert_eq!(RewriteDirective::parse("context = C"), Err(ConfigError::MissingField(Field::Propose)));
    assert_eq!(
        RewriteDirective::parse("context = C, propose = []"),
        Err(ConfigError::MissingField(Field::Register))
    );
    assert_eq!(
        RewriteDirective::parse("context = C, propose = [], register = [],"),
        Err(ConfigError::MissingField(Field::Request))
    );
}

#[test]
fn label_without_equals_is_refused() {
    let r = RewriteDirective::parse("context C, propose = [], register = [], request = []");
    assert_eq!(r, Err(ConfigError::ExpectedEquals(Field::Context)));
}

#[test]
fn observer_must_be_an_identifier() {
    let r = RewriteDirective::parse("context = fn, propose = [], register = [], request = []");
    assert_eq!(r, Err(ConfigError::InvalidObserver));
    let r = RewriteDirective::parse("context = [], propose = [], register = [], request = []");
    assert_eq!(r, Err(ConfigError::InvalidObserver));
}

#[test]
fn fields_need_separating_commas() {
    let r = RewriteDirective::parse("context = C propose = [], register = [], request = []");
    assert_eq!(r, Err(ConfigError::ExpectedComma(Field::Context)));
    let r = RewriteDirective::parse("context = C, propose = [] register = [], request = []");
    assert_eq!(r, Err(ConfigError::ExpectedComma(Field::Propose)));
}

#[test]
fn input_after_last_field_is_refused() {
    let r = RewriteDirective::parse("context = C, propose = [], register = [], request = [],");
    assert_eq!(r, Err(ConfigError::TrailingInput));
}

#[test]
fn tokenizer_splits_words_and_punctuation() {
    let ts = rx_observer::directive::tokenize(" a=[b ,c]");
    assert_eq!(
        ts,
        vec![
            Token::Word("a".to_string()),
            Token::Equals,
            Token::Open,
            Token::Word("b".to_string()),
            Token::Comma,
            Token::Word("c".to_string()),
            Token::Close,
        ]
    );
}

#[test]
fn rendered_directive_parses_back() {
    let d = RewriteDirective::parse("context=CTX,propose=[x,y],register=[],request=[z]").unwrap();
    let text = d.render();
    assert_eq!(text, "context = CTX , propose = [ x , y ] , register = [ ] , request = [ z ] ");
    assert_eq!(RewriteDirective::parse(&text), Ok(d));
}

#[test]
fn words_with_comments_are_not_names() {
    let r = RewriteDirective::parse("context = C, propose = [a//b], register = [], request = []");
    assert_eq!(r, Err(ConfigError::MalformedList(Field::Propose)));
    let r = RewriteDirective::parse("context = C, propose = [a/*x*/], register = [], request = []");
    assert_eq!(r, Err(ConfigError::MalformedList(Field::Propose)));
}

#[test]
fn identifier_rule_cases() {
    assert!(word_is_ident("_x"));
    assert!(word_is_ident("k9"));
    assert!(word_is_ident("été"));
    assert!(word_is_ident("r#type"));
    assert!(!word_is_ident("_"));
    assert!(!word_is_ident("r#self"));
    assert!(!word_is_ident("r#"));
    assert!(!word_is_ident("9k"));
    assert!(!word_is_ident("a-b"));
    assert!(!word_is_ident("while"));
    assert!(!word_is_ident(""));
}

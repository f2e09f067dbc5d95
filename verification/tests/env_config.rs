use lib::env_config::{
    build_symbol_table, resolve_all, tokenize, try_resolve_all, ResolveError, Segment, Token,
    TokenizeError,
};

#[test]
fn simple_assignment() {
    let tokens = tokenize("HOST = localhost").unwrap();
    assert_eq!(
        tokens,
        vec![Token::Name("HOST"), Token::Equals, Token::Text("localhost")]
    );
}

#[test]
fn value_with_one_reference() {
    let tokens = tokenize("URL = https://${HOST}:8080/api").unwrap();
    assert_eq!(
        tokens,
        vec![
            Token::Name("URL"),
            Token::Equals,
            Token::Text("https://"),
            Token::Ref("HOST"),
            Token::Text(":8080/api"),
        ]
    );
}

#[test]
fn value_with_two_adjacent_references() {
    let tokens = tokenize("GREETING = ${A}-${B}").unwrap();
    assert_eq!(
        tokens,
        vec![
            Token::Name("GREETING"),
            Token::Equals,
            Token::Ref("A"),
            Token::Text("-"),
            Token::Ref("B"),
        ]
    );
}

#[test]
fn value_that_is_only_a_reference() {
    let tokens = tokenize("ALIAS = ${HOST}").unwrap();
    assert_eq!(
        tokens,
        vec![Token::Name("ALIAS"), Token::Equals, Token::Ref("HOST"),]
    );
}

#[test]
fn multiple_lines() {
    let tokens = tokenize("HOST = localhost\nPORT = 8080").unwrap();
    assert_eq!(
        tokens,
        vec![
            Token::Name("HOST"),
            Token::Equals,
            Token::Text("localhost"),
            Token::Name("PORT"),
            Token::Equals,
            Token::Text("8080"),
        ]
    );
}

#[test]
fn comments_and_blank_lines_are_ignored() {
    let tokens = tokenize("# a comment\n\nHOST = localhost\n  # indented comment\n").unwrap();
    assert_eq!(
        tokens,
        vec![Token::Name("HOST"), Token::Equals, Token::Text("localhost")]
    );
}

#[test]
fn line_without_equals_is_an_error() {
    assert!(matches!(
        tokenize("not_an_assignment"),
        Err(TokenizeError::MissingEquals)
    ));
}

#[test]
fn unterminated_reference_is_an_error() {
    assert!(matches!(
        tokenize("URL = ${HOST"),
        Err(TokenizeError::UnterminatedRef)
    ));
}

#[test]
fn build_symbol_table_groups_by_name() {
    let tokens = tokenize("HOST = localhost\nURL = https://${HOST}:8080/api").unwrap();
    let table = build_symbol_table(tokens);

    assert_eq!(table.len(), 2);
    assert_eq!(*table.get("HOST").unwrap(), vec![Segment::Text("localhost")]);
    assert_eq!(
        *table.get("URL").unwrap(),
        vec![
            Segment::Text("https://"),
            Segment::Ref("HOST"),
            Segment::Text(":8080/api"),
        ]
    );
}

#[test]
fn build_symbol_table_keeps_names_with_empty_values() {
    let tokens = tokenize("EMPTY = ").unwrap();
    let table = build_symbol_table(tokens);

    assert_eq!(table.get("EMPTY"), Some(&vec![]));
}

#[test]
fn resolve_all_substitutes_a_reference() {
    let tokens = tokenize("HOST = localhost\nURL = https://${HOST}:8080/api").unwrap();
    let table = build_symbol_table(tokens);
    let resolved = resolve_all(&table).unwrap();

    assert_eq!(*resolved.get("HOST").unwrap(), "localhost");
    assert_eq!(*resolved.get("URL").unwrap(), "https://localhost:8080/api");
}

#[test]
fn resolve_all_follows_a_chain_of_references() {
    let tokens = tokenize("A = base\nB = ${A}-mid\nC = ${B}-top").unwrap();
    let table = build_symbol_table(tokens);
    let resolved = resolve_all(&table).unwrap();

    assert_eq!(*resolved.get("C").unwrap(), "base-mid-top");
}

#[test]
fn resolve_all_reports_an_undefined_reference() {
    let tokens = tokenize("URL = ${MISSING}").unwrap();
    let table = build_symbol_table(tokens);

    assert!(matches!(
        resolve_all(&table),
        Err(ResolveError::UndefinedReference(name)) if name == "MISSING"
    ));
}

// Further cases.

#[test]
fn the_value_is_trimmed_as_a_whole_and_its_text_kept() {
    let tokens = tokenize("  NAME\t=  a  ${ X }  b \r\n").unwrap();
    assert_eq!(
        tokens,
        vec![
            Token::Name("NAME"),
            Token::Equals,
            Token::Text("a  "),
            Token::Ref("X"),
            Token::Text("  b"),
        ]
    );
}

#[test]
fn spaces_next_to_a_reference_survive_resolution() {
    let tokens = tokenize("G = Hello ${N}!\nN = World").unwrap();
    assert_eq!(
        tokens[..5],
        [
            Token::Name("G"),
            Token::Equals,
            Token::Text("Hello "),
            Token::Ref("N"),
            Token::Text("!"),
        ]
    );
    let table = build_symbol_table(tokens);
    let resolved = resolve_all(&table).unwrap();
    assert_eq!(*resolved.get("G").unwrap(), "Hello World!");
    let tokens = tokenize("P = ${A} ${B}").unwrap();
    assert_eq!(
        tokens,
        vec![
            Token::Name("P"),
            Token::Equals,
            Token::Ref("A"),
            Token::Text(" "),
            Token::Ref("B"),
        ]
    );
}

#[test]
fn only_the_first_equals_splits() {
    let tokens = tokenize("K = a=b").unwrap();
    assert_eq!(tokens, vec![Token::Name("K"), Token::Equals, Token::Text("a=b")]);
}

#[test]
fn hash_inside_a_value_is_text() {
    let tokens = tokenize("K = a # b").unwrap();
    assert_eq!(tokens, vec![Token::Name("K"), Token::Equals, Token::Text("a # b")]);
}

#[test]
fn lone_dollar_and_brace_are_text() {
    let tokens = tokenize("K = $x {y}").unwrap();
    assert_eq!(tokens, vec![Token::Name("K"), Token::Equals, Token::Text("$x {y}")]);
}

#[test]
fn unicode_text_and_unicode_whitespace() {
    let tokens = tokenize("\u{3000}GRÜSSE = ${NAME}\u{00A0}und ä\u{2003}").unwrap();
    assert_eq!(
        tokens,
        vec![
            Token::Name("GRÜSSE"),
            Token::Equals,
            Token::Ref("NAME"),
            Token::Text("\u{00A0}und ä"),
        ]
    );
}

#[test]
fn error_on_a_later_line_discards_earlier_tokens() {
    assert!(matches!(
        tokenize("A = 1\nB = ${C\nD"),
        Err(TokenizeError::UnterminatedRef)
    ));
    assert!(matches!(
        tokenize("A = 1\nno equals\nB = ${C"),
        Err(TokenizeError::MissingEquals)
    ));
}

#[test]
fn empty_source_has_no_tokens() {
    assert_eq!(tokenize("").unwrap(), vec![]);
    assert_eq!(tokenize("\n\n  \n").unwrap(), vec![]);
}

#[test]
fn empty_reference_name() {
    let tokens = tokenize("K = ${}").unwrap();
    assert_eq!(tokens, vec![Token::Name("K"), Token::Equals, Token::Ref("")]);
}

#[test]
fn redefinition_starts_the_value_over_in_place() {
    let tokens = tokenize("A = 1\nB = 2\nA = ${B}x").unwrap();
    let table = build_symbol_table(tokens);
    assert_eq!(table.len(), 2);
    assert_eq!(*table.get("A").unwrap(), vec![Segment::Ref("B"), Segment::Text("x")]);
    let resolved = resolve_all(&table).unwrap();
    assert_eq!(*resolved.get("A").unwrap(), "2x");
    assert_eq!(*resolved.get("B").unwrap(), "2");
}

#[test]
fn segments_before_any_name_go_to_the_empty_name() {
    let table = build_symbol_table(vec![Token::Text("t"), Token::Name("N"), Token::Ref("M")]);
    assert_eq!(table.len(), 2);
    assert_eq!(*table.get("").unwrap(), vec![Segment::Text("t")]);
    assert_eq!(*table.get("N").unwrap(), vec![Segment::Ref("M")]);
    assert!(table.get("M").is_none());
}

#[test]
fn forward_references_resolve() {
    let tokens = tokenize("URL = http://${HOST}/\nHOST = ${NAME}.org\nNAME = example").unwrap();
    let table = build_symbol_table(tokens);
    let resolved = resolve_all(&table).unwrap();
    assert_eq!(resolved.len(), 3);
    assert_eq!(*resolved.get("URL").unwrap(), "http://example.org/");
}

#[test]
fn reference_cycle_is_reported_by_try_resolve_all() {
    let tokens = tokenize("A = ${B}\nB = x${A}").unwrap();
    let table = build_symbol_table(tokens);
    assert!(try_resolve_all(&table).is_none());
    let tokens = tokenize("S = ${S}").unwrap();
    let table = build_symbol_table(tokens);
    assert!(try_resolve_all(&table).is_none());
}

#[test]
fn missing_reference_met_before_a_cycle_is_an_error() {
    let tokens = tokenize("A = ${MISSING}${A}").unwrap();
    let table = build_symbol_table(tokens);
    assert!(matches!(
        try_resolve_all(&table),
        Some(Err(ResolveError::UndefinedReference(name))) if name == "MISSING"
    ));
}

#[test]
fn error_messages() {
    assert_eq!(
        TokenizeError::MissingEquals.to_string(),
        "line has no '=' separating a name from a value"
    );
    assert_eq!(
        TokenizeError::UnterminatedRef.to_string(),
        "'${' was never closed with a matching '}'"
    );
    assert_eq!(
        ResolveError::UndefinedReference("X".to_string()).to_string(),
        "reference to undefined name 'X'"
    );
}

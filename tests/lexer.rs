use indexer::lexer::{tokenize, Lexer};

#[test]
fn gets_basic_lex() {
    let string = "Hello, world.";
    let tokens = Lexer::new(string).tokens();

    assert_eq!(tokens, vec!["hello", "world"]);
}

#[test]
fn working_with_numbers() {
    let string = "1234, alfa12 CR7 Ho-18";

    let tokens = Lexer::new(string).tokens();

    assert_eq!(tokens, vec!["alfa", "cr", "ho"]);
}

#[test]
fn multiple_paragraphs() {
    let input = r#"Este es un parrafo.
Este es otro parra-
fo, que es acortado."#;

    let tokens = Lexer::new(input).tokens();

    assert_eq!(
        tokens,
        vec![
            "este", "es", "un", "parrafo", "este", "es", "otro", "parrafo", "que", "es",
            "acortado",
        ]
    );
}

#[test]
fn none_on_numbers() {
    let input = "11 13 69 420";

    let tokens = Lexer::new(input).tokens();

    assert_eq!(tokens, Vec::<String>::new());
}

#[test]
fn splitted_words() {
    let input = "hol-12492835a";

    let tokens = Lexer::new(input).tokens();

    assert_eq!(tokens, vec!["hola"]);
}

#[test]
fn next_yields_tokens_one_at_a_time() {
    let mut lexer = Lexer::new("uno 2 dos");
    assert_eq!(lexer.next(), Some(String::from("uno")));
    assert_eq!(lexer.next(), Some(String::from("dos")));
    assert_eq!(lexer.next(), None);
    assert_eq!(lexer.next(), None);
}

#[test]
fn empty_text_has_no_tokens() {
    assert_eq!(tokenize(""), Vec::<String>::new());
    assert_eq!(tokenize("   \n  "), Vec::<String>::new());
}

#[test]
fn runs_of_spaces_and_surrounding_whitespace() {
    assert_eq!(tokenize("  hola   mundo  "), vec!["hola", "mundo"]);
    assert_eq!(tokenize("\thola\t mundo\r"), vec!["hola", "mundo"]);
}

#[test]
fn numeric_chunks_between_words_are_skipped() {
    assert_eq!(tokenize("uno 2 3 4 cinco"), vec!["uno", "cinco"]);
}

#[test]
fn line_breaks_separate_words() {
    assert_eq!(tokenize("uno\ndos"), vec!["uno", "dos"]);
    assert_eq!(tokenize("pala-\nbra"), vec!["palabra"]);
    assert_eq!(tokenize("a--\n\nb"), vec!["a", "b"]);
}

#[test]
fn uppercase_is_folded() {
    assert_eq!(tokenize("HELLO World"), vec!["hello", "world"]);
}

#[test]
fn letters_beyond_ascii_are_kept_and_folded() {
    assert_eq!(tokenize("Ñandú CAFÉ 42€"), vec!["ñandú", "café"]);
}

#[test]
fn tokenizing_tokens_again_changes_nothing() {
    let once = tokenize("Este es un parrafo.\nEste es otro parra-\nfo, que es acortado.");
    let again = tokenize(&once.join(" "));
    assert_eq!(once, again);
    assert_eq!(tokenize("hola mundo"), vec!["hola", "mundo"]);
}

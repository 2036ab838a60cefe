use indexer::corpus::Corpus;
use indexer::frequency::{process_buf, TermFreq};
use indexer::ranking::{lex_less, sort_ranked, top_terms};

fn table(words: &[(&str, usize)]) -> TermFreq {
    let mut tokens: Vec<String> = Vec::new();
    for (w, n) in words {
        for _ in 0..*n {
            tokens.push(w.to_string());
        }
    }
    TermFreq::from_tokens(&tokens)
}

fn corpus(docs: &[(&str, &str)]) -> Corpus {
    let mut c = Corpus::new();
    for (id, text) in docs {
        c.insert(id.to_string(), process_buf(text));
    }
    c
}

#[test]
fn counts_each_token() {
    let t = process_buf("la casa y la otra casa, la");
    assert_eq!(t.get("la"), 3);
    assert_eq!(t.get("casa"), 2);
    assert_eq!(t.get("y"), 1);
    assert_eq!(t.get("otra"), 1);
    assert_eq!(t.get("perro"), 0);
    assert_eq!(t.len(), 4);
}

#[test]
fn empty_document_has_empty_table() {
    let t = process_buf("123 456");
    assert_eq!(t.len(), 0);
    assert_eq!(t.get("a"), 0);
}

#[test]
fn document_frequency_counts_documents_not_occurrences() {
    let c = corpus(&[("a", "gato gato gato"), ("b", "gato perro"), ("c", "perro")]);
    assert_eq!(c.document_count(), 3);
    assert_eq!(c.document_frequency("gato"), 2);
    assert_eq!(c.document_frequency("perro"), 2);
    assert_eq!(c.document_frequency("pez"), 0);
}

#[test]
fn reinserting_a_document_replaces_it() {
    let mut c = corpus(&[("a", "gato"), ("b", "perro")]);
    c.insert(String::from("a"), process_buf("pez pez"));
    assert_eq!(c.document_count(), 2);
    assert_eq!(c.document_frequency("gato"), 0);
    assert_eq!(c.document_frequency("pez"), 1);
    let (id, t) = c.document(0);
    assert_eq!(id, "a");
    assert_eq!(t.get("pez"), 2);
}

#[test]
fn idf_of_term_in_half_of_four_documents() {
    let c = corpus(&[
        ("d1", "sol luna"),
        ("d2", "sol mar"),
        ("d3", "mar luna"),
        ("d4", "luna"),
    ]);
    assert_eq!(c.idf_ratio("sol"), Some((4, 2)));
    let (n, df) = c.idf_ratio("sol").unwrap();
    let idf = (n as f64 / df as f64).ln();
    assert!((idf - 0.693).abs() < 0.001);
    assert!((idf - std::f64::consts::LN_2).abs() < 1e-12);
}

#[test]
fn idf_of_term_in_every_document_is_zero() {
    let c = corpus(&[("d1", "sol"), ("d2", "sol mar"), ("d3", "sol"), ("d4", "sol luna")]);
    assert_eq!(c.idf_ratio("sol"), Some((4, 4)));
    let (n, df) = c.idf_ratio("sol").unwrap();
    assert_eq!((n as f64 / df as f64).ln(), 0.0);
}

#[test]
fn idf_of_absent_term_is_undefined() {
    let c = corpus(&[("d1", "sol")]);
    assert_eq!(c.idf_ratio("mar"), None);
    assert_eq!(Corpus::new().idf_ratio("mar"), None);
}

#[test]
fn idf_table_bounds_hold() {
    let c = corpus(&[("d1", "sol luna sol"), ("d2", "mar sol"), ("d3", "luna 42")]);
    let n = c.document_count();
    let mut table = c.idf_table();
    table.sort();
    assert_eq!(
        table,
        vec![
            (String::from("luna"), 2),
            (String::from("mar"), 1),
            (String::from("sol"), 2),
        ]
    );
    for (_, df) in &table {
        assert!(1 <= *df && *df <= n);
        assert!((n as f64 / *df as f64).ln() >= 0.0);
    }
}

#[test]
fn top_terms_break_ties_by_later_word_first() {
    let t = table(&[("a", 2), ("b", 2), ("z", 2)]);
    let top = top_terms(&t, 3);
    let words: Vec<&str> = top.iter().map(|(w, _)| w.as_str()).collect();
    assert_eq!(words, vec!["z", "b", "a"]);
}

#[test]
fn top_terms_by_count_then_word() {
    let t = table(&[("uno", 1), ("tres", 3), ("dos", 2), ("otro", 2), ("mas", 5)]);
    assert_eq!(
        top_terms(&t, 3),
        vec![
            (String::from("mas"), 5),
            (String::from("tres"), 3),
            (String::from("otro"), 2),
        ]
    );
    assert_eq!(top_terms(&t, 0), Vec::<(String, usize)>::new());
    assert_eq!(top_terms(&t, 10).len(), 5);
}

#[test]
fn ranks_documents_by_term_count_then_identifier() {
    let c = corpus(&[
        ("c", "gato gato"),
        ("a", "gato perro"),
        ("b", "gato gato"),
        ("d", "perro"),
    ]);
    assert_eq!(
        c.rank_documents("gato"),
        vec![
            (String::from("b"), 2),
            (String::from("c"), 2),
            (String::from("a"), 1),
            (String::from("d"), 0),
        ]
    );
}

#[test]
fn term_in_every_document_ranks_by_identifier() {
    let c = corpus(&[("b", "gato"), ("a", "gato gato gato"), ("c", "gato gato")]);
    assert_eq!(
        c.rank_documents("gato"),
        vec![
            (String::from("a"), 0),
            (String::from("b"), 0),
            (String::from("c"), 0),
        ]
    );
    assert_eq!(
        c.rank_documents("pez"),
        vec![
            (String::from("a"), 0),
            (String::from("b"), 0),
            (String::from("c"), 0),
        ]
    );
}

#[test]
fn lexicographic_order_by_code_point() {
    assert!(lex_less(&String::from("a"), &String::from("b")));
    assert!(lex_less(&String::from("ab"), &String::from("abc")));
    assert!(!lex_less(&String::from("abc"), &String::from("ab")));
    assert!(!lex_less(&String::from("x"), &String::from("x")));
    assert!(lex_less(&String::from("Z"), &String::from("a")));
    assert!(lex_less(&String::from("z"), &String::from("é")));
}

#[test]
fn sort_ranked_orders_both_ways() {
    let v = vec![(String::from("b"), 1), (String::from("a"), 1), (String::from("c"), 4)];
    assert_eq!(
        sort_ranked(v.clone(), true),
        vec![(String::from("c"), 4), (String::from("b"), 1), (String::from("a"), 1)]
    );
    assert_eq!(
        sort_ranked(v, false),
        vec![(String::from("c"), 4), (String::from("a"), 1), (String::from("b"), 1)]
    );
}

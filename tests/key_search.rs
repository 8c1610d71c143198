use std::io::{BufRead, BufReader, Write};

use flate2::read::GzDecoder;
use flate2::write::GzEncoder;
use flate2::Compression;
use key_search::matcher::{search_keys_in_text, search_paragraph, MASK};
use key_search::report::{
    generate_report, input_kind, process_json_line, report_plain_text, InputKind, LineOutcome,
    StructuredReader, MAX_DOCUMENTS,
};
use key_search::text::{
    from_ascii_titlecase, parse_u32, replace_str, split_any, to_ascii_titlecase, trim_str,
};
use key_search::vocab::{
    build_banned, build_vocabulary, StemSet, StemmerWrapper, VocabError, Vocabulary,
};

fn vocabulary(entries: &[(&str, u32)]) -> Vocabulary {
    let mut v = Vocabulary::new();
    for (k, id) in entries {
        v.insert(k.to_string(), *id);
    }
    v
}

fn owned(results: &[(&str, &str, u32)]) -> Vec<(String, String, u32)> {
    results.iter().map(|(c, k, id)| (c.to_string(), k.to_string(), *id)).collect()
}

#[test]
fn test_standardize() {
    let stemmer = StemmerWrapper::new();
    let banned = build_banned("#common words\nthe of and\npathways\nexample", &stemmer);
    assert!(banned.contains(&stemmer.standardize("pathways")));
    assert!(!banned.contains(&stemmer.standardize("Acetaminophen")));
}

#[test]
fn test_parse_csv() {
    let content = "43\texample\n16\tworld";
    let mut banned = StemSet::new();
    banned.insert("exampl".to_string());
    let stemmer = StemmerWrapper::new();

    let built = build_vocabulary(content, &banned, &stemmer).unwrap();

    assert_eq!(built.vocabulary.len(), 1);
    assert_eq!(built.vocabulary.get(&"World".to_string()), Some(16));
    assert_eq!(built.skipped, 1);
}

#[test]
fn test_search_keys_in_text() {
    let map = vocabulary(&[("Apple", 1), ("Orange", 2), ("Carrot", 3)]);

    let text = "I have an apple and an orange, but I do not have a carrot.";
    let search_results = search_keys_in_text(&map, text);

    let expected_results = owned(&[
        ("I have an <|MOLECULE|> and an orange, but I do not have a carrot.", "Apple", 1),
        ("I have an apple and an <|MOLECULE|>, but I do not have a carrot.", "Orange", 2),
        ("I have an apple and an orange, but I do not have a <|MOLECULE|>.", "Carrot", 3),
    ]);

    assert_eq!(search_results, expected_results);
}

#[test]
fn test_search_keys_in_text_cases() {
    let map = vocabulary(&[
        ("Apple juice", 1),
        ("ORANGE", 2),
        ("Carrot", 3),
        ("juice", 4),
        ("Apple", 5),
    ]);

    let text = "I have an apple juice and an ORANGE, but I do not have a CARROT. Apple";
    let search_results = search_keys_in_text(&map, text);

    let expected_results = owned(&[
        ("I have an <|MOLECULE|> and an ORANGE, but I do not have a CARROT. Apple", "Apple juice", 1),
        ("I have an apple juice and an <|MOLECULE|>, but I do not have a CARROT. Apple", "ORANGE", 2),
        ("I have an <|MOLECULE|> juice and an ORANGE, but I do not have a CARROT. <|MOLECULE|>", "Apple", 5),
    ]);

    assert_eq!(search_results, expected_results);
}

#[test]
fn test_gz_json_file() {
    let csv_content = "43\tPhenol peroxidase\n16\texample";
    let textf_content = r#"{"corpusid": 533, "content": {"text": "this is a Phenol peroxidase of \"json\"", "title": "example title", "abstract": "example abstract"}}
            {"corpusid": 435, "content": {"text": "this is example 2 of json", "title": "example title", "abstract": "example abstract"}}"#;

    let mut enc = GzEncoder::new(Vec::new(), Compression::fast());
    enc.write_all(textf_content.as_bytes()).unwrap();
    let compressed = enc.finish().unwrap();

    let stemmer = StemmerWrapper::new();
    let banned = build_banned("the of example", &stemmer);
    let map = build_vocabulary(csv_content, &banned, &stemmer).unwrap().vocabulary;

    let mut reader = StructuredReader::new();
    let mut output = String::new();
    for line in BufReader::new(GzDecoder::new(&compressed[..])).lines() {
        if reader.is_full() {
            break;
        }
        match reader.feed(&map, &line.unwrap(), "text") {
            LineOutcome::Report(s) => output.push_str(&s),
            LineOutcome::MissingId => panic!("corpusid not found"),
            _ => {}
        }
    }
    assert_eq!(reader.reported(), 2);
    assert_eq!(output, "\"Phenol peroxidase\",43,\"this is a <|MOLECULE|> of \\\"json\\\"\",533\n");
}

#[test]
fn titlecase_changes_only_an_ascii_first_letter() {
    assert_eq!(to_ascii_titlecase("apple juice"), "Apple juice");
    assert_eq!(to_ascii_titlecase("ORANGE"), "ORANGE");
    assert_eq!(to_ascii_titlecase(""), "");
    assert_eq!(to_ascii_titlecase("écrire"), "écrire");
    assert_eq!(to_ascii_titlecase("1abc"), "1abc");
    assert_eq!(from_ascii_titlecase("Apple Juice"), "apple Juice");
    assert_eq!(from_ascii_titlecase(""), "");
}

#[test]
fn parse_u32_follows_std() {
    for s in ["0", "16", "+42", "4294967295", "007"] {
        assert_eq!(parse_u32(s), s.parse::<u32>().ok(), "{}", s);
    }
    for s in ["", "+", "-1", "4294967296", "12a", " 1", "99999999999999999999"] {
        assert_eq!(parse_u32(s), None, "{}", s);
    }
    assert_eq!(parse_u32("+42"), Some(42));
}

#[test]
fn trim_split_and_replace() {
    assert_eq!(trim_str(" \t world\r\n"), "world");
    assert_eq!(trim_str("\u{3000}a b\u{a0}"), "a b");
    assert_eq!(trim_str("   "), "");
    assert_eq!(split_any("a,b,,c", &[',']), vec!["a", "b", "", "c"]);
    assert_eq!(split_any("", &[',']), vec![""]);
    assert_eq!(replace_str("aaa", "aa", "X"), "Xa");
    assert_eq!(replace_str("say \"hi\"", "\"", "\\\""), "say \\\"hi\\\"");
}

#[test]
fn vocabulary_filters_short_and_banned_forms() {
    let stemmer = StemmerWrapper::new();
    let banned = build_banned("pathways", &stemmer);
    let content = "1\tabc\n2\tPathway\n3\t phenol \n4 no tab here\n5\ta\tb\tc\n6\tphenol";
    let built = build_vocabulary(content, &banned, &stemmer).unwrap();
    assert_eq!(built.vocabulary.len(), 1);
    assert_eq!(built.vocabulary.get(&"Phenol".to_string()), Some(6));
    assert_eq!(built.vocabulary.get(&"Pathway".to_string()), None);
    assert_eq!(built.vocabulary.get(&"Abc".to_string()), None);
    assert_eq!(built.skipped, 2);
}

#[test]
fn vocabulary_rejects_a_bad_identifier() {
    let stemmer = StemmerWrapper::new();
    let banned = StemSet::new();
    let content = "1\tphenol\nx\tbenzene\n3\ttoluene";
    assert!(matches!(
        build_vocabulary(content, &banned, &stemmer),
        Err(VocabError::BadIdentifier(1))
    ));
    // a filtered entry is never parsed
    assert!(build_vocabulary("x\tab", &banned, &stemmer).is_ok());
}

#[test]
fn standardize_lowercases_and_stems() {
    let stemmer = StemmerWrapper::new();
    assert_eq!(stemmer.standardize("pathways"), "pathway");
    assert_eq!(stemmer.standardize("  Pathways "), "pathway");
    let banned = build_banned("Running #running", &stemmer);
    assert!(banned.contains(&"run".to_string()));
    assert!(!banned.contains(&"#running".to_string()));
}

#[test]
fn repeated_form_reported_once_per_paragraph() {
    let map = vocabulary(&[("Apple", 1)]);
    let text = "apple and Apple again.\n\nAn apple.";
    let results = search_keys_in_text(&map, text);
    assert_eq!(
        results,
        owned(&[
            ("<|MOLECULE|> and <|MOLECULE|> again.", "Apple", 1),
            ("An <|MOLECULE|>.", "Apple", 1),
        ])
    );
}

#[test]
fn three_newlines_split_once() {
    let map = vocabulary(&[("Apple", 1)]);
    let results = search_keys_in_text(&map, "apple\n\n\napple");
    assert_eq!(results, owned(&[("<|MOLECULE|>", "Apple", 1), ("\n<|MOLECULE|>", "Apple", 1)]));
}

#[test]
fn masked_context_has_no_further_match() {
    let map = vocabulary(&[("Apple juice", 1), ("Orange", 2)]);
    let first = search_paragraph(&map, "An apple juice, please.");
    assert_eq!(first.len(), 1);
    assert!(search_paragraph(&map, &first[0].0).is_empty());
    let second = search_paragraph(&map, "orange");
    assert_eq!(second, owned(&[(MASK, "Orange", 2)]));
    assert!(search_paragraph(&map, &second[0].0).is_empty());
}

#[test]
fn short_words_and_empty_text() {
    let map = vocabulary(&[("Ab", 1), ("Abcde", 2)]);
    assert!(search_keys_in_text(&map, "").is_empty());
    assert!(search_keys_in_text(&map, "ab ab").is_empty());
    assert_eq!(search_keys_in_text(&map, "abcde"), owned(&[(MASK, "Abcde", 2)]));
}

#[test]
fn report_lines_escape_quotes() {
    let results = owned(&[("a \"b\" <|MOLECULE|>", "Phenol", 4294967295), ("x", "Water", 0)]);
    assert_eq!(
        generate_report(&results, "77"),
        "\"Phenol\",4294967295,\"a \\\"b\\\" <|MOLECULE|>\",77\n\"Water\",0,\"x\",77\n"
    );
    assert_eq!(generate_report(&Vec::new(), "1"), "");
    let map = vocabulary(&[("Water", 9)]);
    assert_eq!(report_plain_text(&map, "water"), "\"Water\",9,\"<|MOLECULE|>\",\n");
}

#[test]
fn input_kinds() {
    assert_eq!(input_kind("txt"), Some(InputKind::PlainText));
    assert_eq!(input_kind("gz"), Some(InputKind::CompressedJsonLines));
    assert_eq!(input_kind("json"), None);
    assert_eq!(input_kind(""), None);
}

#[test]
fn json_line_outcomes() {
    let map = vocabulary(&[("Water", 9)]);
    assert!(matches!(process_json_line(&map, "", "text"), LineOutcome::Blank));
    assert!(matches!(process_json_line(&map, "{not json", "text"), LineOutcome::Malformed(_)));
    assert!(matches!(
        process_json_line(&map, r#"{"corpusid": 1, "content": {}}"#, "text"),
        LineOutcome::NoText
    ));
    assert!(matches!(
        process_json_line(&map, r#"{"content": {"text": "water"}}"#, "text"),
        LineOutcome::MissingId
    ));
    match process_json_line(&map, r#"{"corpusid": 12, "content": {"body": "water"}}"#, "body") {
        LineOutcome::Report(s) => assert_eq!(s, "\"Water\",9,\"<|MOLECULE|>\",12\n"),
        _ => panic!("expected a report"),
    }
}

#[test]
fn structured_reader_stops_at_the_cap() {
    let map = vocabulary(&[("Water", 9)]);
    let mut reader = StructuredReader::new();
    let mut n = 0;
    while !reader.is_full() {
        assert!(matches!(reader.feed(&map, "", "text"), LineOutcome::Blank));
        match reader.feed(&map, r#"{"corpusid": 3, "content": {"text": "no match"}}"#, "text") {
            LineOutcome::Report(s) => assert_eq!(s, ""),
            _ => panic!("expected a report"),
        }
        n += 1;
    }
    assert_eq!(n, MAX_DOCUMENTS);
    assert_eq!(reader.reported(), MAX_DOCUMENTS);
}

#[test]
fn last_word_masked_by_the_same_rule() {
    let map = vocabulary(&[("MOLECULE", 1)]);
    assert_eq!(search_keys_in_text(&map, "MOLECULE"), owned(&[(MASK, "MOLECULE", 1)]));
    let map = vocabulary(&[("Molecule", 2)]);
    assert_eq!(
        search_keys_in_text(&map, "a molecule"),
        owned(&[("a <|MOLECULE|>", "Molecule", 2)])
    );
}

#[test]
fn report_escapes_quotes_in_the_surface_form() {
    let results = owned(&[("say <|MOLECULE|>", "a\"b", 7)]);
    assert_eq!(generate_report(&results, ""), "\"a\\\"b\",7,\"say <|MOLECULE|>\",\n");
}

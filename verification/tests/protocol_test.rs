//! The line protocol and extraction.

use lemmalog::extract::{Episode, Extractor, LlmExtractor, MockExtractor, Request, EXTRACTION_PROMPT, NINE_TENTHS};
use lemmalog::protocol::{
    entity_token_problem, is_quoted, parse_line, parse_protocol, parse_protocol_reported, parse_protocol_strict,
    quoted_token_problem, split_unquoted, strip_quotes, try_parse_predicate_line, valid_entity_token, CandidateFact,
};

fn bits(x: f64) -> u64 {
    x.to_bits()
}

fn episode(id: &str, text: &str) -> Episode {
    Episode { id: id.to_string(), text: text.to_string(), ts: 0, speaker: None }
}

#[test]
fn edge_lines_parse() {
    let c = parse_line("  Alice --works_at--> Acme Corp ", bits(0.9)).unwrap();
    assert_eq!((c.subj.as_str(), c.pred.as_str(), c.obj.as_str()), ("Alice", "works_at", "Acme Corp"));
    assert_eq!(c.confidence, bits(0.9));
    let c = parse_line("a --rel [ 0.25 ]--> b", bits(0.9)).unwrap();
    assert_eq!((c.pred.as_str(), c.confidence), ("rel", bits(0.25)));
    let c = parse_line("a --rel[high]--> b", bits(0.9)).unwrap();
    assert_eq!((c.pred.as_str(), c.confidence), ("rel", bits(0.9)));
    let c = parse_line("a --r[1]]--> b", bits(0.9)).unwrap();
    assert_eq!((c.pred.as_str(), c.confidence), ("r", bits(1.0)));
    assert_eq!(parse_line("hello", bits(0.9)).unwrap_err(), "no `--rel-->` structure");
    assert_eq!(parse_line("a --b", bits(0.9)).unwrap_err(), "has `--` but no `-->`");
    assert_eq!(parse_line("a -- --> b", bits(0.9)).unwrap_err(), "empty relation");
}

#[test]
fn predicate_lines_parse() {
    let c = parse_line("located(alice, \"src/main.go:42\")", bits(0.9)).unwrap();
    assert_eq!((c.subj.as_str(), c.pred.as_str(), c.obj.as_str()), ("alice", "located", "\"src/main.go:42\""));
    assert_eq!(
        parse_line("located(alice)", bits(0.9)).unwrap_err(),
        "predicate syntax takes exactly 2 args: pred(subject, object); got 1"
    );
    assert!(try_parse_predicate_line("Located(a, b)", bits(0.9)).is_none());
    assert!(try_parse_predicate_line("located(a, b) now", bits(0.9)).is_none());
    assert!(try_parse_predicate_line("(a, b)", bits(0.9)).is_none());
}

#[test]
fn tokens_are_checked() {
    assert_eq!(entity_token_problem("Acme Corp"), None);
    assert_eq!(entity_token_problem(""), Some("empty entity name".to_string()));
    assert_eq!(
        entity_token_problem("She"),
        Some("'She' is a pronoun or role word \u{2014} resolve it to the entity's real name".to_string())
    );
    assert_eq!(
        entity_token_problem("one two three four five six seven eight nine"),
        Some("looks like prose (more than 8 words) \u{2014} entity names are short".to_string())
    );
    assert_eq!(entity_token_problem(&"x".repeat(61)), Some("looks like prose (more than 8 words) \u{2014} entity names are short".to_string()));
    assert_eq!(
        entity_token_problem("a.b"),
        Some("contains punctuation or prose characters \u{2014} entity names use letters, digits, '_', '-', apostrophes".to_string())
    );
    assert!(valid_entity_token("O'Brien-Smith_2"));
    assert!(valid_entity_token("\u{c5}ngstr\u{f6}m"));
    assert!(!valid_entity_token("a, b"));
    assert_eq!(quoted_token_problem("24.7GiB"), None);
    assert_eq!(quoted_token_problem(""), Some("empty entity name".to_string()));
    assert!(quoted_token_problem("You").is_some());
}

#[test]
fn quotes_come_off_in_pairs() {
    assert!(is_quoted("\"a\"") && is_quoted("\"\"") && !is_quoted("\"") && !is_quoted("a"));
    assert_eq!(strip_quotes("\"a b\""), "a b");
    assert_eq!(strip_quotes("\"a"), "\"a");
    assert_eq!(strip_quotes("\"\"a\"\""), "\"a\"");
    assert_eq!(strip_quotes("\"\""), "");
}

#[test]
fn splitting_respects_quotes() {
    assert_eq!(split_unquoted("a, b ,c"), vec!["a", "b", "c"]);
    assert_eq!(split_unquoted(""), vec![""]);
    assert_eq!(split_unquoted("\"a, b\", c"), vec!["\"a, b\"", "c"]);
    assert_eq!(split_unquoted("a,,b"), vec!["a", "", "b"]);
    assert_eq!(split_unquoted("\"open, b"), vec!["\"open, b"]);
}

#[test]
fn lenient_parsing_skips_what_does_not_parse() {
    let fs = parse_protocol("a --r--> b\nnoise\n\nc --s[0.5]--> d.e", bits(0.9));
    assert_eq!(fs.len(), 2);
    assert_eq!(fs[1].obj, "d.e");
    assert_eq!(fs[1].confidence, bits(0.5));
}

#[test]
fn strict_parsing_keeps_clean_edges_only() {
    let fs = parse_protocol_strict("a --r--> b\nwait --is it--> c\nI --likes--> tea\nx --R--> y\nlocated(a, b)\n- a --r--> c?", bits(0.8));
    assert_eq!(fs.len(), 1);
    assert_eq!(fs[0].subj, "a");
    assert_eq!(fs[0].confidence, bits(0.8));
}

#[test]
fn reports_name_every_dropped_line() {
    let (facts, dropped) = parse_protocol_reported("a --r--> b\n\nnoise\nhe --r--> b\na --R--> b\n\"x.y\" --r--> \"\"", bits(0.9));
    assert_eq!(facts.len(), 1);
    assert_eq!(dropped.len(), 4);
    assert_eq!(dropped[0], ("noise".to_string(), "no `--rel-->` structure".to_string()));
    assert!(dropped[1].1.starts_with("'he' is a pronoun"));
    assert_eq!(dropped[2].1, "relation must be lower snake_case (e.g. works_at)");
    assert_eq!(dropped[3].1, "empty entity name");
}

#[test]
fn episodes_are_extracted_once() {
    let mut x = MockExtractor::new(bits(0.7));
    let first = x.extract(&episode("ep1", "a --r--> b"));
    assert_eq!(first.len(), 1);
    assert_eq!(first[0].confidence, bits(0.7));
    let again = x.extract(&episode("ep1", "c --r--> d\ne --r--> f"));
    assert_eq!(again.len(), 1);
    assert_eq!(again[0].subj, "a");
    assert_eq!(x.stats(), (0, 0));
}

#[test]
fn model_extraction_asks_once_and_survives_failure() {
    let mut x = LlmExtractor::new();
    assert_eq!(NINE_TENTHS, bits(0.9));
    let ep = episode("ep1", "Ann joined Acme.");
    match x.request(&ep) {
        Request::Prompt(p) => assert_eq!(p, format!("{EXTRACTION_PROMPT}Ann joined Acme.")),
        Request::Known(_) => panic!("nothing is known yet"),
    }
    let facts = x.accept(&ep, Some("Ann --works_at--> Acme\nthinking...".to_string()));
    assert_eq!(facts.len(), 1);
    assert_eq!(x.stats(), (1, 0));
    match x.request(&ep) {
        Request::Known(fs) => assert_eq!(fs.len(), 1),
        Request::Prompt(_) => panic!("asked twice"),
    }
    assert_eq!(x.stats(), (1, 0));
    let ep2 = episode("ep2", "noise");
    assert!(matches!(x.request(&ep2), Request::Prompt(_)));
    assert!(x.accept(&ep2, None).is_empty());
    assert!(matches!(x.request(&ep2), Request::Known(_)));
    assert_eq!(x.stats(), (2, 1));
}

#[test]
fn reports_agree_with_the_strict_parse_on_edge_lines() {
    let text = "Alice --works_at--> Acme\n\nnot a line\nBob --manager[0.5]--> Carol\nhe --knows--> Dan\nEve --WorksAt--> Acme";
    let (facts, drops) = parse_protocol_reported(text, bits(0.9));
    let strict = parse_protocol_strict(text, bits(0.9));
    let shown = |cs: &Vec<lemmalog::protocol::CandidateFact>| {
        cs.iter().map(|c| (c.subj.clone(), c.pred.clone(), c.obj.clone(), c.confidence)).collect::<Vec<_>>()
    };
    assert_eq!(shown(&facts), shown(&strict));
    assert_eq!(facts.len(), 2);
    assert_eq!(drops.len(), 3);
}

#[test]
fn commas_split_outside_quotes_only() {
    assert_eq!(split_unquoted(" x ,\"a,b\",, y"), vec!["x", "\"a,b\"", "", "y"]);
    assert_eq!(split_unquoted("a\",b\"c,d"), vec!["a\",b\"c", "d"]);
    assert_eq!(split_unquoted("\"a,b"), vec!["\"a,b"]);
    assert_eq!(split_unquoted(","), vec!["", ""]);
}

struct Silent;

impl Extractor for Silent {
    fn extract(&mut self, _episode: &Episode) -> Vec<CandidateFact> {
        Vec::new()
    }
}

#[test]
fn an_extractor_counts_no_calls_by_default() {
    let mut x = Silent;
    assert!(x.extract(&episode("ep1", "alice --likes--> tea")).is_empty());
    assert_eq!(x.stats(), (0, 0));
}

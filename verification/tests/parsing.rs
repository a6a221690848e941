use afrotd::interpret::extract_interpretations;
use afrotd::normalize::preprocess_text;
use afrotd::parser::RulesParser;
use afrotd::rule::{ArticleNr, Marker, ParseError};
use afrotd::segment::extract_rules;

const RULES_END: &str = "Die Abk\u{fc}rzungen R, Ab, Art stehen f\u{fc}r Regel,";

#[test]
fn preprocess_removes_page_breaks() {
    assert_eq!(preprocess_text("Foo-\n\u{c}Bar".to_string()), "FooBar");
    assert_eq!(preprocess_text("Foo\n\u{c}Bar".to_string()), "FooBar");
}

#[test]
fn preprocess_collapses_section_preamble() {
    let out = preprocess_text("Abschnitt 3 Der Ball\nBlah blah.\nArtikel 1.2.3 Titel".to_string());
    assert_eq!(out, "\nArtikel 1.2.3 Titel");
}

#[test]
fn preprocess_is_idempotent_on_its_output() {
    let once = preprocess_text("Abschnitt 3 Der Ball\nBlah blah.\nArtikel 1.2.3 Titel".to_string());
    let twice = preprocess_text(once.clone());
    assert_eq!(twice, once);
}

#[test]
fn preprocess_removes_chapter_cover() {
    // the doubled form feed survives the page-break pass, which runs first
    let out = preprocess_text("a\n\n\u{c}\u{c}Kapitel 1\nDer Titel\n\nrest".to_string());
    assert_eq!(out, "arest");
}

#[test]
fn preprocess_rewrites_known_defects() {
    let out = preprocess_text(
        "Abschnitt 9.1 Pers\u{f6}nliche Fouls\nAlle Spieler".to_string(),
    );
    assert_eq!(out, "Artikel 9.1.0 Pers\u{f6}nliche Fouls\nAlle Spieler");
    let joined = preprocess_text(
        "6.1.3 Ber\u{fc}hren, illegales Ber\u{fc}hren und Recovern eines Free\nKicks".to_string(),
    );
    assert_eq!(
        joined,
        "6.1.3 Ber\u{fc}hren, illegales Ber\u{fc}hren und Recovern eines Free Kicks"
    );
}

#[test]
fn two_articles_are_segmented() {
    let text = format!(
        "Artikel 1.1.1 Titel\nBody text.\nArtikel 1.1.2 Titel2\nBody2.\nZusammenfassung der Strafen\n{}",
        RULES_END
    );
    let rules = extract_rules(&text).unwrap();
    assert_eq!(rules.len(), 2);
    let r1 = rules.get(&ArticleNr(1, 1, 1)).unwrap();
    assert_eq!(r1.title, "Titel");
    assert_eq!(r1.text, "Body text.");
    let r2 = rules.get(&ArticleNr(1, 1, 2)).unwrap();
    assert_eq!(r2.title, "Titel2");
    assert_eq!(r2.text, "Body2.");
    assert!(rules.get(&ArticleNr(1, 1, 3)).is_none());
}

#[test]
fn enumeration_markers_are_tabbed() {
    let text = format!(
        "Artikel 1.1.1 Titel\na) erstes\n1. erstens\nZusammenfassung der Strafen\n{}",
        RULES_END
    );
    let rules = extract_rules(&text).unwrap();
    let r = rules.get(&ArticleNr(1, 1, 1)).unwrap();
    assert_eq!(r.text, "\ta) erstes\n\t\t1. erstens");
}

#[test]
fn inner_lettered_items_and_exceptions() {
    let text = format!(
        "Artikel 1.1.1 Titel\nIntro.\na) erstes\n1. erstens\nx. innen\nAusnahmen:\nSatz.\nZusammenfassung der Strafen\n{}",
        RULES_END
    );
    let rules = extract_rules(&text).unwrap();
    let r = rules.get(&ArticleNr(1, 1, 1)).unwrap();
    assert_eq!(
        r.text,
        "Intro.\n\ta) erstes\n\t\t1. erstens\n\t\t\tx. innen\n\tAusnahmen: Satz."
    );
}

#[test]
fn clipping_items_sit_three_deep() {
    let text = format!(
        "Artikel 1.1.1 Titel\nIntro.\na) flach\nArtikel 9.1.7 Clipping\nIntro.\na) tief\nZusammenfassung der Strafen\n{}",
        RULES_END
    );
    let rules = extract_rules(&text).unwrap();
    let flat = rules.get(&ArticleNr(1, 1, 1)).unwrap();
    assert_eq!(flat.text, "Intro.\n\ta) flach");
    let deep = rules.get(&ArticleNr(9, 1, 7)).unwrap();
    assert_eq!(deep.text, "Intro.\n\t\t\ta) tief");
}

#[test]
fn dedent_returns_to_the_lettered_level() {
    // leaving an inner item goes straight back to depth one
    let text = format!(
        "Artikel 1.1.1 Titel\nIntro.\na) eins\n1. zwei\nx. drei\nb) vier\nZusammenfassung der Strafen\n{}",
        RULES_END
    );
    let rules = extract_rules(&text).unwrap();
    let r = rules.get(&ArticleNr(1, 1, 1)).unwrap();
    assert_eq!(
        r.text,
        "Intro.\n\ta) eins\n\t\t1. zwei\n\t\t\tx. drei\n\tb) vier"
    );
}

#[test]
fn clipping_outside_chapter_nine_stays_flat() {
    let text = format!(
        "Artikel 1.1.1 Clipping\nIntro.\na) flach\nZusammenfassung der Strafen\n{}",
        RULES_END
    );
    let rules = extract_rules(&text).unwrap();
    let r = rules.get(&ArticleNr(1, 1, 1)).unwrap();
    assert_eq!(r.text, "Intro.\n\ta) flach");
}

#[test]
fn blocking_in_the_back_sits_three_deep() {
    let text = format!(
        "Artikel 1.1.1 Titel\nx\nArtikel 2.3.4 Blocken in den R\u{fc}cken\nIntro.\na) tief\nZusammenfassung der Strafen\n{}",
        RULES_END
    );
    let rules = extract_rules(&text).unwrap();
    let r = rules.get(&ArticleNr(2, 3, 4)).unwrap();
    assert_eq!(r.text, "Intro.\n\t\t\ta) tief");
}

#[test]
fn trailing_page_number_is_stripped() {
    let text = format!(
        "Artikel 1.1.1 Titel\nText here 123\nZusammenfassung der Strafen\n{}",
        RULES_END
    );
    let rules = extract_rules(&text).unwrap();
    assert_eq!(rules.get(&ArticleNr(1, 1, 1)).unwrap().text, "Text here");
}

#[test]
fn targeting_notes_are_resplit() {
    let text = format!(
        "Artikel 1.1.1 Titel\nx\nArtikel 9.1.4 Targeting\nIntro.\nAnmerkung 1 Targeting ist verboten.\nZusammenfassung der Strafen\n{}",
        RULES_END
    );
    let rules = extract_rules(&text).unwrap();
    assert_eq!(
        rules.get(&ArticleNr(9, 1, 4)).unwrap().text,
        "Intro. \nAnmerkung 1\nTargeting ist verboten."
    );
}

#[test]
fn duplicate_article_number_keeps_last_rule_in_place() {
    let text = format!(
        "Artikel 1.1.1 Alt\nx\nArtikel 1.1.2 Mitte\ny\nArtikel 1.1.1 Neu\nz\nZusammenfassung der Strafen\n{}",
        RULES_END
    );
    let rules = extract_rules(&text).unwrap();
    assert_eq!(rules.len(), 2);
    // the replacement stays at the first occurrence's position
    assert_eq!(rules.index(0).title, "Neu");
    assert_eq!(rules.index(1).title, "Mitte");
    assert_eq!(rules.get(&ArticleNr(1, 1, 1)).unwrap().text, "z");
}

#[test]
fn segmentation_errors_name_the_missing_anchor() {
    assert_eq!(
        extract_rules(""),
        Err(ParseError::MissingMarker(Marker::RulesStart))
    );
    assert_eq!(
        extract_rules("Artikel 1.1.1 Titel\nBody."),
        Err(ParseError::MissingMarker(Marker::RulesEnd))
    );
    let text = format!("Artikel 1.1.1 Titel\nBody.\n{}", RULES_END);
    assert_eq!(
        extract_rules(&text),
        Err(ParseError::MissingMarker(Marker::EndOfRules))
    );
}

#[test]
fn oversized_article_number_is_rejected() {
    let text = format!(
        "Artikel 1.1.1 Titel\nx\nArtikel 999.1.1 Gross\ny\nZusammenfassung der Strafen\n{}",
        RULES_END
    );
    assert_eq!(
        extract_rules(&text),
        Err(ParseError::InvalidArticleNr("999.1.1".to_string()))
    );
}

#[test]
fn one_interpretation_is_extracted() {
    let text = "\nA.R. 1.3.2.I Situation text Regelung:Ruling text\nTeil IV";
    let im = extract_interpretations(text).unwrap();
    assert_eq!(im.len(), 1);
    let g = im.index(0);
    assert_eq!(g.article_nr, ArticleNr(1, 3, 2));
    assert_eq!(g.items.len(), 1);
    assert_eq!(g.items[0].article_nr, ArticleNr(1, 3, 2));
    assert_eq!(g.items[0].index, 1);
    assert_eq!(g.items[0].text, "Situation text");
    assert_eq!(g.items[0].ruling, "Ruling text");
}

#[test]
fn consecutive_records_share_their_marker() {
    let text = "\nA.R. 1.3.2.I S1 Regelung:R1\nA.R. 1.3.2.IV S4 Regelung:R4\nTeil IV";
    let im = extract_interpretations(text).unwrap();
    assert_eq!(im.len(), 1);
    let g = im.index(0);
    assert_eq!(g.items.len(), 2);
    assert_eq!(g.items[0].index, 1);
    assert_eq!(g.items[0].text, "S1");
    assert_eq!(g.items[0].ruling, "R1");
    assert_eq!(g.items[1].index, 4);
    assert_eq!(g.items[1].text, "S4");
    assert_eq!(g.items[1].ruling, "R4");
}

#[test]
fn heading_noise_before_records_is_collapsed() {
    let text = "Regel 3\nDer Ball\nA.R. 1.3.2.I S Regelung:R\nTeil IV";
    let im = extract_interpretations(text).unwrap();
    assert_eq!(im.len(), 1);
    assert_eq!(im.index(0).items[0].text, "S");
}

#[test]
fn interpretation_errors_name_the_missing_anchor() {
    assert_eq!(
        extract_interpretations(""),
        Err(ParseError::MissingMarker(Marker::InterpretationsStart))
    );
    assert_eq!(
        extract_interpretations("\nA.R. 1.3.2.I S Regelung:R"),
        Err(ParseError::MissingMarker(Marker::InterpretationsEnd))
    );
}

#[test]
fn oversized_roman_index_is_rejected() {
    let big = "X".repeat(26);
    let text = format!(
        "\nA.R. 1.3.2.I S Regelung:R\nA.R. 1.3.2.{} S2 Regelung:R2\nTeil IV",
        big
    );
    assert_eq!(
        extract_interpretations(&text),
        Err(ParseError::InvalidRomanNumeral(big))
    );
}

#[test]
fn parse_attaches_interpretations() {
    let text = format!(
        "Artikel 1.1.1 Erste\nBody1.\nArtikel 1.3.2 Zweite\nBody2.\nZusammenfassung der Strafen\n{}\nA.R. 1.3.2.I Sit Regelung:Rul\nTeil IV",
        RULES_END
    );
    let rules = RulesParser::parse(&text).unwrap();
    assert_eq!(rules.len(), 2);
    let first = rules.get(&ArticleNr(1, 1, 1)).unwrap();
    assert_eq!(first.interpretations.len(), 0);
    let second = rules.get(&ArticleNr(1, 3, 2)).unwrap();
    assert_eq!(second.interpretations.len(), 1);
    assert_eq!(second.interpretations[0].index, 1);
    assert_eq!(second.interpretations[0].text, "Sit");
    assert_eq!(second.interpretations[0].ruling, "Rul");
}

#[test]
fn unmatched_interpretation_fails_the_parse() {
    let text = format!(
        "Artikel 1.1.1 Erste\nBody1.\nZusammenfassung der Strafen\n{}\nA.R. 1.3.2.I Sit Regelung:Rul\nTeil IV",
        RULES_END
    );
    assert_eq!(
        RulesParser::parse(&text),
        Err(ParseError::RuleNotFound(ArticleNr(1, 3, 2)))
    );
}

#[test]
fn preprocess_deletes_stray_running_header() {
    let out = preprocess_text(
        "Vorher\nRegel 9\nVerhalten von Spielern und anderen\nNachher".to_string(),
    );
    assert_eq!(out, "Vorher\n\nNachher");
}

#[test]
fn error_messages_name_the_context() {
    assert_eq!(
        ParseError::MissingMarker(Marker::RulesStart).message(),
        "Could not find 'Artikel 1.1.1' inside the rulebook text"
    );
    assert_eq!(
        ParseError::InvalidArticleNr("999.1.1".to_string()).message(),
        "Invalid article number: 999.1.1"
    );
    assert_eq!(
        ParseError::RuleNotFound(ArticleNr(1, 3, 2)).message(),
        "Could not find rule 1.3.2"
    );
    assert_eq!(ParseError::PathWrongPartCount.message(), "Parameter has to consist of three parts");
}

#[test]
fn parse_interpretations_alone() {
    let text = "\nA.R. 2.10.1.II Sit Regelung:Rul\nA.R. 1.3.2.I S Regelung:R\nTeil IV";
    // region starts at the literal first record, so it must be present
    let text = format!("\nA.R. 1.3.2.I Lead Regelung:LeadR{}", text);
    let im = RulesParser::parse_interpretations(&text).unwrap();
    assert_eq!(im.len(), 2);
    assert_eq!(im.index(0).article_nr, ArticleNr(1, 3, 2));
    assert_eq!(im.index(1).article_nr, ArticleNr(2, 10, 1));
    assert_eq!(im.index(1).items[0].index, 2);
}

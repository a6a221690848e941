use afrotd::rule::{ArticleNr, Marker, ParseError, Rule};

#[test]
fn display_round_trip() {
    let nr = ArticleNr(9, 1, 4);
    let shown = nr.to_display();
    assert_eq!(shown, "9.1.4");
    assert_eq!(ArticleNr::from_str(&shown), Ok(nr));
}

#[test]
fn path_round_trip() {
    let nr = ArticleNr(9, 1, 4);
    let path = nr.to_path_parameter();
    assert_eq!(path, "9-1-4");
    assert_eq!(ArticleNr::from_path_paramter(path), Ok(nr));
}

#[test]
fn round_trip_large_components() {
    let nr = ArticleNr(255, 0, 100);
    assert_eq!(ArticleNr::from_str(&nr.to_display()), Ok(nr));
    assert_eq!(ArticleNr::from_path_paramter(nr.to_path_parameter()), Ok(nr));
}

#[test]
fn from_str_accepts_captured_forms() {
    // the record capture keeps a trailing separator and padding
    assert_eq!(ArticleNr::from_str("1.3.2."), Ok(ArticleNr(1, 3, 2)));
    assert_eq!(ArticleNr::from_str(" 1.3.2 "), Ok(ArticleNr(1, 3, 2)));
}

#[test]
fn from_str_rejects_bad_numbers() {
    assert_eq!(
        ArticleNr::from_str("300.1.1"),
        Err(ParseError::InvalidArticleNr("300.1.1".to_string()))
    );
    assert_eq!(
        ArticleNr::from_str("1.2"),
        Err(ParseError::InvalidArticleNr("1.2".to_string()))
    );
    assert_eq!(
        ArticleNr::from_str("1.2.3.4"),
        Err(ParseError::InvalidArticleNr("1.2.3.4".to_string()))
    );
    assert_eq!(
        ArticleNr::from_str("a.b.c"),
        Err(ParseError::InvalidArticleNr("a.b.c".to_string()))
    );
}

#[test]
fn path_parameter_errors() {
    assert_eq!(
        ArticleNr::from_path_paramter("1-2".to_string()),
        Err(ParseError::PathWrongPartCount)
    );
    assert_eq!(
        ArticleNr::from_path_paramter("5".to_string()),
        Err(ParseError::PathWrongPartCount)
    );
    assert_eq!(
        ArticleNr::from_path_paramter("a-2-3".to_string()),
        Err(ParseError::PathPartsNotInteger)
    );
    // the third part keeps everything after the second dash
    assert_eq!(
        ArticleNr::from_path_paramter("1-2-3-4".to_string()),
        Err(ParseError::PathPartsNotInteger)
    );
    assert_eq!(
        ArticleNr::from_path_paramter("300-1-1".to_string()),
        Err(ParseError::PathPartsNotInteger)
    );
}

#[test]
fn pdf_destinations() {
    assert_eq!(ArticleNr(9, 1, 4).to_pdf_destination(), "subsection.1.9.1.4");
    assert_eq!(ArticleNr(9, 1, 0).to_pdf_destination(), "section.1.9.1");
}

#[test]
fn rule_title_url_description() {
    let rule = Rule {
        article_nr: ArticleNr(9, 1, 4),
        title: "Targeting".to_string(),
        text: "Kurzer Text.\nZweite Zeile.".to_string(),
        interpretations: vec![],
    };
    assert_eq!(rule.to_title(), "9.1.4 Targeting");
    assert_eq!(rule.to_url("https://example.org"), "https://example.org/rule/9-1-4");
    assert_eq!(rule.to_description(), "Kurzer Text....");
}

#[test]
fn description_caps_at_fifty_characters() {
    let line = "abcdefghij".repeat(6);
    let rule = Rule {
        article_nr: ArticleNr(1, 1, 1),
        title: "T".to_string(),
        text: format!("{}\nRest.", line),
        interpretations: vec![],
    };
    let expected = format!("{}...", &line[..50]);
    assert_eq!(rule.to_description(), expected);
}

#[test]
fn marker_values_are_distinct() {
    assert_ne!(Marker::RulesStart, Marker::RulesEnd);
    assert_ne!(Marker::InterpretationsStart, Marker::InterpretationsEnd);
}

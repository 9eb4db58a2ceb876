use press::markup::{
    parse_bold, parse_element, parse_italics, parse_markdown, parse_quote, transform_element,
    ParsedElement,
};

fn chars(text: &str) -> Vec<char> {
    text.chars().collect()
}

#[test]
fn test_parser() {
    let markdown_input = "This is *bold* and _italics_ text.\n\n\tThis is a quoted block.\n\tThat spans multiple lines.\n\n\tHello there\n\n";
    let latex_output = parse_markdown(markdown_input);
    let expected_output = "This is \\textbf{bold} and \\emph{italics} text.\\quote{This is a quoted block.\nThat spans multiple lines.}\\quote{Hello there}\n\n";
    assert_eq!(latex_output, expected_output);
}

#[test]
fn bold_and_italics_are_rewritten() {
    assert_eq!(
        parse_markdown("This is *bold* and _italics_ text."),
        "This is \\textbf{bold} and \\emph{italics} text."
    );
}

#[test]
fn quote_loses_its_tabs_and_keeps_the_blank_line_behind_it() {
    assert_eq!(
        parse_markdown("\n\n\tLine one.\n\tLine two.\n\n"),
        "\\quote{Line one.\nLine two.}\n\n"
    );
}

#[test]
fn span_without_an_end_is_copied() {
    assert_eq!(parse_markdown("*no close"), "*no close");
    assert_eq!(parse_markdown("_no close"), "_no close");
    assert_eq!(
        parse_markdown("\n\n\tno blank line behind"),
        "\n\n\tno blank line behind"
    );
}

#[test]
fn empty_text_stays_empty() {
    assert_eq!(parse_markdown(""), "");
}

#[test]
fn empty_span_is_copied() {
    assert_eq!(parse_markdown("**"), "**");
    assert_eq!(parse_markdown("__ and **b*"), "__ and *\\textbf{b}");
}

#[test]
fn span_may_hold_the_other_delimiter() {
    assert_eq!(parse_markdown("*a_b_c*"), "\\textbf{a_b_c}");
    assert_eq!(parse_markdown("_a*b_c*"), "\\emph{a*b}c*");
}

#[test]
fn quote_may_be_empty() {
    assert_eq!(parse_markdown("\n\n\t\n\n"), "\\quote{}\n\n");
}

#[test]
fn spans_inside_a_quote_are_left_alone() {
    assert_eq!(
        parse_markdown("\n\n\tsay *it*\n\nend"),
        "\\quote{say *it*}\n\nend"
    );
}

#[test]
fn characters_beyond_ascii_are_copied() {
    assert_eq!(parse_markdown("caf\u{e9} *\u{fc}ber* \u{2014}"), "caf\u{e9} \\textbf{\u{fc}ber} \u{2014}");
}

#[test]
fn bold_is_found_where_it_starts() {
    let input = chars("x*ab*y");
    assert!(parse_bold(&input, 0).is_none());
    match parse_bold(&input, 1) {
        Some((ParsedElement::Bold(content), next)) => {
            assert_eq!(content, "ab");
            assert_eq!(next, 5);
        }
        other => panic!("no bold span: {:?}", other),
    }
    assert!(parse_italics(&input, 1).is_none());
    assert!(parse_bold(&input, 6).is_none());
}

#[test]
fn quote_ends_before_its_blank_line() {
    let input = chars("\n\n\ta\tb\n\nrest");
    match parse_quote(&input, 0) {
        Some((ParsedElement::Quote(content), next)) => {
            assert_eq!(content, "ab");
            assert_eq!(next, 6);
        }
        other => panic!("no quote: {:?}", other),
    }
    match parse_element(&input, 0) {
        Some((ParsedElement::Quote(_), next)) => assert_eq!(next, 6),
        other => panic!("no quote: {:?}", other),
    }
    assert!(parse_element(&input, 6).is_none());
}

#[test]
fn each_span_has_its_command() {
    assert_eq!(transform_element(ParsedElement::Bold("b".to_string())), "\\textbf{b}");
    assert_eq!(transform_element(ParsedElement::Italics("i".to_string())), "\\emph{i}");
    assert_eq!(transform_element(ParsedElement::Quote("q".to_string())), "\\quote{q}");
}

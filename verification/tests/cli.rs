use press::cli::{
    argument_parser, is_general_help, is_valid_argument_char, parse, separate_args,
    theme_and_options, variable_help, variables_from_options, ParsedAction,
};
use press::variable::Variable;

fn strings(items: &[&str]) -> Vec<String> {
    items.iter().map(|item| item.to_string()).collect()
}

fn option(key: &str, value: Option<&str>) -> (String, Option<String>) {
    (key.to_string(), value.map(|v| v.to_string()))
}

#[test]
fn option_names_are_made_of_letters_numbers_and_underscores() {
    assert!(is_valid_argument_char('a'));
    assert!(is_valid_argument_char('Z'));
    assert!(is_valid_argument_char('7'));
    assert!(is_valid_argument_char('_'));
    assert!(is_valid_argument_char('\u{e9}'));
    assert!(!is_valid_argument_char('-'));
    assert!(!is_valid_argument_char(' '));
    assert!(!is_valid_argument_char('='));
}

#[test]
fn option_is_opened_by_two_dashes() {
    assert_eq!(argument_parser("--title"), Some("title".to_string()));
    assert_eq!(argument_parser("--a_b=c"), Some("a_b".to_string()));
    assert_eq!(argument_parser("--a-b"), Some("a".to_string()));
    assert_eq!(argument_parser("--\u{e9}t\u{e9}9"), Some("\u{e9}t\u{e9}9".to_string()));
    assert_eq!(argument_parser("--"), None);
    assert_eq!(argument_parser("---x"), None);
    assert_eq!(argument_parser("-x"), None);
    assert_eq!(argument_parser("title"), None);
    assert_eq!(argument_parser(" --title"), None);
    assert_eq!(argument_parser(""), None);
}

#[test]
fn values_go_to_the_option_opened_last() {
    let args = strings(&["--author", "me and myself", "--chapter", "--title", "Hello", "World"]);
    assert_eq!(
        separate_args(&args),
        vec![
            option("author", Some("me and myself")),
            option("chapter", None),
            option("title", Some("World")),
        ]
    );
}

#[test]
fn option_set_again_keeps_its_place() {
    let args = strings(&["--a", "1", "--b", "--a"]);
    assert_eq!(separate_args(&args), vec![option("a", None), option("b", None)]);
}

#[test]
fn value_before_any_option_goes_to_the_empty_name() {
    let args = strings(&["stray", "--a"]);
    assert_eq!(separate_args(&args), vec![option("", Some("stray")), option("a", None)]);
    assert_eq!(separate_args(&[]), vec![]);
}

#[test]
fn general_help_is_asked_without_a_theme() {
    assert!(is_general_help(&strings(&[])));
    assert!(is_general_help(&strings(&["press"])));
    assert!(is_general_help(&strings(&["press", "--help"])));
    assert!(is_general_help(&strings(&["press", "-h", "more"])));
    assert!(!is_general_help(&strings(&["press", "novel"])));
    assert!(!is_general_help(&strings(&["press", "novel", "--help"])));
}

#[test]
fn theme_is_the_second_argument() {
    let (theme, options) = theme_and_options(&strings(&["press", "novel", "--draft"]));
    assert_eq!(theme, "novel");
    assert_eq!(options, vec![option("draft", None)]);
    let (theme, options) = theme_and_options(&strings(&["press", "novel"]));
    assert_eq!(theme, "novel");
    assert!(options.is_empty());
}

#[test]
fn options_become_variables() {
    let variables =
        variables_from_options(vec![option("title", Some("Hello")), option("draft", None)]);
    assert_eq!(variables.len(), 2);
    assert_eq!(variables[0].name, "title");
    assert_eq!(variables[0].value, Some("Hello".to_string()));
    assert!(!variables[0].is_boolean);
    assert_eq!(variables[0].comment, None);
    assert_eq!(variables[1].name, "draft");
    assert_eq!(variables[1].value, None);
    assert!(variables[1].is_boolean);
}

#[test]
fn command_line_without_theme_asks_for_help() {
    assert!(matches!(parse(strings(&["press"])), ParsedAction::Help));
    assert!(matches!(parse(strings(&["press", "--help", "novel"])), ParsedAction::Help));
    assert!(matches!(parse(strings(&["press", "-h"])), ParsedAction::Help));
    assert!(matches!(parse(strings(&[])), ParsedAction::Help));
}

#[test]
fn help_option_asks_for_the_help_of_the_theme() {
    match parse(strings(&["press", "novel", "--title", "x", "--help"])) {
        ParsedAction::ThemeHelp { name } => assert_eq!(name, "novel"),
        other => panic!("not the theme's help: {:?}", other),
    }
}

#[test]
fn theme_is_applied_with_its_variables() {
    match parse(strings(&["press", "novel", "--author", "me and myself", "--chapter", "--title", "Hello"])) {
        ParsedAction::Theme { name, variables } => {
            assert_eq!(name, "novel");
            let shown: Vec<(String, Option<String>, bool)> = variables
                .iter()
                .map(|v| (v.name.clone(), v.value.clone(), v.is_boolean))
                .collect();
            assert_eq!(
                shown,
                vec![
                    ("author".to_string(), Some("me and myself".to_string()), false),
                    ("chapter".to_string(), None, true),
                    ("title".to_string(), Some("Hello".to_string()), false),
                ]
            );
        }
        other => panic!("not a theme: {:?}", other),
    }
}

fn described(name: &str, comment: Option<&str>) -> Variable {
    Variable {
        name: name.to_string(),
        value: None,
        is_boolean: false,
        comment: comment.map(|c| c.to_string()),
    }
}

#[test]
fn help_sets_the_comments_in_one_column() {
    let variables = vec![
        described("title", Some("The title")),
        described("a", Some("Short")),
        described("bare", None),
    ];
    assert_eq!(
        variable_help(&variables),
        vec!["  --title   The title", "  --a       Short", "  --bare    "]
    );
    assert!(variable_help(&Vec::new()).is_empty());
}

#[test]
fn help_counts_the_longest_name_in_bytes_and_fills_in_characters() {
    let variables = vec![described("\u{e9}", Some("x")), described("ab", Some("y"))];
    assert_eq!(variable_help(&variables), vec!["  --\u{e9}    x", "  --ab   y"]);
    for variable in &variables {
        let line = format!(
            "  --{:width$}{}",
            variable.name,
            variable.comment.clone().unwrap_or("".to_string()),
            width = 5
        );
        assert!(variable_help(&variables).contains(&line));
    }
}

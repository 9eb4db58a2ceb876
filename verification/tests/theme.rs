use press::parser_tex::{boolean_parser, comment_parser, latex_parser, variable_parser};
use press::scan::{is_acceptable_key, is_acceptable_value, run_end, CharClass};
use press::settings::{theme_dir, variables_file};
use press::theme::{read_theme_variables, theme_variables, ThemeError};

fn chars(text: &str) -> Vec<char> {
    text.chars().collect()
}

fn strings(items: &[&str]) -> Vec<String> {
    items.iter().map(|item| item.to_string()).collect()
}

#[test]
fn names_and_values_have_their_characters() {
    assert!(is_acceptable_key('k'));
    assert!(is_acceptable_key('_'));
    assert!(is_acceptable_key('3'));
    assert!(!is_acceptable_key('}'));
    assert!(!is_acceptable_key(' '));
    assert!(is_acceptable_value(' '));
    assert!(is_acceptable_value('{'));
    assert!(!is_acceptable_value('}'));
    assert!(!is_acceptable_value('%'));
}

#[test]
fn runs_end_at_the_first_character_of_another_kind() {
    let input = chars("  \tab_1-x % c\r\n");
    assert_eq!(run_end(&input, 0, CharClass::Blank), 3);
    assert_eq!(run_end(&input, 3, CharClass::Word), 7);
    assert_eq!(run_end(&input, 7, CharClass::Word), 7);
    assert_eq!(run_end(&input, 3, CharClass::Value), 10);
    assert_eq!(run_end(&input, 10, CharClass::Line), 13);
    assert_eq!(run_end(&input, 15, CharClass::Line), 15);
    assert!(CharClass::Word.contains('\u{e9}'));
    assert!(!CharClass::Word.contains('\t'));
    assert!(CharClass::Blank.contains('\t'));
    assert!(!CharClass::Value.contains('%'));
    assert!(!CharClass::Line.contains('\r'));
}

#[test]
fn comment_runs_to_the_end_of_the_line() {
    let input = chars("x \t% the title\nnext");
    assert_eq!(comment_parser(&input, 1), Some(" the title".to_string()));
    assert_eq!(comment_parser(&input, 3), Some(" the title".to_string()));
    assert_eq!(comment_parser(&input, 0), None);
    assert_eq!(comment_parser(&input, 4), None);
    assert_eq!(comment_parser(&chars("%"), 0), Some("".to_string()));
    assert_eq!(comment_parser(&chars(""), 0), None);
}

#[test]
fn variable_is_declared_with_its_value() {
    let (used, variable) = latex_parser("  \\newcommand{\\title}{My Book}  % The title").unwrap();
    assert_eq!(used, 30);
    assert_eq!(variable.name, "title");
    assert_eq!(variable.value, Some("My Book".to_string()));
    assert!(!variable.is_boolean);
    assert_eq!(variable.comment, Some(" The title".to_string()));
}

#[test]
fn variable_may_lack_name_value_and_comment() {
    let (used, variable) = latex_parser("\\newcommand{\\}{}").unwrap();
    assert_eq!(used, 16);
    assert_eq!(variable.name, "");
    assert_eq!(variable.value, Some("".to_string()));
    assert_eq!(variable.comment, None);
}

#[test]
fn switch_is_declared_without_a_value() {
    let (used, variable) = latex_parser("\\newif\\ifdraft% Marks a draft\r").unwrap();
    assert_eq!(used, 14);
    assert_eq!(variable.name, "draft");
    assert_eq!(variable.value, None);
    assert!(variable.is_boolean);
    assert_eq!(variable.comment, Some(" Marks a draft".to_string()));
}

#[test]
fn other_lines_declare_nothing() {
    assert!(latex_parser("").is_none());
    assert!(latex_parser("\\newcommand{\\title}{unclosed").is_none());
    assert!(latex_parser("\\newcommand{\\title}{50% off}").is_none());
    assert!(latex_parser("\\newcommand{\\ti-tle}{x}").is_none());
    assert!(latex_parser("\\newcommand{\\title} {x}").is_none());
    assert!(latex_parser("x\\newif\\ifdraft").is_none());
    assert!(latex_parser("\\renewcommand{\\title}{x}").is_none());
}

#[test]
fn parsers_read_from_where_they_are_told() {
    let input = chars("ab \\newif\\ifx \\newcommand{\\k}{v}");
    let (next, variable) = boolean_parser(&input, 2).unwrap();
    assert_eq!(next, 13);
    assert_eq!(variable.name, "x");
    assert!(boolean_parser(&input, 0).is_none());
    let (next, variable) = variable_parser(&input, 13).unwrap();
    assert_eq!(next, 32);
    assert_eq!(variable.name, "k");
    assert_eq!(variable.value, Some("v".to_string()));
    assert!(variable_parser(&input, 2).is_none());
}

#[test]
fn variables_file_is_read_line_by_line() {
    let content = "% Variables of the theme\n\\newcommand{\\title}{Untitled} % The title\r\n\n\\newif\\ifdraft % Draft mode\nnoise\n  \\newcommand{\\author}{}\n";
    let variables = read_theme_variables(content);
    assert_eq!(variables.len(), 3);
    assert_eq!(variables[0].name, "title");
    assert_eq!(variables[0].value, Some("Untitled".to_string()));
    assert_eq!(variables[0].comment, Some(" The title".to_string()));
    assert_eq!(variables[1].name, "draft");
    assert!(variables[1].is_boolean);
    assert_eq!(variables[1].comment, Some(" Draft mode".to_string()));
    assert_eq!(variables[2].name, "author");
    assert_eq!(variables[2].value, Some("".to_string()));
    assert_eq!(variables[2].comment, None);
    assert!(read_theme_variables("").is_empty());
}

#[test]
fn theme_must_be_available() {
    let themes = strings(&["novel", "paper"]);
    let variables = theme_variables("paper", &themes, "\\newif\\ifdraft\n").unwrap();
    assert_eq!(variables.len(), 1);
    match theme_variables("poem", &themes, "\\newif\\ifdraft\n") {
        Err(ThemeError::NotFound { theme, available }) => {
            assert_eq!(theme, "poem");
            assert_eq!(available, themes);
        }
        Ok(_) => panic!("a theme that is not there gave variables"),
    }
}

#[test]
fn theme_has_its_directory_and_its_variables_file() {
    assert_eq!(theme_dir("/home/me/.press/themes", "novel"), "/home/me/.press/themes/novel");
    assert_eq!(
        variables_file("/home/me/.press/themes", "novel"),
        "/home/me/.press/themes/novel/variables.tex"
    );
}

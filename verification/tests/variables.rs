use press::variable::{
    find_variable, merge_and_validate_variables, separate_variables, update_variables,
    validate_variables, variables_by_name, write_variables, Variable, VariableError,
};

fn value(name: &str, value: &str) -> Variable {
    Variable {
        name: name.to_string(),
        value: Some(value.to_string()),
        is_boolean: false,
        comment: None,
    }
}

fn switch(name: &str) -> Variable {
    Variable { name: name.to_string(), value: None, is_boolean: true, comment: None }
}

fn shown(variables: &Vec<Variable>) -> Vec<(String, Option<String>, bool)> {
    variables
        .iter()
        .map(|v| (v.name.clone(), v.value.clone(), v.is_boolean))
        .collect()
}

#[test]
fn variable_is_found_by_its_name() {
    let variables = vec![value("a", "1"), switch("b"), value("a", "2")];
    assert_eq!(find_variable(&variables, &"a".to_string()), 0);
    assert_eq!(find_variable(&variables, &"b".to_string()), 1);
    assert_eq!(find_variable(&variables, &"c".to_string()), 3);
}

#[test]
fn new_variable_takes_the_place_of_the_old_or_comes_last() {
    let mut existing = vec![value("title", "Old"), value("author", "Me"), switch("draft")];
    update_variables(
        &mut existing,
        vec![value("author", "You"), value("date", "today"), value("date", "now")],
    );
    assert_eq!(
        shown(&existing),
        shown(&vec![
            value("title", "Old"),
            value("author", "You"),
            switch("draft"),
            value("date", "now"),
        ])
    );
}

#[test]
fn known_variables_are_laid_over_the_declared_ones() {
    let mut existing = vec![value("title", "Old"), switch("draft")];
    let result = validate_variables(&mut existing, vec![value("draft", "yes"), value("title", "New")]);
    assert!(result.is_ok());
    assert_eq!(
        shown(&existing),
        shown(&vec![value("title", "New"), value("draft", "yes")])
    );
}

#[test]
fn unknown_variable_is_refused_and_nothing_changes() {
    let mut existing = vec![value("title", "Old")];
    let result = validate_variables(
        &mut existing,
        vec![value("title", "New"), value("colour", "red"), value("size", "9")],
    );
    match result {
        Err(VariableError::Unrecognized(name)) => assert_eq!(name, "colour"),
        Ok(()) => panic!("an undeclared variable was taken"),
    }
    assert_eq!(shown(&existing), shown(&vec![value("title", "Old")]));
}

#[test]
fn command_line_goes_over_the_user_file_and_both_over_the_theme() {
    let merged = merge_and_validate_variables(
        vec![value("title", "T"), value("author", "A"), switch("draft")],
        vec![value("author", "file"), value("title", "file")],
        vec![value("title", "cli"), switch("draft")],
    )
    .unwrap();
    assert_eq!(
        shown(&merged),
        shown(&vec![value("title", "cli"), value("author", "file"), switch("draft")])
    );
}

#[test]
fn merging_refuses_what_the_theme_does_not_declare() {
    let result = merge_and_validate_variables(
        vec![value("title", "T")],
        vec![value("title", "file")],
        vec![switch("verbose")],
    );
    match result {
        Err(VariableError::Unrecognized(name)) => assert_eq!(name, "verbose"),
        Ok(_) => panic!("an undeclared variable was taken"),
    }
}

#[test]
fn each_name_is_kept_once_with_its_last_value() {
    let unique = variables_by_name(vec![value("a", "1"), value("b", "2"), value("a", "3")]);
    assert_eq!(shown(&unique), shown(&vec![value("a", "3"), value("b", "2")]));
}

#[test]
fn switches_are_parted_from_values() {
    let (switches, values) =
        separate_variables(vec![value("a", "1"), switch("x"), value("b", "2"), switch("y")]);
    assert_eq!(shown(&switches), shown(&vec![switch("x"), switch("y")]));
    assert_eq!(shown(&values), shown(&vec![value("a", "1"), value("b", "2")]));
}

#[test]
fn variables_are_written_as_definitions() {
    let variables = vec![
        value("title", "My Book"),
        switch("draft"),
        value("dir", "content/"),
        value("depth", "chapter"),
        value("extension", "txt"),
        Variable { name: "empty".to_string(), value: None, is_boolean: false, comment: None },
        Variable {
            name: "both".to_string(),
            value: Some("x".to_string()),
            is_boolean: true,
            comment: None,
        },
    ];
    assert_eq!(
        write_variables(&variables),
        "\\renewcommand{\\title}{My Book}\n\n\\drafttrue\n\\bothtrue\n"
    );
    assert_eq!(write_variables(&Vec::new()), "");
}

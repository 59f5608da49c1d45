use code2prompt::template::extract_placeholders;

#[test]
fn test_extract_placeholders_simple() {
    let template_str = "{{greeting}}, {{name}}! Your project is {{project_name}}.";
    let mut variables = extract_placeholders(template_str).unwrap();
    variables.sort();
    assert_eq!(variables, vec!["greeting", "name", "project_name"]);
}

#[test]
fn test_extract_placeholders_ignores_builtins_and_paths() {
    let template_str = r#"
            Project: {{absolute_code_path}}
            {{#each files}}
                Path: {{this.path}}
            {{/each}}
            User var: {{goal}}
            Diff: {{git_diff}}
        "#;
    let variables = extract_placeholders(template_str).unwrap();
    // Should only find 'goal', as the others are built-in or complex paths.
    assert_eq!(variables, vec!["goal"]);
}

#[test]
fn test_extract_placeholders_handles_duplicates() {
    let template_str = "{{greeting}}, {{name}}! How is {{name}} today?";
    let mut variables = extract_placeholders(template_str).unwrap();
    variables.sort();
    // `name` should only appear once in the output.
    assert_eq!(variables, vec!["greeting", "name"]);
}

#[test]
fn placeholders_in_order_of_appearance() {
    let variables = extract_placeholders("{{b}} {{a}} {{b}} {{code}}").unwrap();
    assert_eq!(variables, vec!["b", "a"]);
}

#[test]
fn unparsable_template_is_an_error() {
    assert!(extract_placeholders("{{#if x}} unclosed").is_err());
    assert_eq!(extract_placeholders("no variables here").unwrap(), Vec::<String>::new());
}

use dot_templater::{Config, ConfigValue, ParseError};

fn lines(text: &[&str]) -> Vec<String> {
    text.iter().map(|s| s.to_string()).collect()
}

fn pair(key: &str, value: &str) -> (String, String) {
    (key.to_string(), value.to_string())
}

#[test]
fn blank_lines_and_comments_declare_nothing() {
    assert_eq!(Config::parse_line("", None), Ok(None));
    assert_eq!(Config::parse_line("   \t", None), Ok(None));
    assert_eq!(Config::parse_line("# a comment", None), Ok(None));
    assert_eq!(Config::parse_line("   #foo=bar", None), Ok(None));
}

#[test]
fn a_line_without_equals_sign_is_a_feature() {
    assert_eq!(
        Config::parse_line("baz", None),
        Ok(Some(ConfigValue::Feature("baz".to_string())))
    );
    assert_eq!(
        Config::parse_line("  work laptop \n", None),
        Ok(Some(ConfigValue::Feature("work laptop".to_string())))
    );
}

#[test]
fn the_first_equals_sign_parts_key_and_value() {
    assert_eq!(
        Config::parse_line("foo=bar", None),
        Ok(Some(ConfigValue::Substitution { key: "foo".to_string(), value: "bar".to_string() }))
    );
    assert_eq!(
        Config::parse_line("a=b=c", None),
        Ok(Some(ConfigValue::Substitution { key: "a".to_string(), value: "b=c".to_string() }))
    );
    assert_eq!(
        Config::parse_line("  key = value  ", None),
        Ok(Some(ConfigValue::Substitution { key: "key".to_string(), value: " value".to_string() }))
    );
    assert_eq!(
        Config::parse_line("=x", None),
        Ok(Some(ConfigValue::Substitution { key: "".to_string(), value: "x".to_string() }))
    );
    assert_eq!(
        Config::parse_line("x=", None),
        Ok(Some(ConfigValue::Substitution { key: "x".to_string(), value: "".to_string() }))
    );
}

#[test]
fn the_key_is_trimmed_and_the_value_is_not() {
    assert_eq!(
        Config::parse_line("foo = bar", None),
        Ok(Some(ConfigValue::Substitution { key: "foo".to_string(), value: " bar".to_string() }))
    );
    assert_eq!(
        Config::parse_line("\tfoo \t\u{a0}=\tbar baz", None),
        Ok(Some(ConfigValue::Substitution {
            key: "foo".to_string(),
            value: "\tbar baz".to_string()
        }))
    );
    assert_eq!(
        Config::parse_line("a b = c", None),
        Ok(Some(ConfigValue::Substitution { key: "a b".to_string(), value: " c".to_string() }))
    );
    assert_eq!(
        Config::parse_line("  = x", None),
        Ok(Some(ConfigValue::Substitution { key: "".to_string(), value: " x".to_string() }))
    );
}

#[test]
fn the_key_of_a_shell_value_is_trimmed() {
    assert_eq!(Config::shell_command("host  =SHELL hostname"), Some("hostname".to_string()));
    assert_eq!(
        Config::parse_line("host  =SHELL hostname", Some("box\n")),
        Ok(Some(ConfigValue::Substitution { key: "host".to_string(), value: "box".to_string() }))
    );
}

#[test]
fn keys_that_differ_only_in_whitespace_around_them_are_one_key() {
    let config = Config::new(lines(&["foo=1", "foo =2", " foo\t= 3"]), Vec::new()).unwrap();
    assert_eq!(config.substitutions(), &vec![pair("foo", " 3")]);
}

#[test]
fn the_output_is_ignored_where_no_command_is_asked_for() {
    assert_eq!(
        Config::parse_line("foo=bar", Some("other")),
        Ok(Some(ConfigValue::Substitution { key: "foo".to_string(), value: "bar".to_string() }))
    );
    assert_eq!(Config::parse_line("# note", Some("other")), Ok(None));
}

#[test]
fn a_shell_value_names_its_command() {
    assert_eq!(Config::shell_command("host=SHELL hostname -s"), Some("hostname -s".to_string()));
    assert_eq!(Config::shell_command("  host=SHELL  echo hi  "), Some(" echo hi".to_string()));
    assert_eq!(Config::shell_command("host=SHELL "), None);
    assert_eq!(Config::shell_command("host=SHELL x"), Some("x".to_string()));
    assert_eq!(Config::shell_command("host=SHELLhostname"), None);
    assert_eq!(Config::shell_command("host= SHELL hostname"), None);
    assert_eq!(Config::shell_command("host=shell hostname"), None);
    assert_eq!(Config::shell_command("SHELL hostname"), None);
    assert_eq!(Config::shell_command("# host=SHELL hostname"), None);
    assert_eq!(Config::shell_command("foo=bar"), None);
}

#[test]
fn a_shell_value_is_the_trimmed_output() {
    assert_eq!(
        Config::parse_line("host=SHELL hostname", Some("  box\n")),
        Ok(Some(ConfigValue::Substitution { key: "host".to_string(), value: "box".to_string() }))
    );
    assert_eq!(
        Config::parse_line("host=SHELL hostname", Some("")),
        Ok(Some(ConfigValue::Substitution { key: "host".to_string(), value: "".to_string() }))
    );
}

#[test]
fn a_shell_value_without_output_is_an_error() {
    assert_eq!(Config::parse_line("host=SHELL hostname", None), Err(ParseError::ShellExecution));
}

#[test]
fn a_rules_file_declares_features_and_substitutions() {
    let config = Config::new(lines(&["foo=bar", "baz"]), Vec::new()).unwrap();
    assert_eq!(config.features(), &vec!["baz".to_string()]);
    assert_eq!(config.substitutions(), &vec![pair("foo", "bar")]);
    assert!(config.is_enabled("baz"));
    assert!(!config.is_enabled("foo"));
    assert!(!config.is_enabled("Baz"));
    assert!(!config.is_enabled(""));
}

#[test]
fn an_empty_rules_file_declares_nothing() {
    let config = Config::new(Vec::new(), Vec::new()).unwrap();
    assert!(config.features().is_empty());
    assert!(config.substitutions().is_empty());
    let empty = Config::empty();
    assert!(empty.features().is_empty());
    assert!(empty.substitutions().is_empty());
}

#[test]
fn a_later_substitution_overwrites_an_earlier_one_in_place() {
    let config = Config::new(lines(&["a=1", "b=2", "a=3", "c=4", "b=5"]), Vec::new()).unwrap();
    assert_eq!(config.substitutions(), &vec![pair("a", "3"), pair("b", "5"), pair("c", "4")]);
}

#[test]
fn a_feature_declared_twice_is_held_once() {
    let config = Config::new(lines(&["gui", "work", "gui", " gui "]), Vec::new()).unwrap();
    assert_eq!(config.features(), &vec!["gui".to_string(), "work".to_string()]);
}

#[test]
fn each_shell_line_takes_the_output_beside_it() {
    let text = lines(&["# rules", "host=SHELL hostname", "gui", "user=SHELL whoami", "x=y"]);
    let outputs = vec![
        Some("ignored".to_string()),
        Some("box\n".to_string()),
        None,
        Some(" me ".to_string()),
    ];
    let config = Config::new(text, outputs).unwrap();
    assert_eq!(config.features(), &vec!["gui".to_string()]);
    assert_eq!(
        config.substitutions(),
        &vec![pair("host", "box"), pair("user", "me"), pair("x", "y")]
    );
}

#[test]
fn a_missing_output_fails_the_whole_file() {
    let text = lines(&["a=1", "host=SHELL hostname", "b=2"]);
    assert!(matches!(Config::new(text, vec![None, None, None]), Err(ParseError::ShellExecution)));
    let text = lines(&["a=1", "host=SHELL hostname", "b=2"]);
    assert!(matches!(Config::new(text, Vec::new()), Err(ParseError::ShellExecution)));
    let text = lines(&["a=1", "host=SHELL hostname", "b=2"]);
    assert!(matches!(
        Config::new(text, vec![None, Some("box".to_string())]),
        Ok(_)
    ));
}

#[test]
fn parsing_the_same_text_twice_gives_equal_configurations() {
    let text = ["# c", "foo=bar", "baz", "", "foo=qux", "  gui", "k=v=w"];
    let first = Config::new(lines(&text), Vec::new()).unwrap();
    let second = Config::new(lines(&text), vec![Some("x".to_string()); 7]).unwrap();
    assert_eq!(first.features(), second.features());
    assert_eq!(first.substitutions(), second.substitutions());
    assert_eq!(first.features(), &vec!["baz".to_string(), "gui".to_string()]);
    assert_eq!(first.substitutions(), &vec![pair("foo", "qux"), pair("k", "v=w")]);
}

#[test]
fn declare_adds_one_value() {
    let config = Config::empty()
        .declare(ConfigValue::Feature("gui".to_string()))
        .declare(ConfigValue::Substitution { key: "a".to_string(), value: "1".to_string() })
        .declare(ConfigValue::Feature("gui".to_string()))
        .declare(ConfigValue::Substitution { key: "a".to_string(), value: "2".to_string() });
    assert_eq!(config.features(), &vec!["gui".to_string()]);
    assert_eq!(config.substitutions(), &vec![pair("a", "2")]);
}

#[test]
fn a_parse_error_says_what_failed() {
    assert_eq!(ParseError::ShellExecution.message(), "a shell command gave no output");
}

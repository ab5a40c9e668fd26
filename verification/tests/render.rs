use dot_templater::text::char_is_whitespace;
use dot_templater::Config;
use regex::Regex;

fn lines(text: &[&str]) -> Vec<String> {
    text.iter().map(|s| s.to_string()).collect()
}

fn config(rules: &[&str]) -> Config {
    Config::new(lines(rules), Vec::new()).unwrap()
}

#[test]
fn a_marker_names_its_feature() {
    assert_eq!(Config::get_feature("### baz"), Some("baz"));
    assert_eq!(Config::get_feature("   ###   work laptop  "), Some("work laptop"));
    assert_eq!(Config::get_feature("\t### x=y"), Some("x=y"));
    assert_eq!(Config::get_feature("### ### x"), Some("### x"));
}

#[test]
fn a_marker_may_have_any_whitespace_after_the_signs() {
    assert_eq!(Config::get_feature("###\tbaz"), Some("baz"));
    assert_eq!(Config::get_feature("###\u{a0}baz"), Some("baz"));
    assert_eq!(Config::get_feature("\u{3000}###\u{2003}baz\u{85}"), Some("baz"));
}

#[test]
fn a_marker_may_name_the_empty_feature() {
    assert_eq!(Config::get_feature("### "), Some(""));
    assert_eq!(Config::get_feature("###\t  "), Some(""));
}

#[test]
fn other_lines_are_no_markers() {
    assert_eq!(Config::get_feature(""), None);
    assert_eq!(Config::get_feature("###"), None);
    assert_eq!(Config::get_feature("###baz"), None);
    assert_eq!(Config::get_feature("## baz"), None);
    assert_eq!(Config::get_feature("#### baz"), None);
    assert_eq!(Config::get_feature("x ### baz"), None);
    assert_eq!(Config::get_feature("# ## baz"), None);
    assert_eq!(Config::get_feature("hello foo"), None);
}

#[test]
fn substitutions_replace_keys_by_values() {
    let config = config(&["foo=bar", "baz"]);
    assert_eq!(config.template_file(&lines(&["hello foo"])), "hello bar\n");
    assert_eq!(config.substitute("foo foofoo"), "bar barbar");
}

#[test]
fn an_enabled_region_is_kept_and_its_markers_dropped() {
    let config = config(&["foo=bar", "baz"]);
    let template = lines(&["before", "### baz", "enabled-line", "### baz", "after"]);
    assert_eq!(config.template_file(&template), "before\nenabled-line\nafter\n");
}

#[test]
fn a_disabled_region_is_dropped() {
    let config = config(&["foo=bar"]);
    let template = lines(&["before", "### baz", "enabled-line", "### baz", "after"]);
    assert_eq!(config.template_file(&template), "before\nafter\n");
}

#[test]
fn an_empty_template_renders_to_nothing() {
    assert_eq!(config(&["foo=bar"]).template_file(&Vec::new()), "");
    assert_eq!(config(&[]).template_file(&lines(&["### a", "### a"])), "");
}

#[test]
fn a_line_without_any_key_is_unchanged() {
    let config = config(&["foo=bar", "key=value"]);
    assert_eq!(config.substitute("nothing here"), "nothing here");
    assert_eq!(config.substitute(""), "");
    assert_eq!(config.template_file(&lines(&["nothing here", ""])), "nothing here\n\n");
}

#[test]
fn substitutions_apply_in_the_order_of_declaration() {
    assert_eq!(config(&["a=b", "b=c"]).substitute("ab"), "cc");
    assert_eq!(config(&["b=c", "a=b"]).substitute("ab"), "bc");
    assert_eq!(config(&["a=b", "b=c", "a=x"]).substitute("ab"), "xc");
    assert_eq!(config(&["foo=1", "foobar=2"]).substitute("foobar"), "1bar");
    assert_eq!(config(&["foobar=2", "foo=1"]).substitute("foobar foo"), "2 1");
}

#[test]
fn a_value_is_not_searched_for_its_own_key() {
    assert_eq!(config(&["a=aa"]).substitute("a-a"), "aa-aa");
}

#[test]
fn an_empty_key_goes_between_all_characters() {
    assert_eq!(config(&["=."]).substitute("ab"), ".a.b.");
}

#[test]
fn regions_nest() {
    let text = lines(&["0", "### a", "1", "### b", "2", "### b", "3", "### a", "4"]);
    assert_eq!(config(&["a", "b"]).template_file(&text), "0\n1\n2\n3\n4\n");
    assert_eq!(config(&["a"]).template_file(&text), "0\n1\n3\n4\n");
    assert_eq!(config(&["b"]).template_file(&text), "0\n4\n");
    assert_eq!(config(&[]).template_file(&text), "0\n4\n");
}

#[test]
fn a_marker_closes_only_the_region_on_top() {
    let text = lines(&["### a", "1", "### b", "2", "### a", "3", "### a", "4", "### b", "5"]);
    assert_eq!(config(&["a", "b"]).template_file(&text), "1\n2\n3\n4\n5\n");
    assert_eq!(config(&["b"]).template_file(&text), "");
    assert_eq!(config(&["a"]).template_file(&text), "1\n5\n");
}

#[test]
fn a_region_left_open_runs_to_the_end() {
    let text = lines(&["before", "### baz", "inside", "more"]);
    assert_eq!(config(&[]).template_file(&text), "before\n");
    assert_eq!(config(&["baz"]).template_file(&text), "before\ninside\nmore\n");
}

#[test]
fn a_marker_repeated_three_times_leaves_a_region_open() {
    let text = lines(&["### x", "1", "### x", "2", "### x", "3"]);
    assert_eq!(config(&[]).template_file(&text), "2\n");
    assert_eq!(config(&["x"]).template_file(&text), "1\n2\n3\n");
}

#[test]
fn a_repeated_marker_closes_what_the_first_opened() {
    let text = lines(&["### off", "### x", "a", "### x", "b", "### off", "### x", "c", "### x", "d"]);
    assert_eq!(config(&["x"]).template_file(&text), "c\nd\n");
    assert_eq!(config(&["off"]).template_file(&text), "b\nd\n");
}

#[test]
fn content_is_emitted_only_while_every_open_region_is_enabled() {
    let text = lines(&["### on", "### off", "hidden", "### off", "shown", "### on"]);
    assert_eq!(config(&["on"]).template_file(&text), "shown\n");
    assert_eq!(config(&["off"]).template_file(&text), "");
    assert_eq!(config(&["on", "off"]).template_file(&text), "hidden\nshown\n");
}

#[test]
fn markers_are_read_before_substitutions_apply() {
    let config = config(&["baz=qux", "qux"]);
    let text = lines(&["### baz", "baz", "### baz", "### qux", "baz", "### qux"]);
    assert_eq!(config.template_file(&text), "qux\n");
}

#[test]
fn feature_names_are_matched_exactly() {
    let config = config(&["Baz"]);
    assert_eq!(config.template_file(&lines(&["### baz", "x", "### baz"])), "");
    assert_eq!(config.template_file(&lines(&["### Baz", "x", "### Baz"])), "x\n");
    assert_eq!(config.template_file(&lines(&["###   Baz  ", "x", "\t### Baz"])), "x\n");
}

#[test]
fn the_empty_feature_is_never_enabled() {
    let config = config(&["a"]);
    assert_eq!(config.template_file(&lines(&["### ", "x", "### ", "y"])), "y\n");
}

#[test]
fn whitespace_in_a_pattern_is_the_unicode_property() {
    let class = Regex::new("^\\s$").unwrap();
    let mut code: u32 = 0;
    let mut buffer = [0u8; 4];
    while code <= 0x10ffff {
        if let Some(c) = char::from_u32(code) {
            assert_eq!(class.is_match(c.encode_utf8(&mut buffer)), char_is_whitespace(c));
        }
        code += 1;
    }
}

fn marker_by_hand(line: &str) -> Option<&str> {
    let mut rest = line.trim_start().chars();
    let signs = rest.next() == Some('#') && rest.next() == Some('#') && rest.next() == Some('#');
    if signs && rest.next().map_or(false, |c| c.is_whitespace()) {
        Some(line.trim()[3..].trim())
    } else {
        None
    }
}

#[test]
fn markers_are_found_as_defined_on_every_short_line() {
    let alphabet = [' ', '\t', '#', 'a', '\n'];
    let mut lines = vec![String::new()];
    let mut from = 0;
    for _ in 0..5 {
        let upto = lines.len();
        for i in from..upto {
            for c in alphabet {
                let mut line = lines[i].clone();
                line.push(c);
                lines.push(line);
            }
        }
        from = upto;
    }
    assert_eq!(lines.len(), 3906);
    for line in &lines {
        assert_eq!(Config::get_feature(line), marker_by_hand(line));
    }
}

fn render_by_hand(features: &[&str], substitutions: &[(&str, &str)], lines: &[String]) -> String {
    let mut stack: Vec<(String, bool)> = Vec::new();
    let mut out = String::new();
    for line in lines {
        match marker_by_hand(line) {
            Some(name) => {
                if stack.last().map_or(false, |top| top.0 == name) {
                    stack.pop();
                } else {
                    stack.push((name.to_string(), features.contains(&name)));
                }
            }
            None => {
                if stack.iter().all(|frame| frame.1) {
                    let mut text = line.clone();
                    for (key, value) in substitutions {
                        text = text.replace(key, value);
                    }
                    out.push_str(&text);
                    out.push('\n');
                }
            }
        }
    }
    out
}

#[test]
fn every_short_template_renders_as_defined() {
    let kinds = ["a b", "### x", " ###\ty ", "x=y", "###"];
    let mut templates: Vec<Vec<String>> = vec![Vec::new()];
    let mut from = 0;
    for _ in 0..4 {
        let upto = templates.len();
        for i in from..upto {
            for kind in kinds {
                let mut template = templates[i].clone();
                template.push(kind.to_string());
                templates.push(template);
            }
        }
        from = upto;
    }
    assert_eq!(templates.len(), 781);
    let enabled = config(&["x", "a=x", "x=b"]);
    let disabled = config(&["b=###", "y"]);
    for template in &templates {
        assert_eq!(
            enabled.template_file(template),
            render_by_hand(&["x"], &[("a", "x"), ("x", "b")], template)
        );
        assert_eq!(
            disabled.template_file(template),
            render_by_hand(&["y"], &[("b", "###")], template)
        );
    }
}

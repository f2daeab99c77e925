use path_editor::encoding::{select_encoding, ValueEncoding, REG_EXPAND_SZ_CODE, REG_SZ_CODE};
use path_editor::expand::{expand_env_vars, has_env_token, token_names, Environment};

fn env_of(pairs: &[(&str, &str)]) -> Environment {
    let mut env = Environment::new();
    for (k, v) in pairs {
        env.set(k, v);
    }
    env
}

#[test]
fn token_is_found() {
    assert!(has_env_token("%SystemRoot%\\System32"));
}

#[test]
fn plain_path_has_no_token() {
    assert!(!has_env_token("C:\\Tools"));
}

#[test]
fn single_percent_is_no_token() {
    assert!(!has_env_token("50%"));
    assert!(!has_env_token("%"));
    assert!(!has_env_token("%abc"));
}

#[test]
fn empty_name_is_no_token() {
    assert!(!has_env_token("%%"));
    assert!(!has_env_token("a%%b"));
    assert!(!has_env_token(""));
}

#[test]
fn token_after_empty_pair_is_found() {
    assert!(has_env_token("%%a%"));
    assert!(has_env_token("x;%A%;y"));
    assert!(has_env_token("%a%%"));
}

#[test]
fn token_may_span_entries() {
    assert!(has_env_token("50%;60%"));
}

#[test]
fn token_needs_no_set_variable() {
    assert!(has_env_token("%NoSuchVariableAnywhere%"));
}

#[test]
fn expand_replaces_set_variable() {
    let env = env_of(&[("SystemRoot", "C:\\Windows")]);
    assert_eq!(expand_env_vars("%SystemRoot%\\System32", &env), "C:\\Windows\\System32");
}

#[test]
fn expand_leaves_unset_variable() {
    let env = env_of(&[("SystemRoot", "C:\\Windows")]);
    assert_eq!(expand_env_vars("%Nope%\\bin", &env), "%Nope%\\bin");
}

#[test]
fn expand_leaves_malformed_tokens() {
    let env = env_of(&[("A", "1")]);
    assert_eq!(expand_env_vars("50%", &env), "50%");
    assert_eq!(expand_env_vars("%%", &env), "%%");
    assert_eq!(expand_env_vars("%A", &env), "%A");
    assert_eq!(expand_env_vars("", &env), "");
}

#[test]
fn expand_after_empty_pair() {
    let env = env_of(&[("A", "1")]);
    assert_eq!(expand_env_vars("%%A%", &env), "%1");
}

#[test]
fn expand_consumes_tokens_left_to_right() {
    let env = env_of(&[("A", "1"), ("B", "2")]);
    assert_eq!(expand_env_vars("%A%B%", &env), "1B%");
    assert_eq!(expand_env_vars("%A%%B%", &env), "12");
    assert_eq!(expand_env_vars("x%A%y%B%z", &env), "x1y2z");
}

#[test]
fn expand_is_a_single_pass() {
    let env = env_of(&[("A", "%B%"), ("B", "x")]);
    assert_eq!(expand_env_vars("%A%", &env), "%B%");
}

#[test]
fn expand_with_empty_value() {
    let env = env_of(&[("E", "")]);
    assert_eq!(expand_env_vars("a%E%b", &env), "ab");
}

#[test]
fn expand_matches_names_exactly() {
    let env = env_of(&[("Path", "p")]);
    assert_eq!(expand_env_vars("%Path%;%PATH%", &env), "p;%PATH%");
}

#[test]
fn expand_without_token_is_identity() {
    let env = env_of(&[("A", "1")]);
    for s in ["C:\\Tools", "50%", "a%%b", "日本語"] {
        assert!(!has_env_token(s));
        assert_eq!(expand_env_vars(s, &env), s);
    }
}

#[test]
fn environment_keeps_last_binding() {
    let mut env = Environment::new();
    assert_eq!(env.get("A"), None);
    env.set("A", "1");
    env.set("B", "2");
    env.set("A", "3");
    assert_eq!(env.get("A"), Some("3".to_string()));
    assert_eq!(env.get("B"), Some("2".to_string()));
    assert_eq!(env.get("a"), None);
    assert_eq!(expand_env_vars("%A%%B%", &env), "32");
}

#[test]
fn token_names_in_order() {
    assert_eq!(token_names("%A%;x;%B%\\y;%A%"), vec!["A".to_string(), "B".to_string(), "A".to_string()]);
    assert_eq!(token_names("%A%B%"), vec!["A".to_string()]);
    assert_eq!(token_names("%%A%"), vec!["A".to_string()]);
    assert_eq!(token_names("50%"), Vec::<String>::new());
    assert_eq!(token_names("a%%b"), Vec::<String>::new());
    assert_eq!(token_names("50%;%%"), vec![";".to_string()]);
}

#[test]
fn token_names_are_all_that_expansion_reads() {
    let text = "%A%\\x;%B%;%C";
    let full = env_of(&[("A", "1"), ("B", "2"), ("C", "3"), ("D", "4")]);
    let mut small = Environment::new();
    for name in token_names(text) {
        if let Some(v) = full.get(&name) {
            small.set(&name, &v);
        }
    }
    assert_eq!(expand_env_vars(text, &small), expand_env_vars(text, &full));
    assert_eq!(expand_env_vars(text, &small), "1\\x;2;%C");
}

#[test]
fn encoding_is_expandable_with_token() {
    assert_eq!(select_encoding("%SystemRoot%\\System32", ValueEncoding::Plain), ValueEncoding::Expandable);
    assert_eq!(select_encoding("C:\\A;%SystemRoot%", ValueEncoding::Other), ValueEncoding::Expandable);
    assert_eq!(select_encoding("%SystemRoot%", ValueEncoding::Expandable), ValueEncoding::Expandable);
}

#[test]
fn encoding_stays_plain_without_token() {
    assert_eq!(select_encoding("C:\\Tools", ValueEncoding::Plain), ValueEncoding::Plain);
}

#[test]
fn encoding_stays_expandable_without_token() {
    assert_eq!(select_encoding("C:\\Tools", ValueEncoding::Expandable), ValueEncoding::Expandable);
}

#[test]
fn encoding_defaults_to_plain() {
    assert_eq!(select_encoding("C:\\Tools", ValueEncoding::Other), ValueEncoding::Plain);
    assert_eq!(select_encoding("50%", ValueEncoding::Other), ValueEncoding::Plain);
}

#[test]
fn encoding_codes() {
    assert_eq!(REG_SZ_CODE, 1);
    assert_eq!(REG_EXPAND_SZ_CODE, 2);
    assert_eq!(ValueEncoding::from_code(1), ValueEncoding::Plain);
    assert_eq!(ValueEncoding::from_code(2), ValueEncoding::Expandable);
    assert_eq!(ValueEncoding::from_code(0), ValueEncoding::Other);
    assert_eq!(ValueEncoding::from_code(3), ValueEncoding::Other);
    assert_eq!(ValueEncoding::from_code(7), ValueEncoding::Other);
    assert_eq!(ValueEncoding::Plain.code(), Some(1));
    assert_eq!(ValueEncoding::Expandable.code(), Some(2));
    assert_eq!(ValueEncoding::Other.code(), None);
}

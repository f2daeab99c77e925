use path_editor::expand::Environment;
use path_editor::normalize::{dedupe, normalize_for_compare, sort_case_insensitive};

fn strings(items: &[&str]) -> Vec<String> {
    items.iter().map(|s| s.to_string()).collect()
}

#[test]
fn key_folds_case() {
    let env = Environment::new();
    assert_eq!(normalize_for_compare("C:\\Tools", &env), "c:\\tools");
    assert_eq!(normalize_for_compare("ÀÉ", &env), "àé");
}

#[test]
fn key_turns_slashes() {
    let env = Environment::new();
    assert_eq!(normalize_for_compare("C:/Tools/bin", &env), "c:\\tools\\bin");
}

#[test]
fn key_strips_trailing_backslashes() {
    let env = Environment::new();
    assert_eq!(normalize_for_compare("C:\\Tools\\\\\\", &env), "c:\\tools");
    assert_eq!(normalize_for_compare("C:/Tools//", &env), "c:\\tools");
    assert_eq!(normalize_for_compare("\\\\", &env), "");
}

#[test]
fn key_trims_before_stripping() {
    let env = Environment::new();
    assert_eq!(normalize_for_compare("  C:\\Tools\\  ", &env), "c:\\tools");
    assert_eq!(normalize_for_compare("C:\\Tools\\ \\", &env), "c:\\tools\\ ");
}

#[test]
fn key_expands_tokens() {
    let mut env = Environment::new();
    env.set("SystemRoot", "C:\\Windows");
    assert_eq!(normalize_for_compare("%SystemRoot%/System32/", &env), "c:\\windows\\system32");
    assert_eq!(normalize_for_compare("%Unset%\\X", &env), "%unset%\\x");
}

#[test]
fn dedupe_keeps_first_occurrence() {
    let env = Environment::new();
    assert_eq!(dedupe(&strings(&["C:\\A", "C:\\B", "c:\\a"]), &env), strings(&["C:\\A", "C:\\B"]));
}

#[test]
fn dedupe_keeps_original_text() {
    let env = Environment::new();
    assert_eq!(dedupe(&strings(&["C:/Tools/", "c:\\tools", "C:\\TOOLS\\"]), &env), strings(&["C:/Tools/"]));
}

#[test]
fn dedupe_sees_through_tokens() {
    let mut env = Environment::new();
    env.set("SystemRoot", "C:\\Windows");
    let parts = strings(&["%SystemRoot%\\System32", "C:\\Windows\\system32", "D:\\x", "%SystemRoot%/System32/"]);
    assert_eq!(dedupe(&parts, &env), strings(&["%SystemRoot%\\System32", "D:\\x"]));
    let none = Environment::new();
    assert_eq!(dedupe(&parts, &none), strings(&["%SystemRoot%\\System32", "C:\\Windows\\system32", "D:\\x"]));
}

#[test]
fn dedupe_of_nothing() {
    let env = Environment::new();
    assert_eq!(dedupe(&[], &env), Vec::<String>::new());
}

#[test]
fn dedupe_without_duplicates_changes_nothing() {
    let env = Environment::new();
    let parts = strings(&["C:\\A", "C:\\B", "C:\\AB"]);
    assert_eq!(dedupe(&parts, &env), parts);
}

#[test]
fn dedupe_twice_is_dedupe_once() {
    let mut env = Environment::new();
    env.set("A", "c:\\a");
    let lists = [
        strings(&["C:\\A", "C:\\B", "c:\\a", "%A%", "C:/b/", "x", "X", "x\\"]),
        strings(&["a", "a", "a"]),
        strings(&[]),
    ];
    for xs in lists.iter() {
        let once = dedupe(xs, &env);
        assert_eq!(dedupe(&once, &env), once);
    }
}

#[test]
fn sort_folds_case() {
    let mut parts = strings(&["b", "C", "a"]);
    sort_case_insensitive(&mut parts);
    assert_eq!(parts, strings(&["a", "b", "C"]));
}

#[test]
fn sort_is_stable() {
    let mut parts = strings(&["b", "A", "a", "B", "a", "A"]);
    sort_case_insensitive(&mut parts);
    assert_eq!(parts, strings(&["A", "a", "a", "A", "b", "B"]));
}

#[test]
fn sort_does_not_normalize_slashes_or_tokens() {
    let mut parts = strings(&["c:\\b", "C:/a", "%z%", "c:\\a\\", "C:\\A"]);
    sort_case_insensitive(&mut parts);
    assert_eq!(parts, strings(&["%z%", "C:/a", "C:\\A", "c:\\a\\", "c:\\b"]));
}

#[test]
fn sort_puts_prefix_first() {
    let mut parts = strings(&["ab", "a", "", "abc"]);
    sort_case_insensitive(&mut parts);
    assert_eq!(parts, strings(&["", "a", "ab", "abc"]));
}

#[test]
fn sort_agrees_with_std() {
    let lists = [
        strings(&["D:\\x", "c:\\Windows", "C:\\windows", "é", "E", "日本", "\u{1F600}", "z", "Z", "a b", "a"]),
        strings(&["b", "a", "B", "A", "b", "a"]),
        strings(&[]),
        strings(&["only"]),
    ];
    for xs in lists.iter() {
        let mut expected = xs.clone();
        expected.sort_by_cached_key(|p| p.to_lowercase());
        let mut got = xs.clone();
        sort_case_insensitive(&mut got);
        assert_eq!(got, expected);
    }
}

#[test]
fn sort_twice_is_sort_once() {
    let lists = [
        strings(&["b", "A", "a", "B", "a", "A"]),
        strings(&["C:\\z", "c:\\Z", "C:\\a", "%x%"]),
    ];
    for xs in lists.iter() {
        let mut once = xs.clone();
        sort_case_insensitive(&mut once);
        let mut twice = once.clone();
        sort_case_insensitive(&mut twice);
        assert_eq!(twice, once);
    }
}

#[test]
fn sort_of_a_slice_part() {
    let mut parts = strings(&["z", "c", "B", "a", "y"]);
    sort_case_insensitive(&mut parts[1..4]);
    assert_eq!(parts, strings(&["z", "a", "B", "c", "y"]));
}

#[test]
fn dedupe_keeps_the_first_of_each_key_in_order() {
    let env = Environment::new();
    let parts = strings(&["x", "Y", "X", "y\\", "z", "Z/", "x"]);
    assert_eq!(dedupe(&parts, &env), strings(&["x", "Y", "z"]));
}

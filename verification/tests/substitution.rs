use dwarf_shader_language::shader_objects::ShaderCode;
use dwarf_shader_language::shader_objects::ShaderStructObject;
use dwarf_shader_language::substitution::contains_str;
use dwarf_shader_language::substitution::directive_for;
use dwarf_shader_language::substitution::edit_shader_code;
use dwarf_shader_language::substitution::replace_all;

fn expand(body: &str, frags: &Vec<ShaderStructObject>) -> String {
    let mut sc = ShaderCode::new("s".to_string(), "s.vert".to_string(), body.to_string());
    edit_shader_code(&mut sc, frags);
    sc.data
}

#[test]
fn directive_shape() {
    assert_eq!(directive_for("Foo"), format!("{}{}", "#inc", "lude Foo"));
    assert_eq!(directive_for(""), format!("{}{}", "#inc", "lude "));
}

#[test]
fn constructors_keep_fields() {
    let f = ShaderStructObject::new("Light".to_string(), "struct Light;".to_string());
    assert_eq!(f.token, "Light");
    assert_eq!(f.data, "struct Light;");
    let c = ShaderCode::new("a".to_string(), "a.vert".to_string(), "void main(){}".to_string());
    assert_eq!(c.file_name, "a");
    assert_eq!(c.file_name_ext, "a.vert");
    assert_eq!(c.data, "void main(){}");
}

#[test]
fn contains_str_cases() {
    assert!(contains_str("void main(){}", "main"));
    assert!(contains_str("abc", "abc"));
    assert!(contains_str("abc", ""));
    assert!(!contains_str("abc", "abcd"));
    assert!(!contains_str("", "a"));
    assert!(contains_str("", ""));
}

#[test]
fn replace_all_matches_standard_replace() {
    let cases: Vec<(&str, &str, &str)> = vec![
        ("xxabyy", "ab", "Z"),
        ("aaa", "aa", "b"),
        ("abab", "ab", ""),
        ("no match here", "zz", "yy"),
        ("ababab", "ab", "ba"),
        ("h\u{e9}llo h\u{e9}llo", "\u{e9}", "e"),
        ("", "a", "b"),
    ];
    for (text, pat, rep) in cases {
        assert_eq!(replace_all(text, pat, rep), text.replace(pat, rep));
    }
}

#[test]
fn expand_single_fragment() {
    let frags = vec![ShaderStructObject::new(
        "Light".to_string(),
        "struct Light { vec3 pos; };".to_string(),
    )];
    let body = format!("{}\nvoid main(){{}}", directive_for("Light"));
    assert_eq!(expand(&body, &frags), "struct Light { vec3 pos; };\nvoid main(){}");
}

#[test]
fn expand_keeps_name_fields() {
    let frags = vec![ShaderStructObject::new("V".to_string(), "vec3 v;".to_string())];
    let mut sc = ShaderCode::new("c".to_string(), "c.vert".to_string(), directive_for("V"));
    edit_shader_code(&mut sc, &frags);
    assert_eq!(sc.file_name, "c");
    assert_eq!(sc.file_name_ext, "c.vert");
    assert_eq!(sc.data, "vec3 v;");
}

#[test]
fn no_fragments_leaves_body() {
    let frags: Vec<ShaderStructObject> = vec![];
    let body = directive_for("Foo");
    assert_eq!(expand(&body, &frags), body);
}

#[test]
fn no_directive_leaves_body() {
    let frags = vec![ShaderStructObject::new("Light".to_string(), "struct L;".to_string())];
    assert_eq!(expand("void main(){}", &frags), "void main(){}");
}

#[test]
fn unknown_token_is_kept() {
    let frags = vec![ShaderStructObject::new("Bar".to_string(), "int b;".to_string())];
    let body = format!("{}\n{}", directive_for("Foo"), directive_for("Bar"));
    let expected = format!("{}\nint b;", directive_for("Foo"));
    assert_eq!(expand(&body, &frags), expected);
}

#[test]
fn double_occurrence_both_replaced() {
    let frags = vec![ShaderStructObject::new("Vec".to_string(), "vec3 v;".to_string())];
    let body = format!("{}\n{}", directive_for("Vec"), directive_for("Vec"));
    assert_eq!(expand(&body, &frags), "vec3 v;\nvec3 v;");
}

#[test]
fn first_fragment_with_token_wins() {
    let frags = vec![
        ShaderStructObject::new("A".to_string(), "one".to_string()),
        ShaderStructObject::new("A".to_string(), "two".to_string()),
    ];
    let body = format!("x {} y", directive_for("A"));
    assert_eq!(expand(&body, &frags), "x one y");
}

#[test]
fn fragments_apply_in_store_order() {
    // The first fragment's text still holds the second one's directive, so a
    // later fragment resolves it in the same pass.
    let frags = vec![
        ShaderStructObject::new("A".to_string(), format!("a {}", directive_for("B"))),
        ShaderStructObject::new("B".to_string(), "b".to_string()),
    ];
    let body = directive_for("A");
    assert_eq!(expand(&body, &frags), "a b");
    // In the other store order the inner directive stays unresolved.
    let frags_rev = vec![
        ShaderStructObject::new("B".to_string(), "b".to_string()),
        ShaderStructObject::new("A".to_string(), format!("a {}", directive_for("B"))),
    ];
    assert_eq!(expand(&body, &frags_rev), format!("a {}", directive_for("B")));
}

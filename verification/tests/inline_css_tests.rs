use loomgui_core::inline_css::{css_decls, join_css_parts, rel_is_stylesheet};

fn pairs(v: &[(&str, &str)]) -> Vec<(String, String)> {
    v.iter().map(|(a, b)| (a.to_string(), b.to_string())).collect()
}

#[test]
fn css_decls_splits_and_trims() {
    assert_eq!(
        css_decls("width:100px;height:50px;background-color:#ff0000"),
        pairs(&[("width", "100px"), ("height", "50px"), ("background-color", "#ff0000")])
    );
    assert_eq!(css_decls(" width : 100px ; "), pairs(&[("width", "100px")]));
}

#[test]
fn css_decls_ignores_empty_and_malformed() {
    assert_eq!(css_decls("   ;  ; "), pairs(&[]));
    assert_eq!(css_decls("noscolon"), pairs(&[]));
    assert_eq!(css_decls("noscolon;width:200px"), pairs(&[("width", "200px")]));
    assert_eq!(css_decls(""), pairs(&[]));
}

#[test]
fn css_decls_cuts_at_first_colon() {
    assert_eq!(css_decls("background-image:url(a:b)"), pairs(&[("background-image", "url(a:b)")]));
    assert_eq!(css_decls(":x"), pairs(&[("", "x")]));
    assert_eq!(css_decls("unknown-prop:42px;width:100px"), pairs(&[("unknown-prop", "42px"), ("width", "100px")]));
}

#[test]
fn rel_names_stylesheet_in_any_ascii_case() {
    assert!(rel_is_stylesheet("stylesheet"));
    assert!(rel_is_stylesheet("StyleSheet"));
    assert!(rel_is_stylesheet("preload stylesheet"));
    assert!(rel_is_stylesheet("  stylesheet\tpreload "));
    assert!(!rel_is_stylesheet("icon"));
    assert!(!rel_is_stylesheet("stylesheets"));
    assert!(!rel_is_stylesheet("alt-stylesheet"));
    assert!(!rel_is_stylesheet(""));
}

#[test]
fn css_parts_trimmed_blank_dropped_joined_by_lines() {
    let parts = vec![" .a { color: red; } ".to_string(), "   ".to_string(), "\n.b { color: blue; }".to_string()];
    assert_eq!(join_css_parts(&parts), ".a { color: red; }\n.b { color: blue; }");
    assert_eq!(join_css_parts(&vec![]), "");
    assert_eq!(join_css_parts(&vec!["  ".to_string()]), "");
}

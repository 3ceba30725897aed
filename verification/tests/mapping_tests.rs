use loomgui_core::dump::json_escape;
use loomgui_core::mapping::{iter_transform_funcs, parse_overflow, parse_url};
use loomgui_core::resolved::OverflowMode;

#[test]
fn parse_url_extracts_path() {
    assert_eq!(parse_url("url(icons/home.png)"), Some("icons/home.png".into()));
    assert_eq!(parse_url("url(\"icons/home.png\")"), Some("icons/home.png".into()));
    assert_eq!(parse_url("url('icons/home.png')"), Some("icons/home.png".into()));
    assert_eq!(parse_url("url( icons/home.png )"), Some("icons/home.png".into()), "spaces tolerated");
    assert_eq!(parse_url("icons/home.png"), None, "not url() -> None");
    assert_eq!(parse_url("url()"), None, "empty url -> None");
    assert_eq!(parse_url(""), None);
    assert_eq!(parse_url("url(')"), Some("'".to_string()), "lone single quote kept");
    assert_eq!(parse_url("url(\")"), Some("\"".to_string()), "lone double quote kept");
}

#[test]
fn parse_url_quotes_must_match() {
    assert_eq!(parse_url("url(\"a.png')"), Some("\"a.png'".to_string()));
    assert_eq!(parse_url("url(\" \")"), None, "only spaces inside quotes");
    assert_eq!(parse_url("  url(x.png)  "), Some("x.png".into()));
    assert_eq!(parse_url("URL(x.png)"), None, "prefix is case-sensitive");
}

#[test]
fn overflow_keywords() {
    assert_eq!(parse_overflow("visible"), Some(OverflowMode::Visible));
    assert_eq!(parse_overflow(" hidden "), Some(OverflowMode::Hidden));
    assert_eq!(parse_overflow("scroll"), Some(OverflowMode::Scroll));
    assert_eq!(parse_overflow("auto"), Some(OverflowMode::Auto));
    assert_eq!(parse_overflow("bogus"), None);
    assert_eq!(parse_overflow("Hidden"), None);
}

#[test]
fn transform_funcs_split() {
    let f = iter_transform_funcs("translate(10px,20px) rotate(45deg)");
    assert_eq!(
        f,
        vec![("translate".to_string(), "10px,20px".to_string()), ("rotate".to_string(), "45deg".to_string())]
    );
}

#[test]
fn transform_funcs_stop_without_paren() {
    assert_eq!(iter_transform_funcs("scale(2) junk rotate(1deg)"), vec![("scale".to_string(), "2".to_string())]);
    assert_eq!(iter_transform_funcs(""), vec![]);
    assert_eq!(iter_transform_funcs("  scale ( 2 , 3 )"), vec![("scale".to_string(), " 2 , 3 ".to_string())]);
    assert_eq!(iter_transform_funcs("(1) scale(2)"), vec![("scale".to_string(), "2".to_string())]);
    assert_eq!(iter_transform_funcs("rotate(5deg"), vec![("rotate".to_string(), "5deg".to_string())]);
}

#[test]
fn json_escape_quotes_and_controls() {
    assert_eq!(json_escape("a\"b"), "a\\\"b");
    assert_eq!(json_escape("c:\\x"), "c:\\\\x");
    assert_eq!(json_escape("l1\nl2\r\t"), "l1\\nl2\\r\\t");
    assert_eq!(json_escape("\u{1}\u{1f}"), "\\u0001\\u001F");
    assert_eq!(json_escape("plain é"), "plain é");
}

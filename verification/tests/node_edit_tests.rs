use loomgui_core::node::{kind_from_tag, set_src, set_text, NodeKind};

#[test]
fn dynamic_set_text_changes_content_and_marks_dirty() {
    let mut kind = kind_from_tag("span").unwrap();
    let mut dirty_text = false;
    set_text(&mut kind, &mut dirty_text, "hello").unwrap();
    assert!(dirty_text);
    match &kind {
        NodeKind::Text { content } => assert_eq!(content, "hello"),
        _ => panic!("expected Text"),
    }
}

#[test]
fn set_text_rejects_non_text() {
    let mut kind = kind_from_tag("div").unwrap();
    let mut dirty_text = false;
    let r = set_text(&mut kind, &mut dirty_text, "x");
    assert!(r.is_err());
    assert_eq!(r.unwrap_err(), "set_text 只对 Text 节点生效");
    assert!(!dirty_text);
    assert!(matches!(kind, NodeKind::Container));
}

#[test]
fn set_src_changes_src_and_marks_dirty_mesh() {
    let mut kind = kind_from_tag("img").unwrap();
    let mut dirty_mesh = false;
    set_src(&mut kind, &mut dirty_mesh, "icon.png").unwrap();
    assert!(dirty_mesh);
    match &kind {
        NodeKind::Image { src } => assert_eq!(src, "icon.png"),
        _ => panic!("expected Image"),
    }
}

#[test]
fn set_src_rejects_non_image() {
    let mut kind = kind_from_tag("div").unwrap();
    let mut dirty_mesh = false;
    let r = set_src(&mut kind, &mut dirty_mesh, "x");
    assert!(r.is_err());
    assert_eq!(r.unwrap_err(), "set_src 只对 Image 节点生效");
    assert!(!dirty_mesh);
}

#[test]
fn set_text_on_image_and_set_src_on_text_are_refused() {
    let mut img = kind_from_tag("img").unwrap();
    let mut flag = false;
    assert!(set_text(&mut img, &mut flag, "x").is_err());
    let mut text = kind_from_tag("span").unwrap();
    assert!(set_src(&mut text, &mut flag, "x").is_err());
    assert!(!flag);
}

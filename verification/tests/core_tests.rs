use loomgui_core::node::{kind_from_tag, NodeId, NodeKind};
use loomgui_core::resolved::{capable, OverflowMode};
use loomgui_core::texture::TextureRegistry;
use loomgui_core::version;

#[test]
fn version_is_set() {
    assert_eq!(version(), "v0-skeleton");
}

#[test]
fn register_assigns_monotonic_ids_starting_at_1() {
    let mut r = TextureRegistry::default();
    assert_eq!(r.register("a.png", 10, 20), 1);
    assert_eq!(r.register("b.png", 30, 40), 2);
    assert_eq!(r.register("c.png", 50, 60), 3);
}

#[test]
fn register_is_idempotent_on_src_first_dims_win() {
    let mut r = TextureRegistry::default();
    assert_eq!(r.register("a.png", 10, 20), 1);
    assert_eq!(r.register("a.png", 999, 999), 1);
    assert_eq!(r.register("b.png", 1, 1), 2);
    let m = r.get("a.png").unwrap();
    assert_eq!((m.tex_id, m.width, m.height), (1, 10, 20));
}

#[test]
fn get_miss_returns_none() {
    let r = TextureRegistry::default();
    assert!(r.get("nope.png").is_none());
}

#[test]
fn clear_resets_ids_and_map() {
    let mut r = TextureRegistry::default();
    r.register("a.png", 1, 1);
    r.register("b.png", 2, 2);
    r.clear();
    assert!(r.get("a.png").is_none());
    assert_eq!(r.register("c.png", 3, 3), 1);
}

#[test]
fn zero_is_never_assigned() {
    let mut r = TextureRegistry::default();
    for i in 0..10 {
        assert_ne!(r.register(&format!("f{i}.png"), 1, 1), 0);
    }
}

#[test]
fn registry_is_empty_until_first_register() {
    let mut r = TextureRegistry::new();
    assert!(r.is_empty());
    r.register("a.png", 4, 4);
    assert!(!r.is_empty());
    r.clear();
    assert!(r.is_empty());
}

#[test]
fn kind_from_tag_maps_fence_whitelist() {
    assert!(matches!(kind_from_tag("div").unwrap(), NodeKind::Container));
    assert!(matches!(kind_from_tag("button").unwrap(), NodeKind::Button));
    assert!(matches!(kind_from_tag("img").unwrap(), NodeKind::Image { .. }));
    assert!(matches!(kind_from_tag("span").unwrap(), NodeKind::Text { .. }));
}

#[test]
fn kind_from_tag_unknown_returns_err() {
    assert!(kind_from_tag("ul").is_err());
    assert!(kind_from_tag("l-container").is_err());
    assert!(kind_from_tag("").is_err());
}

#[test]
fn node_id_index_and_gen_decode() {
    let id = NodeId((5 << 12) | 7);
    assert_eq!(id.index(), 5);
    assert_eq!(id.gen(), 7);
}

#[test]
fn node_id_invalid_sentinel() {
    assert!(!NodeId::invalid().is_valid());
    assert!(NodeId(0).is_valid());
}

#[test]
fn node_id_index_capacity_20bit() {
    let max_idx = (1u32 << 20) - 1;
    let id = NodeId(max_idx << 12);
    assert_eq!(id.index(), max_idx as usize);
}

#[test]
fn node_id_from_parts_roundtrip() {
    let id = NodeId::from_parts(123, 45);
    assert_eq!(id.index(), 123);
    assert_eq!(id.gen(), 45);
    assert!(id.is_valid());
}

#[test]
fn overflow_mode_is_one_byte() {
    assert_eq!(std::mem::size_of::<OverflowMode>(), 1);
}

#[test]
fn capable_only_for_scrolling_modes() {
    assert!(!capable(OverflowMode::Visible));
    assert!(!capable(OverflowMode::Hidden));
    assert!(capable(OverflowMode::Scroll));
    assert!(capable(OverflowMode::Auto));
}

use loomgui_core::asset::{build_registry, normalize_path, AtlasInfo, AtlasSection, AtlasSprite};
use loomgui_core::texture::UvPoint;

fn uv(p: UvPoint) -> [f32; 2] {
    [p.u.num as f32 / p.u.den as f32, p.v.num as f32 / p.v.den as f32]
}

#[test]
fn build_registry_maps_sprites_to_atlas_zero_tex_id_one() {
    let section = AtlasSection {
        atlases: vec![AtlasInfo { filename: "a.png".into(), width: 512, height: 256 }],
        sprites: vec![
            AtlasSprite { src: "s1.png".into(), x: 0, y: 0, w: 64, h: 32 },
            AtlasSprite { src: "s2.png".into(), x: 64, y: 32, w: 100, h: 200 },
        ],
    };
    let reg = build_registry(&section);
    let m1 = reg.get("s1.png").expect("s1 registered");
    assert_eq!(m1.tex_id, 1);
    assert_eq!(uv(m1.uv_min), [0.0, (256.0 - 32.0) / 256.0]);
    assert_eq!(uv(m1.uv_max), [64.0 / 512.0, (256.0 - 0.0) / 256.0]);
    assert_eq!((m1.width, m1.height), (64, 32));
}

#[test]
fn build_registry_empty_atlases_returns_empty() {
    let section = AtlasSection::default();
    let reg = build_registry(&section);
    assert!(reg.is_empty());
}

#[test]
fn build_registry_second_sprite_uv_exact() {
    let section = AtlasSection {
        atlases: vec![AtlasInfo { filename: "a.png".into(), width: 512, height: 256 }],
        sprites: vec![AtlasSprite { src: "s2.png".into(), x: 64, y: 32, w: 100, h: 200 }],
    };
    let m = build_registry(&section).get("s2.png").unwrap();
    assert_eq!((m.uv_min.u.num, m.uv_min.u.den), (64, 512));
    assert_eq!((m.uv_min.v.num, m.uv_min.v.den), (24, 256));
    assert_eq!((m.uv_max.u.num, m.uv_max.u.den), (164, 512));
    assert_eq!((m.uv_max.v.num, m.uv_max.v.den), (224, 256));
}

#[test]
fn normalize_path_strips_res_prefix() {
    assert_eq!(normalize_path("res/icons/skin.png", "res"), Some("icons/skin.png".into()));
    assert_eq!(normalize_path("./res/icons/skin.png", "res"), Some("icons/skin.png".into()));
    assert_eq!(normalize_path("res\\icons\\skin.png", "res"), Some("icons/skin.png".into()), "backslashes");
}

#[test]
fn normalize_path_custom_res_dir() {
    assert_eq!(normalize_path("assets/icons/skin.png", "assets"), Some("icons/skin.png".into()));
}

#[test]
fn normalize_path_outside_res_returns_none() {
    assert_eq!(normalize_path("other/foo.png", "res"), None);
}

#[test]
fn normalize_path_rejects_false_segment_match() {
    assert_eq!(normalize_path("pres/icons/skin.png", "res"), None, "pres/ is not a res/ segment");
    assert_eq!(normalize_path("ares/icons/skin.png", "res"), None, "ares/ is not a res/ segment");
}

#[test]
fn normalize_path_leading_slash_res() {
    assert_eq!(normalize_path("/res/icons/skin.png", "res"), Some("icons/skin.png".into()));
}

#[test]
fn normalize_path_empty_after_strip() {
    assert_eq!(normalize_path("res/", "res"), None);
    assert_eq!(normalize_path("res", "res"), None, "res without a slash is no segment");
}

#[test]
fn normalize_path_skips_false_match_before_real_segment() {
    assert_eq!(normalize_path("pres/x/res/a.png", "res"), Some("a.png".into()));
}

#[test]
fn node_id_from_key_to_key_roundtrip() {
    let mut nodes: slotmap::SlotMap<slotmap::DefaultKey, u32> = slotmap::SlotMap::with_key();
    let key = nodes.insert(7);
    let id = NodeId::from_key(key);
    assert!(nodes.get(id.to_key()).is_some());
    assert_eq!(id.to_key(), key);
    assert_eq!(id.index(), 1);
    assert_eq!(id.gen(), 1);
}

#[test]
fn node_id_key_form_packs_version_high_index_low() {
    let id = NodeId::from_parts(5, 3);
    assert_eq!(id.to_ffi(), (3u64 << 32) | 5);
    assert_eq!(NodeId::from_ffi((3u64 << 32) | 5), id);
    assert_eq!(NodeId::from_ffi((0x1003u64 << 32) | 5).gen(), 3);
}

#[test]
fn node_id_from_key_after_reuse_keeps_odd_generation() {
    let mut nodes: slotmap::SlotMap<slotmap::DefaultKey, u32> = slotmap::SlotMap::with_key();
    let k1 = nodes.insert(1);
    nodes.remove(k1);
    let k2 = nodes.insert(2);
    let id = NodeId::from_key(k2);
    assert_eq!(id.index(), 1);
    assert_eq!(id.gen() % 2, 1);
    assert_ne!(NodeId::from_key(k1), id);
    assert_eq!(nodes.get(id.to_key()), Some(&2));
}

use loomgui_core::mesh::{fan_indices, nine_grid_indices, quad_indices};
use loomgui_core::node::NodeKind;
use loomgui_core::render::{mesh_choice, payload_unchanged, text_shader, MeshChoice, MeshShape};

#[test]
fn quad_two_triangles() {
    assert_eq!(quad_indices(), vec![0, 1, 2, 0, 2, 3]);
}

#[test]
fn fan_closes_back_to_first_rim_vertex() {
    // centre + 4 rim vertices: 4 triangles, the last one wraps to vertex 1
    assert_eq!(fan_indices(5), vec![0, 1, 2, 0, 2, 3, 0, 3, 4, 0, 4, 1]);
    assert_eq!(fan_indices(1), Vec::<u32>::new());
    assert_eq!(fan_indices(2), vec![0, 1, 1]);
}

#[test]
fn nine_grid_matches_fixed_table() {
    let expected: Vec<u32> = vec![
        4, 0, 1, 1, 5, 4, 5, 1, 2, 2, 6, 5, 6, 2, 3, 3, 7, 6, 8, 4, 5, 5, 9, 8, 9, 5, 6, 6, 10, 9, 10, 6, 7, 7, 11,
        10, 12, 8, 9, 9, 13, 12, 13, 9, 10, 10, 14, 13, 14, 10, 11, 11, 15, 14,
    ];
    assert_eq!(nine_grid_indices(), expected);
    assert_eq!(nine_grid_indices().len(), 9 * 6);
}

#[test]
fn container_programs_by_filter_and_texture() {
    let c = NodeKind::Container;
    assert_eq!(mesh_choice(&c, false, true, false, 0, false).unwrap().program, 0);
    assert_eq!(mesh_choice(&c, false, true, false, 7, false).unwrap().program, 2);
    assert_eq!(mesh_choice(&c, false, true, true, 0, false).unwrap().program, 3);
    assert_eq!(mesh_choice(&c, false, true, true, 7, false).unwrap().program, 4);
}

#[test]
fn container_shapes_by_slice_and_radius() {
    let b = NodeKind::Button;
    assert_eq!(mesh_choice(&b, false, true, false, 0, false).unwrap().shape, MeshShape::Quad);
    assert_eq!(mesh_choice(&b, false, false, false, 0, false).unwrap().shape, MeshShape::RoundedRect);
    assert_eq!(mesh_choice(&b, true, true, false, 0, false).unwrap().shape, MeshShape::NineSlice);
    assert_eq!(mesh_choice(&b, true, false, false, 0, false).unwrap().shape, MeshShape::NineSliceRounded);
}

#[test]
fn contain_shrinks_only_without_slice() {
    let c = NodeKind::Container;
    assert!(mesh_choice(&c, false, true, false, 3, true).unwrap().shrink_to_contain);
    assert!(!mesh_choice(&c, true, true, false, 3, true).unwrap().shrink_to_contain);
    assert!(!mesh_choice(&c, false, true, false, 3, false).unwrap().shrink_to_contain);
}

#[test]
fn image_choice_and_text_has_no_mesh() {
    let img = NodeKind::Image { src: "icon.png".to_string() };
    assert_eq!(
        mesh_choice(&img, false, false, false, 9, true),
        Some(MeshChoice { shape: MeshShape::Quad, program: 0, texture: 9, shrink_to_contain: false })
    );
    assert_eq!(mesh_choice(&img, true, true, true, 0, false).unwrap().shape, MeshShape::NineSlice);
    assert_eq!(mesh_choice(&img, true, true, true, 0, false).unwrap().program, 3);
    let text = NodeKind::Text { content: "hi".to_string() };
    assert_eq!(mesh_choice(&text, false, true, false, 0, false), None);
    assert_eq!(text_shader(), 1);
}

#[test]
fn unchanged_needs_a_baseline_of_the_same_size() {
    // first frame: no baseline
    assert!(!payload_unchanged(&vec![], 2, 0, 5));
    // static frame
    assert!(payload_unchanged(&vec![5, 6], 2, 0, 5));
    // changed frame
    assert!(!payload_unchanged(&vec![5, 6], 2, 1, 5));
    // reload with another node count clears the baseline
    assert!(!payload_unchanged(&vec![5, 6, 7], 2, 0, 5));
}

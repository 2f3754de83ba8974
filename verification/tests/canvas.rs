use raytracer::obj::{mesh_corners, resolve_material, Corner};
use raytracer::mtl::MtlInfo;
use raytracer::sketchpad::Sketchpad;

#[test]
fn new_canvas_is_black() {
    let pad = Sketchpad::new(3, 2);
    assert_eq!(pad.width(), 3);
    assert_eq!(pad.height(), 2);
    assert_eq!(pad.to_bytes(), vec![0; 18]);
}

#[test]
fn canvas_without_pixels() {
    let pad = Sketchpad::new(0, 4);
    assert_eq!((pad.width(), pad.height()), (0, 4));
    assert!(pad.to_bytes().is_empty());
}

#[test]
fn draw_sets_the_three_samples_of_one_pixel() {
    let mut pad = Sketchpad::new(3, 2);
    pad.draw(1, 0, [10, 20, 30]);
    pad.draw(2, 1, [40, 50, 60]);
    assert_eq!(
        pad.to_bytes(),
        vec![0, 0, 0, 10, 20, 30, 0, 0, 0, 0, 0, 0, 0, 0, 0, 40, 50, 60]
    );
    pad.draw(1, 0, [1, 2, 3]);
    assert_eq!(&pad.to_bytes()[3..6], &[1, 2, 3]);
    assert_eq!((pad.width(), pad.height()), (3, 2));
}

#[test]
fn draw_all_fills_the_canvas_row_by_row() {
    let mut pad = Sketchpad::new(2, 3);
    let pixels: Vec<[u8; 3]> = (0..6).map(|i| [i, 10 + i, 100 + i]).collect();
    pad.draw_all(&pixels);
    assert_eq!(
        pad.to_bytes(),
        vec![0, 10, 100, 1, 11, 101, 2, 12, 102, 3, 13, 103, 4, 14, 104, 5, 15, 105]
    );
    let as_image = image::RgbImage::from_raw(2, 3, pad.to_bytes()).unwrap();
    assert_eq!(as_image.get_pixel(1, 2).0, [5, 15, 105]);
    assert_eq!(as_image.get_pixel(0, 1).0, [2, 12, 102]);
}

#[test]
fn draw_all_on_a_canvas_without_pixels() {
    let mut pad = Sketchpad::new(5, 0);
    pad.draw_all(&Vec::new());
    assert!(pad.to_bytes().is_empty());
}

#[test]
fn mesh_corners_follow_the_indices() {
    // Four vertices with positions and normals; texture coordinates for the first three.
    let corners = mesh_corners(&vec![0, 1, 2, 2, 1, 3], 12, 6, 12).unwrap();
    assert_eq!(
        corners,
        vec![
            Corner { vertex: 0, has_uv: true },
            Corner { vertex: 1, has_uv: true },
            Corner { vertex: 2, has_uv: true },
            Corner { vertex: 2, has_uv: true },
            Corner { vertex: 1, has_uv: true },
            Corner { vertex: 3, has_uv: false },
        ]
    );
}

#[test]
fn mesh_without_indices_has_no_corners() {
    assert_eq!(mesh_corners(&Vec::new(), 0, 0, 0), Ok(Vec::new()));
}

#[test]
fn mesh_without_texture_coordinates() {
    let corners = mesh_corners(&vec![0, 1, 2], 9, 0, 9).unwrap();
    assert!(corners.iter().all(|c| !c.has_uv));
    let corners = mesh_corners(&vec![0, 1, 2], 9, 5, 9).unwrap();
    assert_eq!(corners.iter().map(|c| c.has_uv).collect::<Vec<_>>(), vec![true, true, false]);
}

#[test]
fn mesh_with_a_triangle_cut_short_is_refused() {
    assert_eq!(mesh_corners(&vec![0, 1, 2, 0], 9, 0, 9), Err(1));
    assert_eq!(mesh_corners(&vec![0, 1, 2, 0, 1], 9, 0, 9), Err(1));
    assert_eq!(mesh_corners(&vec![0], 9, 0, 9), Err(0));
}

#[test]
fn mesh_with_a_vertex_out_of_range_is_refused() {
    assert_eq!(mesh_corners(&vec![0, 1, 2, 0, 3, 1], 9, 0, 9), Err(1));
    assert_eq!(mesh_corners(&vec![0, 1, 2, 0, 2, 1], 9, 0, 8), Err(0));
    assert_eq!(mesh_corners(&vec![0, 1, 2], 8, 0, 9), Err(0));
    assert_eq!(mesh_corners(&vec![0, 1, 2], 9, 0, 0), Err(0));
    assert_eq!(mesh_corners(&vec![u32::MAX, 0, 0], 12_884_901_887, 0, usize::MAX), Err(0));
    assert!(mesh_corners(&vec![u32::MAX, 0, 0], 12_884_901_888, 0, usize::MAX).is_ok());
}

#[test]
fn first_triangle_that_fails_is_named() {
    assert_eq!(mesh_corners(&vec![0, 1, 2, 9, 9, 9, 0, 1], 9, 0, 9), Err(1));
    assert_eq!(mesh_corners(&vec![0, 1, 2, 2, 1, 0, 0, 1], 9, 0, 9), Err(2));
}

fn named(name: &str) -> MtlInfo {
    MtlInfo { name: name.to_string(), map_kd: None, map_bump: None, map_d: None }
}

#[test]
fn material_of_a_mesh_is_found_by_its_name() {
    let names = vec!["hair".to_string(), "skin".to_string(), "cloth".to_string()];
    let library = vec![named("skin"), named("hair")];
    assert_eq!(resolve_material(Some(0), &names, &library), Some(1));
    assert_eq!(resolve_material(Some(1), &names, &library), Some(0));
}

#[test]
fn mesh_without_a_known_material_gets_the_default() {
    let names = vec!["hair".to_string(), "skin".to_string(), "cloth".to_string()];
    let library = vec![named("skin"), named("hair")];
    assert_eq!(resolve_material(None, &names, &library), None);
    assert_eq!(resolve_material(Some(2), &names, &library), None);
    assert_eq!(resolve_material(Some(3), &names, &library), None);
    assert_eq!(resolve_material(Some(0), &names, &Vec::new()), None);
    assert_eq!(resolve_material(Some(0), &Vec::new(), &library), None);
}

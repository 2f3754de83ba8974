use raytracer::aabb::Aabb;
use raytracer::interval::Interval;
use raytracer::modeling::{box_corners, box_faces, nearest_root};

#[test]
fn nearest_root_prefers_the_nearer_crossing() {
    let ray_t = Interval::new(0, 1000);
    assert_eq!(nearest_root(&ray_t, 30, 70), Some(30));
}

#[test]
fn nearest_root_falls_back_on_the_farther_crossing() {
    // The ray starts inside the sphere: the nearer crossing lies behind it.
    let ray_t = Interval::new(0, 1000);
    assert_eq!(nearest_root(&ray_t, -20, 70), Some(70));
    assert_eq!(nearest_root(&ray_t, 0, 70), Some(70));
}

#[test]
fn nearest_root_is_none_outside_the_interval() {
    let ray_t = Interval::new(0, 50);
    assert_eq!(nearest_root(&ray_t, 60, 70), None);
    assert_eq!(nearest_root(&ray_t, -70, -60), None);
    assert_eq!(nearest_root(&ray_t, -1, 50), None);
    assert_eq!(nearest_root(&ray_t, 0, 50), None);
    assert_eq!(nearest_root(&ray_t, 50, 60), None);
}

#[test]
fn box_corners_are_the_lower_and_the_upper_bounds() {
    let (min, max) = box_corners([50, 260, 30], [0, 0, 0]);
    assert_eq!(min, [0, 0, 0]);
    assert_eq!(max, [50, 260, 30]);
    let (min, max) = box_corners([-350, -20, 200], [0, 0, -100]);
    assert_eq!(min, [-350, -20, -100]);
    assert_eq!(max, [0, 0, 200]);
    assert_eq!(Aabb::from_points(min, max), Aabb::from_points([-350, -20, 200], [0, 0, -100]));
}

/// The corner of a box that a face's corner stands for, and the corners
/// that its edges lead to, as flags for the upper bounds.
fn face_corners(face: &raytracer::modeling::BoxFace) -> [[bool; 3]; 4] {
    let q = face.corner;
    let mut qu = q;
    qu[face.u.axis] = face.u.forward;
    let mut qv = q;
    qv[face.v.axis] = face.v.forward;
    let mut quv = qu;
    quv[face.v.axis] = face.v.forward;
    [q, qu, qv, quv]
}

#[test]
fn box_faces_are_front_right_back_left_top_bottom() {
    let faces = box_faces();
    assert_eq!(faces.len(), 6);
    // Front: from (min, min, max) along +x and +y.
    assert_eq!(faces[0].corner, [false, false, true]);
    assert_eq!((faces[0].u.axis, faces[0].u.forward), (0, true));
    assert_eq!((faces[0].v.axis, faces[0].v.forward), (1, true));
    // Right: from (max, min, max) along -z and +y.
    assert_eq!(faces[1].corner, [true, false, true]);
    assert_eq!((faces[1].u.axis, faces[1].u.forward), (2, false));
    assert_eq!((faces[1].v.axis, faces[1].v.forward), (1, true));
    // Back: from (max, min, min) along -x and +y.
    assert_eq!(faces[2].corner, [true, false, false]);
    assert_eq!((faces[2].u.axis, faces[2].u.forward), (0, false));
    // Left: from (min, min, min) along +z and +y.
    assert_eq!(faces[3].corner, [false, false, false]);
    assert_eq!((faces[3].u.axis, faces[3].u.forward), (2, true));
    // Top: from (min, max, max) along +x and -z.
    assert_eq!(faces[4].corner, [false, true, true]);
    assert_eq!((faces[4].v.axis, faces[4].v.forward), (2, false));
    // Bottom: from (min, min, min) along +x and +z.
    assert_eq!(faces[5].corner, [false, false, false]);
    assert_eq!((faces[5].v.axis, faces[5].v.forward), (2, true));
}

#[test]
fn every_edge_of_a_box_face_leads_to_a_corner_of_the_box() {
    for face in box_faces().iter() {
        assert_ne!(face.u.axis, face.v.axis);
        assert!(face.u.axis < 3 && face.v.axis < 3);
        // An edge leads forward exactly from a lower bound.
        assert_eq!(face.u.forward, !face.corner[face.u.axis]);
        assert_eq!(face.v.forward, !face.corner[face.v.axis]);
        let corners = face_corners(face);
        for i in 0..4 {
            for j in (i + 1)..4 {
                assert_ne!(corners[i], corners[j]);
            }
        }
    }
}

#[test]
fn a_line_along_an_axis_is_perpendicular_to_two_box_faces() {
    let faces = box_faces();
    for axis in 0..3 {
        let across: Vec<_> = faces
            .iter()
            .filter(|f| f.u.axis != axis && f.v.axis != axis)
            .collect();
        assert_eq!(across.len(), 2);
        // One on the side where the line enters, one where it leaves.
        assert_ne!(across[0].corner[axis], across[1].corner[axis]);
        for face in across {
            let side = face.corner[axis];
            for corner in face_corners(face) {
                assert_eq!(corner[axis], side);
            }
        }
    }
}

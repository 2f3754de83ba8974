use raytracer::raytracer::{sqrt_spp, transport, worth_tracing, Encounter, Frame, Transport};

#[test]
fn no_depth_is_black_whatever_the_ray_meets() {
    for depth in [0, -1, i32::MIN] {
        for met in [Encounter::Nothing, Encounter::Absorbing, Encounter::Specular, Encounter::Diffuse] {
            assert_eq!(transport(depth, met), Transport::Black);
        }
        assert!(!worth_tracing(depth));
    }
}

#[test]
fn empty_scene_shows_the_background() {
    for depth in [1, 5, 50, i32::MAX] {
        assert!(worth_tracing(depth));
        assert_eq!(transport(depth, Encounter::Nothing), Transport::Background);
    }
}

#[test]
fn absorbing_surface_shows_what_it_emits() {
    assert_eq!(transport(50, Encounter::Absorbing), Transport::Emitted);
}

#[test]
fn scattering_surfaces_send_a_ray_with_one_step_less() {
    assert_eq!(transport(50, Encounter::Specular), Transport::Attenuated { depth: 49 });
    assert_eq!(transport(50, Encounter::Diffuse), Transport::Sampled { depth: 49 });
    assert_eq!(transport(1, Encounter::Specular), Transport::Attenuated { depth: 0 });
    assert_eq!(transport(1, Encounter::Diffuse), Transport::Sampled { depth: 0 });
}

#[test]
fn depth_caps_the_number_of_rays() {
    // A hall of mirrors: every ray meets a mirror.
    let max_depth = 5;
    let mut depth = max_depth;
    let mut rays = 0;
    loop {
        match transport(depth, Encounter::Specular) {
            Transport::Attenuated { depth: next } => {
                rays += 1;
                depth = next;
            }
            Transport::Black => break,
            other => panic!("{:?}", other),
        }
    }
    assert_eq!(rays, max_depth);
}

#[test]
fn sqrt_spp_is_the_root_rounded_down() {
    assert_eq!(sqrt_spp(100), 10);
    assert_eq!(sqrt_spp(4), 2);
    assert_eq!(sqrt_spp(1), 1);
    assert_eq!(sqrt_spp(2), 1);
    assert_eq!(sqrt_spp(3), 1);
    assert_eq!(sqrt_spp(8), 2);
    assert_eq!(sqrt_spp(9), 3);
    assert_eq!(sqrt_spp(99), 9);
    assert_eq!(sqrt_spp(101), 10);
    assert_eq!(sqrt_spp(i32::MAX), 46340);
    assert_eq!(sqrt_spp(46340 * 46340), 46340);
    assert_eq!(sqrt_spp(46340 * 46340 - 1), 46339);
}

#[test]
fn sqrt_spp_of_nothing_is_zero() {
    assert_eq!(sqrt_spp(0), 0);
    assert_eq!(sqrt_spp(-1), 0);
    assert_eq!(sqrt_spp(i32::MIN), 0);
}

#[test]
fn sqrt_spp_agrees_with_the_floating_point_root() {
    for n in (0..100_000).chain([i32::MAX - 1, i32::MAX, 1 << 30, (1 << 30) - 1]) {
        assert_eq!(sqrt_spp(n), (n as f64).sqrt() as u32);
    }
}

#[test]
fn frame_numbers_pixels_row_by_row() {
    let f = Frame::new(4, 3).unwrap();
    assert_eq!(f.pixel_count(), 12);
    assert_eq!(f.coords(0), (0, 0));
    assert_eq!(f.coords(3), (3, 0));
    assert_eq!(f.coords(4), (0, 1));
    assert_eq!(f.coords(7), (3, 1));
    assert_eq!(f.coords(11), (3, 2));
    assert_eq!(f.index(0, 0), 0);
    assert_eq!(f.index(2, 2), 10);
    assert_eq!(f.index(3, 2), 11);
}

#[test]
fn frame_index_and_coords_undo_each_other() {
    let f = Frame::new(7, 5).unwrap();
    for i in 0..f.pixel_count() {
        let (x, y) = f.coords(i);
        assert!(x < 7 && y < 5);
        assert_eq!(f.index(x, y), i);
    }
    for y in 0..5 {
        for x in 0..7 {
            assert_eq!(f.coords(f.index(x, y)), (x, y));
        }
    }
}

#[test]
fn frame_refuses_more_pixels_than_32_bits_number() {
    assert!(Frame::new(65536, 65536).is_none());
    assert!(Frame::new(u32::MAX, 2).is_none());
    assert_eq!(Frame::new(65535, 65537), Some(Frame { width: 65535, height: 65537 }));
    assert_eq!(Frame::new(u32::MAX, 1).unwrap().pixel_count(), u32::MAX);
    assert_eq!(Frame::new(0, 9).unwrap().pixel_count(), 0);
}

#[test]
fn frame_of_the_reference_render() {
    let f = Frame::new(1600, 900).unwrap();
    assert_eq!(f.pixel_count(), 1_440_000);
    assert_eq!(f.coords(1600 * 450 + 800), (800, 450));
}

use std::cell::RefCell;

use sun_render::framebuffer::{Framebuffer, FAR};
use sun_render::rasterizer::{barycentric, rasterize_triangle, Fragment, FragmentShader};
use sun_render::shaders::{
    brighten_color, fragment_shader, intensity_of, lerp_color, temperature_color, ShadeTerms,
    EMBER, ORANGE, PALE_YELLOW, YELLOW,
};
use sun_render::vertex::{Clip4, FragmentInput, Point3, FIX_ONE};

struct Flat(u32);

impl FragmentShader for Flat {
    fn shade(&self, _fragment: &Fragment) -> u32 {
        self.0
    }
}

struct Recorder(RefCell<Vec<Fragment>>);

impl FragmentShader for Recorder {
    fn shade(&self, fragment: &Fragment) -> u32 {
        self.0.borrow_mut().push(*fragment);
        0x123456
    }
}

fn point(x: i64, y: i64, z: i64) -> Point3 {
    Point3 { x, y, z }
}

/// A vertex at NDC `(x, y, z)` given in thousandths, with `w = 1`.
fn ndc_vertex(x: i64, y: i64, z: i64) -> FragmentInput {
    let s = |v: i64| v * FIX_ONE / 1000;
    FragmentInput {
        position: Clip4 { x: s(x), y: s(y), z: s(z), w: FIX_ONE },
        world_pos: point(0, 0, 0),
        normal: point(0, 0, FIX_ONE),
        depth: s(z),
    }
}

fn terms(noise: i64, pulse: i64, flare: i64, spots: i64, spike: i64) -> ShadeTerms {
    ShadeTerms { noise, pulse, flare, spots, spike }
}

#[test]
fn new_framebuffer_is_black() {
    let fb = Framebuffer::new(4, 3);
    assert_eq!(fb.width, 4);
    assert_eq!(fb.height, 3);
    assert_eq!(fb.get_buffer().len(), 12);
    assert!(fb.get_buffer().iter().all(|&c| c == 0));
    assert!(fb.zbuffer.iter().all(|&d| d == FAR));
}

#[test]
fn set_pixel_writes_only_nearer_depths() {
    let mut fb = Framebuffer::new(4, 4);
    fb.set_pixel(1, 2, 0xAA, 50);
    assert_eq!(fb.get_buffer()[2 * 4 + 1], 0xAA);
    fb.set_pixel(1, 2, 0xBB, 60);
    assert_eq!(fb.get_buffer()[2 * 4 + 1], 0xAA);
    fb.set_pixel(1, 2, 0xCC, 50);
    assert_eq!(fb.get_buffer()[2 * 4 + 1], 0xAA);
    fb.set_pixel(1, 2, 0xDD, 10);
    assert_eq!(fb.get_buffer()[2 * 4 + 1], 0xDD);
    assert_eq!(fb.zbuffer[2 * 4 + 1], 10);
}

#[test]
fn set_pixel_out_of_bounds_is_ignored() {
    let mut fb = Framebuffer::new(4, 4);
    let before = fb.get_buffer().to_vec();
    fb.set_pixel(4, 0, 0xFF, 0);
    fb.set_pixel(0, 4, 0xFF, 0);
    fb.set_pixel(100, 100, 0xFF, 0);
    assert_eq!(fb.get_buffer(), &before[..]);
}

#[test]
fn cell_keeps_nearest_of_many_writes() {
    let mut fb = Framebuffer::new(3, 3);
    let writes = [(0xA1, 40), (0xA2, 30), (0xA3, 35), (0xA4, 30), (0xA5, 90)];
    for &(c, d) in writes.iter() {
        fb.set_pixel(2, 1, c, d);
    }
    assert_eq!(fb.zbuffer[1 * 3 + 2], 30);
    assert_eq!(fb.get_buffer()[1 * 3 + 2], 0xA2);
    for (i, &c) in fb.get_buffer().iter().enumerate() {
        if i != 1 * 3 + 2 {
            assert_eq!(c, 0);
        }
    }
}

#[test]
fn clear_resets_colours_and_depths() {
    let mut fb = Framebuffer::new(5, 2);
    fb.set_pixel(0, 0, 0x11, -5);
    fb.set_pixel(4, 1, 0x22, 7);
    fb.clear(0x0000FF);
    assert!(fb.get_buffer().iter().all(|&c| c == 0x0000FF));
    assert!(fb.zbuffer.iter().all(|&d| d == FAR));
    fb.set_pixel(4, 1, 0x33, FAR - 1);
    assert_eq!(fb.get_buffer()[1 * 5 + 4], 0x33);
}

#[test]
fn barycentric_inside_point_weights_are_positive_and_sum_to_one() {
    let (w0, w1, w2, d) = barycentric((10, 10), (0, 0), (40, 0), (0, 40));
    assert!(d > 0);
    assert!(w0 > 0 && w1 > 0 && w2 > 0);
    assert_eq!(w0 + w1 + w2, d);
}

#[test]
fn barycentric_at_vertices() {
    let a = (0, 0);
    let b = (40, 0);
    let c = (0, 40);
    let (w0, w1, w2, d) = barycentric(a, a, b, c);
    assert_eq!((w0, w1, w2), (d, 0, 0));
    let (w0, w1, w2, d) = barycentric(b, a, b, c);
    assert_eq!((w0, w1, w2), (0, d, 0));
    let (w0, w1, w2, d) = barycentric(c, a, b, c);
    assert_eq!((w0, w1, w2), (0, 0, d));
}

#[test]
fn barycentric_degenerate_triangle_gives_sentinel() {
    assert_eq!(barycentric((5, 5), (0, 0), (10, 10), (20, 20)), (-1, -1, -1, 1));
}

#[test]
fn barycentric_outside_point_has_negative_weight() {
    let (w0, w1, w2, _d) = barycentric((50, 50), (0, 0), (40, 0), (0, 40));
    assert!(w0 < 0 || w1 < 0 || w2 < 0);
}

#[test]
fn triangle_behind_eye_leaves_framebuffer_unchanged() {
    let mut fb = Framebuffer::new(20, 20);
    fb.clear(0x000000);
    let mut v1 = ndc_vertex(500, -500, 0);
    v1.position.w = 0;
    let v0 = ndc_vertex(-500, -500, 0);
    let v2 = ndc_vertex(0, 500, 0);
    rasterize_triangle(&mut fb, &v0, &v1, &v2, &Flat(0xFFFFFF));
    assert!(fb.get_buffer().iter().all(|&c| c == 0));
    assert!(fb.zbuffer.iter().all(|&d| d == FAR));
    let mut v2n = v2;
    v2n.position.w = -FIX_ONE;
    rasterize_triangle(&mut fb, &v0, &ndc_vertex(500, -500, 0), &v2n, &Flat(0xFFFFFF));
    assert!(fb.get_buffer().iter().all(|&c| c == 0));
}

#[test]
fn triangle_entirely_outside_depth_range_is_dropped() {
    let mut fb = Framebuffer::new(20, 20);
    let v0 = ndc_vertex(-500, -500, 1500);
    let v1 = ndc_vertex(500, -500, 2000);
    let v2 = ndc_vertex(0, 500, -1200);
    rasterize_triangle(&mut fb, &v0, &v1, &v2, &Flat(0xFFFFFF));
    assert!(fb.get_buffer().iter().all(|&c| c == 0));
}

#[test]
fn triangle_partly_outside_depth_range_is_drawn() {
    let mut fb = Framebuffer::new(20, 20);
    let v0 = ndc_vertex(-500, -500, 1500);
    let v1 = ndc_vertex(500, -500, 0);
    let v2 = ndc_vertex(0, 500, 0);
    rasterize_triangle(&mut fb, &v0, &v1, &v2, &Flat(0xFFFFFF));
    assert!(fb.get_buffer().iter().any(|&c| c == 0xFFFFFF));
}

#[test]
fn single_triangle_covers_its_screen_area() {
    let mut fb = Framebuffer::new(100, 100);
    fb.clear(0x000000);
    let v0 = ndc_vertex(-500, -500, 0);
    let v1 = ndc_vertex(500, -500, 0);
    let v2 = ndc_vertex(0, 500, 0);
    rasterize_triangle(&mut fb, &v0, &v1, &v2, &Flat(0xFFFFFF));
    let buf = fb.get_buffer();
    let lit = buf.iter().filter(|&&c| c != 0).count();
    // base 50 px, height 50 px: 1250 px of area
    assert!(lit >= 1200 && lit <= 1300, "lit = {}", lit);
    for y in 0..100 {
        let row: Vec<usize> = (0..100).filter(|&x| buf[y * 100 + x] != 0).collect();
        if y < 25 || y > 75 {
            assert!(row.is_empty());
        }
        if let (Some(&first), Some(&last)) = (row.first(), row.last()) {
            assert!(first >= 25 && last <= 75);
            assert_eq!(row.len(), last - first + 1);
        }
    }
}

#[test]
fn nearer_triangle_wins_in_either_order() {
    let far = [ndc_vertex(-800, -800, 800), ndc_vertex(800, -800, 800), ndc_vertex(0, 800, 800)];
    let near = [ndc_vertex(-600, -600, 200), ndc_vertex(600, -600, 200), ndc_vertex(0, 600, 200)];
    let red = Flat(0xFF0000);
    let green = Flat(0x00FF00);

    let mut fb = Framebuffer::new(40, 40);
    rasterize_triangle(&mut fb, &far[0], &far[1], &far[2], &red);
    rasterize_triangle(&mut fb, &near[0], &near[1], &near[2], &green);
    assert_eq!(fb.get_buffer()[20 * 40 + 20], 0x00FF00);

    let mut fb2 = Framebuffer::new(40, 40);
    rasterize_triangle(&mut fb2, &near[0], &near[1], &near[2], &green);
    rasterize_triangle(&mut fb2, &far[0], &far[1], &far[2], &red);
    assert_eq!(fb2.get_buffer()[20 * 40 + 20], 0x00FF00);
    assert_eq!(fb.get_buffer(), fb2.get_buffer());
}

#[test]
fn fragments_carry_interpolated_attributes() {
    let mut v0 = ndc_vertex(-500, -500, 0);
    let mut v1 = ndc_vertex(500, -500, 0);
    let mut v2 = ndc_vertex(0, 500, 0);
    for v in [&mut v0, &mut v1, &mut v2] {
        v.world_pos = point(300, -200, 700);
    }
    let rec = Recorder(RefCell::new(Vec::new()));
    let mut fb = Framebuffer::new(10, 10);
    rasterize_triangle(&mut fb, &v0, &v1, &v2, &rec);
    let frags = rec.0.borrow();
    assert!(!frags.is_empty());
    for f in frags.iter() {
        assert_eq!(f.world_pos, point(300, -200, 700));
        assert_eq!(f.depth, 0);
        assert_eq!(f.normal, point(0, 0, FIX_ONE));
        assert_eq!(fb.get_buffer()[f.y * 10 + f.x], 0x123456);
    }
}

#[test]
fn lerp_color_halfway() {
    assert_eq!(lerp_color(0x000000, 0xFFFFFF, 1, 2), 0x7F7F7F);
    assert_eq!(lerp_color(ORANGE, YELLOW, 0, 400), ORANGE);
    assert_eq!(lerp_color(ORANGE, YELLOW, 400, 400), YELLOW);
}

#[test]
fn brighten_color_clamps_at_white() {
    assert_eq!(brighten_color(0x102030, 1000), 0xFFFFFF);
    assert_eq!(brighten_color(0x000000, 100), 0x191919);
    assert_eq!(brighten_color(0x123456, 0), 0x123456);
}

#[test]
fn temperature_ramp_anchors() {
    assert_eq!(temperature_color(0), EMBER);
    assert_eq!(temperature_color(300), ORANGE);
    assert_eq!(temperature_color(700), YELLOW);
    assert_eq!(temperature_color(1000), PALE_YELLOW);
    assert_eq!(temperature_color(1200), 0xFFFFCC);
}

#[test]
fn temperature_ramp_is_continuous_at_boundaries() {
    assert_eq!(temperature_color(299), 0xFE4300);
    assert_eq!(temperature_color(300), 0xFF4400);
    assert_eq!(temperature_color(699), 0xFFCB00);
    assert_eq!(temperature_color(999), 0xFFFE65);
}

#[test]
fn intensity_combines_and_clamps_terms() {
    assert_eq!(intensity_of(&terms(0, 1000, 0, 0, 0)), 500);
    assert_eq!(intensity_of(&terms(1000, 750, 100, 50, 20)), 920);
    assert_eq!(intensity_of(&terms(-1000, 1000, -300, 0, 0)), 0);
    assert_eq!(intensity_of(&terms(1000, 1000, 1000, 1000, 1000)), 1200);
}

#[test]
fn fragment_shader_mid_band() {
    assert_eq!(fragment_shader(&terms(0, 1000, 0, 0, 0)), 0xFF8800);
}

#[test]
fn fragment_shader_dark_and_peak() {
    assert_eq!(fragment_shader(&terms(-1000, 0, -500, 0, 0)), EMBER);
    assert_eq!(fragment_shader(&terms(1000, 1000, 1000, 1000, 1000)), 0xFFFFFF);
}

#[test]
fn fragment_shader_glow_above_three_quarters() {
    assert_eq!(fragment_shader(&terms(-1000, 0, 800, 0, 0)), 0xFFE52A);
    assert_eq!(fragment_shader(&terms(-1000, 0, 750, 0, 0)), temperature_color(750));
}

#[test]
fn normalize_rescales_to_unit_length() {
    assert_eq!(point(3000, 4000, 0).normalize(), point(614, 819, 0));
    assert_eq!(point(-3000, 0, 4000).normalize(), point(-615, 0, 819));
    assert_eq!(point(0, 0, 5).normalize(), point(0, 0, FIX_ONE));
    assert_eq!(point(0, 0, 0).normalize(), point(0, 0, 0));
}

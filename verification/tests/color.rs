use star_render::color::quantize;
use star_render::Binary32;
use star_render::Color;
use star_render::Vector3;

fn b(x: f32) -> Binary32 {
    Binary32::from_bits(x.to_bits())
}

fn reference(x: f32) -> u8 {
    (x.clamp(0.0, 1.0) * 255.0) as u8
}

#[test]
fn quantize_on_chosen_values() {
    assert_eq!(quantize(b(0.0)), 0);
    assert_eq!(quantize(b(-0.0)), 0);
    assert_eq!(quantize(b(1.0)), 255);
    assert_eq!(quantize(b(0.5)), 127);
    assert_eq!(quantize(b(0.25)), 63);
    assert_eq!(quantize(b(0.1)), 25);
    assert_eq!(quantize(b(0.6)), 153);
    assert_eq!(quantize(b(0.2)), 51);
    assert_eq!(quantize(b(0.999)), 254);
    assert_eq!(quantize(b(0.004)), 1);
    assert_eq!(quantize(b(0.0039)), 0);
    assert_eq!(quantize(b(1.0e-40)), 0);
}

#[test]
fn quantize_holds_values_to_the_unit_range() {
    assert_eq!(quantize(b(1.2)), 255);
    assert_eq!(quantize(b(4.0)), 255);
    assert_eq!(quantize(b(f32::MAX)), 255);
    assert_eq!(quantize(b(f32::INFINITY)), 255);
    assert_eq!(quantize(b(-0.5)), 0);
    assert_eq!(quantize(b(-3.0)), 0);
    assert_eq!(quantize(b(f32::NEG_INFINITY)), 0);
    assert_eq!(quantize(b(f32::NAN)), 0);
    assert_eq!(quantize(b(-f32::NAN)), 0);
}

#[test]
fn quantize_matches_the_hardware_around_every_step() {
    for k in 0..=255u32 {
        let centre = (k as f32 / 255.0).to_bits();
        for d in 0..=128u32 {
            for bits in [centre.wrapping_sub(d), centre.wrapping_add(d)] {
                let x = f32::from_bits(bits);
                assert_eq!(quantize(b(x)), reference(x), "{:#x}", bits);
            }
        }
    }
}

#[test]
fn quantize_matches_the_hardware_on_a_sweep() {
    let mut bits: u32 = 0;
    while bits < 0x3F80_0100 {
        let x = f32::from_bits(bits);
        assert_eq!(quantize(b(x)), reference(x), "{:#x}", bits);
        let y = f32::from_bits(bits | 0x8000_0000);
        assert_eq!(quantize(b(y)), reference(y), "{:#x}", bits | 0x8000_0000);
        bits += 4099;
    }
    let mut state: u32 = 0xCAFE_F00D;
    for _ in 0..200_000 {
        state = state.wrapping_mul(1_664_525).wrapping_add(1_013_904_223);
        let x = f32::from_bits(state);
        assert_eq!(quantize(b(x)), reference(x), "{:#x}", state);
    }
}

#[test]
fn from_unit_is_opaque() {
    let c = Color::from_unit(Vector3::new(b(1.0), b(0.5), b(0.0)));
    assert_eq!(c, Color::new(255, 127, 0, 255));
    let d = Color::from_unit(Vector3::new(b(-2.0), b(7.5), b(f32::NAN)));
    assert_eq!(d, Color::new(0, 255, 0, 255));
}

#[test]
fn named_colours() {
    assert_eq!(Color::black(), Color::new(0, 0, 0, 255));
    assert_eq!(Color::white(), Color::new(255, 255, 255, 255));
    let c = Color::new(10, 10, 30, 255);
    assert_eq!((c.r, c.g, c.b, c.a), (10, 10, 30, 255));
}

#[test]
fn vector3_keeps_its_components() {
    let v = Vector3::new(b(1.0), b(0.8), b(0.4));
    assert_eq!(v.x.to_bits(), 1.0f32.to_bits());
    assert_eq!(v.y.to_bits(), 0.8f32.to_bits());
    assert_eq!(v.z.to_bits(), 0.4f32.to_bits());
}

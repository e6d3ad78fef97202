use engine_2d::color::Color;
use engine_2d::components::Tag;
use engine_2d::random::rand_u64;

#[test]
fn rgb_is_opaque_rgba() {
    assert_eq!(Color::rgb(1, 2, 3), Color::rgba(1, 2, 3, 255));
    assert_eq!(Color::rgba(9, 8, 7, 6), Color { r: 9, g: 8, b: 7, a: 6 });
}

#[test]
fn to_u32_packs_rrggbb() {
    assert_eq!(Color::rgb(0x12, 0x34, 0x56).to_u32(), 0x0012_3456);
    assert_eq!(Color::rgba(0xff, 0, 0, 0).to_u32(), 0x00ff_0000);
    assert_eq!(Color::white().to_u32(), 0x00ff_ffff);
    assert_eq!(Color::black().to_u32(), 0);
}

#[test]
fn blend_opaque_replaces() {
    let bg = Color::rgb(10, 20, 30);
    let fg = Color::rgb(200, 100, 50);
    assert_eq!(bg.blend(fg), fg);
}

#[test]
fn blend_transparent_keeps_background() {
    let bg = Color::rgba(10, 20, 30, 40);
    assert_eq!(bg.blend(Color::rgba(200, 100, 50, 0)), bg);
}

#[test]
fn blend_half_alpha_mixes_channels() {
    let bg = Color::black();
    let fg = Color::rgba(255, 255, 255, 128);
    // (0 * 127 + 255 * 128) / 255 = 128
    assert_eq!(bg.blend(fg), Color::rgb(128, 128, 128));
    let mixed = Color::rgb(100, 0, 200).blend(Color::rgba(0, 100, 50, 51));
    // r: 100*204/255 = 80, g: 100*51/255 = 20, b: (200*204 + 50*51)/255 = 170
    assert_eq!(mixed, Color::rgb(80, 20, 170));
}

#[test]
fn blend_stays_between_inputs() {
    let bg = Color::rgb(40, 200, 90);
    let fg = Color::rgba(220, 10, 90, 77);
    let m = bg.blend(fg);
    assert!(m.r >= 40 && m.r <= 220);
    assert!(m.g >= 10 && m.g <= 200);
    assert_eq!(m.b, 90);
    assert_eq!(m.a, 255);
}

#[test]
fn palette_values() {
    assert_eq!(Color::transparent(), Color::rgba(0, 0, 0, 0));
    assert_eq!(Color::red(), Color::rgb(220, 50, 50));
    assert_eq!(Color::gold(), Color::rgb(255, 195, 0));
    assert_eq!(Color::sky_blue(), Color::rgb(30, 144, 255));
    assert_eq!(Color::dark_gray(), Color::rgb(50, 50, 50));
}

#[test]
fn tag_matches_its_label_only() {
    let t = Tag::new("player");
    assert!(t.is("player"));
    assert!(!t.is("Player"));
    assert!(!t.is("play"));
    assert_eq!(t.0, "player".to_string());
}

#[test]
fn rand_u64_is_xorshift_from_seed() {
    let mut seed: u64 = 12345;
    assert_eq!(rand_u64(&mut seed), 13289605635609);
    assert_eq!(seed, 13289605635609);
    assert_eq!(rand_u64(&mut seed), 11245129090807876197);
}

#[test]
fn rand_u64_never_reaches_zero() {
    let mut seed: u64 = 1;
    for _ in 0..1000 {
        assert_ne!(rand_u64(&mut seed), 0);
    }
}

use auto_palette::color::{Lab, XYZ};
use auto_palette::rgba::Rgba;
use auto_palette::white_point::{WhitePoint, D65};

#[test]
fn new_should_create_rgba_color() {
    let rgba = Rgba::new(0, 64, 255, 128);
    assert_eq!(rgba.r, 0);
    assert_eq!(rgba.g, 64);
    assert_eq!(rgba.b, 255);
    assert_eq!(rgba.a, 128);
}

#[test]
fn rgba_to_string_should_return_string_representation() {
    let rgba = Rgba::new(0, 64, 255, 128);
    assert_eq!(rgba.to_string(), "Rgba(0, 64, 255, 128)");
}

#[test]
fn should_return_value_to_be_cast() {
    let rgba = Rgba::new(0, 64, 255, 128);
    assert_eq!(rgba.r::<u64>(), 0);
    assert_eq!(rgba.g::<u64>(), 64);
    assert_eq!(rgba.b::<u64>(), 255);
    assert_eq!(rgba.a::<u64>(), 128);
}

#[test]
fn d65() {
    let x: i64 = D65::x();
    assert_eq!(x, 950_456);

    let y: i64 = D65::y();
    assert_eq!(y, 1_000_000);

    let z: i64 = D65::z();
    assert_eq!(z, 1_088_644);
}

#[test]
fn named_colors_have_full_channels() {
    assert_eq!(Rgba::white(), Rgba::new(255, 255, 255, 255));
    assert_eq!(Rgba::black(), Rgba::new(0, 0, 0, 255));
    assert_eq!(Rgba::red(), Rgba::new(255, 0, 0, 255));
    assert_eq!(Rgba::green(), Rgba::new(0, 255, 0, 255));
    assert_eq!(Rgba::blue(), Rgba::new(0, 0, 255, 255));
    assert_eq!(Rgba::transparent(), Rgba::new(0, 0, 0, 0));
    assert_eq!(Rgba::max_value::<u32>(), 255);
}

#[test]
fn normalize_value_clamps_to_a_channel() {
    assert_eq!(Rgba::normalize_value(-3), 0);
    assert_eq!(Rgba::normalize_value(0), 0);
    assert_eq!(Rgba::normalize_value(128), 128);
    assert_eq!(Rgba::normalize_value(255), 255);
    assert_eq!(Rgba::normalize_value(256), 255);
}

#[test]
fn new_should_create_lab_color() {
    let lab = Lab::new(53_230_000, 80_110_000, 67_220_000);
    assert_eq!(lab.l, 53_230_000);
    assert_eq!(lab.a, 80_110_000);
    assert_eq!(lab.b, 67_220_000);

    let lab = Lab::new(-4_000_000, -192_000_000, -192_000_000);
    assert_eq!(lab.l, 0);
    assert_eq!(lab.a, -128_000_000);
    assert_eq!(lab.b, -128_000_000);

    let lab = Lab::new(108_000_000, 128_000_000, 128_000_000);
    assert_eq!(lab.l, 100_000_000);
    assert_eq!(lab.a, 127_000_000);
    assert_eq!(lab.b, 127_000_000);
}

#[test]
fn lab_to_string_should_return_string_representation() {
    let lab = Lab::new(53_230_000, 80_110_000, 67_220_000);
    assert_eq!(lab.to_string(), "Lab(53.23, 80.11, 67.22)");
}

#[test]
fn new_should_create_xyz_color() {
    let xyz = XYZ::new(256_394, 223_987, 975_798);
    assert_eq!(xyz.x, 256_394);
    assert_eq!(xyz.y, 223_987);
    assert_eq!(xyz.z, 975_798);

    let xyz = XYZ::new(-1_000_000, -1_000_000, -1_000_000);
    assert_eq!(xyz.x, 0);
    assert_eq!(xyz.y, 0);
    assert_eq!(xyz.z, 0);

    let xyz = XYZ::new(1_000_000, 1_100_000, 1_200_000);
    assert_eq!(xyz.x, 950_456);
    assert_eq!(xyz.y, 1_000_000);
    assert_eq!(xyz.z, 1_088_644);
}

#[test]
fn xyz_to_string_should_return_string_representation() {
    let xyz = XYZ::new(256_394, 223_987, 975_798);
    assert_eq!(xyz.to_string(), "XYZ(0.256394, 0.223987, 0.975798)");
}

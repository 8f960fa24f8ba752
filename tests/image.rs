use auto_palette::color::Lab;
use auto_palette::dbscan::Params;
use auto_palette::distance::EuclideanDistance;
use auto_palette::image::{ExtractError, ImageData};
use auto_palette::point::{Point5, UNIT};
use auto_palette::rgba::Rgba;

const WHITE_LAB: (f64, f64, f64) = (100.0, 0.0, 0.0);
const BLUE_LAB: (f64, f64, f64) = (32.302586, 79.196662, -107.863681);

fn to_lab(lab: (f64, f64, f64)) -> Lab {
    let f = |v: f64| (v * UNIT as f64).round() as i64;
    Lab::new(f(lab.0), f(lab.1), f(lab.2))
}

fn delta_e(lab: &Lab, expected: (f64, f64, f64)) -> f64 {
    let u = UNIT as f64;
    let dl = lab.l as f64 / u - expected.0;
    let da = lab.a as f64 / u - expected.1;
    let db = lab.b as f64 / u - expected.2;
    (dl * dl + da * da + db * db).sqrt()
}

/// A blue over white flag: the pixels and the colour of each.
fn flag(width: u32, height: u32) -> (Vec<u8>, Vec<Lab>) {
    let mut data = Vec::new();
    let mut labs = Vec::new();
    for y in 0..height {
        for _ in 0..width {
            if y < height / 2 {
                data.extend_from_slice(&[0, 0, 255, 255]);
                labs.push(to_lab(BLUE_LAB));
            } else {
                data.extend_from_slice(&[255, 255, 255, 255]);
                labs.push(to_lab(WHITE_LAB));
            }
        }
    }
    (data, labs)
}

fn defaults() -> Params<EuclideanDistance> {
    Params::new(25, 25_000, EuclideanDistance)
}

#[test]
fn extract_finds_the_two_colors_of_a_flag() {
    let (data, labs) = flag(120, 120);
    let image = ImageData::new(&data, 120, 120);
    let swatches = image.extract(&labs, &defaults()).unwrap();
    let total = (120 * 120) as f64;
    let kept: Vec<_> = swatches
        .iter()
        .filter(|swatch| swatch.count as f64 / total > 0.05)
        .collect();
    assert_eq!(kept.len(), 2);
    assert!(delta_e(&kept[0].color, BLUE_LAB) <= 5.0);
    assert!(delta_e(&kept[1].color, WHITE_LAB) <= 5.0);
    assert_eq!(kept[0].count, 7200);
    assert_eq!(kept[1].count, 7200);
    assert_eq!(kept[0].position, (59, 29));
    assert_eq!(kept[1].position, (59, 89));
}

#[test]
fn extract_orders_swatches_by_size() {
    let (data, labs) = flag(120, 150);
    let image = ImageData::new(&data, 120, 150);
    let swatches = image.extract(&labs, &defaults()).unwrap();
    let sum: usize = swatches.iter().map(|swatch| swatch.count).sum();
    assert!(sum <= 120 * 150);
    for pair in swatches.windows(2) {
        assert!(pair[0].count >= pair[1].count);
    }
    assert_eq!(swatches.len(), 2);
    assert_eq!(swatches[0].count, 120 * 75);
}

#[test]
fn extract_rejects_bad_dimensions() {
    let (data, labs) = flag(4, 4);
    let image = ImageData::new(&data[..60], 4, 4);
    assert_eq!(
        image.extract(&labs, &defaults()),
        Err(ExtractError::InvalidDimensions)
    );
    let image = ImageData::new(&data, 0, 4);
    assert_eq!(
        image.extract(&labs, &defaults()),
        Err(ExtractError::InvalidDimensions)
    );
    let image = ImageData::new(&data, 4, 4);
    assert_eq!(
        image.extract(&labs[..15].to_vec(), &defaults()),
        Err(ExtractError::InvalidDimensions)
    );
    assert_eq!(image.check_dimensions(), Ok(16));
}

#[test]
fn extract_rejects_bad_parameters() {
    let (data, labs) = flag(4, 4);
    let image = ImageData::new(&data, 4, 4);
    assert_eq!(
        image.extract(&labs, &Params::new(0, 25_000, EuclideanDistance)),
        Err(ExtractError::InvalidParameter)
    );
    assert_eq!(
        image.extract(&labs, &Params::new(25, 0, EuclideanDistance)),
        Err(ExtractError::InvalidParameter)
    );
}

#[test]
fn extract_of_a_tiny_image_keeps_only_outliers() {
    let (data, labs) = flag(4, 4);
    let image = ImageData::new(&data, 4, 4);
    assert_eq!(image.extract(&labs, &defaults()), Ok(Vec::new()));
}

#[test]
fn features_normalise_colour_and_position() {
    let (data, labs) = flag(4, 2);
    let image = ImageData::new(&data, 4, 2);
    let points = image.features(&labs);
    assert_eq!(points.len(), 8);
    assert_eq!(points[0], Point5::new(323_025, 310_575, -422_995, 0, 0));
    assert_eq!(points[7], Point5::new(1_000_000, 0, 0, 750_000, 500_000));
}

#[test]
fn pixel_reads_four_bytes() {
    let (data, _) = flag(2, 2);
    let image = ImageData::new(&data, 2, 2);
    assert_eq!(image.pixel(0), Rgba::blue());
    assert_eq!(image.pixel(3), Rgba::white());
    assert_eq!(image.width(), 2);
    assert_eq!(image.height(), 2);
}

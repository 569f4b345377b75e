use hyleus::interpolation::Interpolation;
use hyleus::texture::SampleType;
use hyleus::vectors::Axis;

#[test]
fn interpolation_from_byte() {
    assert_eq!(Interpolation::from(0u8), Interpolation::Linear);
    assert_eq!(Interpolation::from(1u8), Interpolation::Quadratic);
    assert_eq!(Interpolation::from(2u8), Interpolation::Cubic);
    assert_eq!(Interpolation::from(3u8), Interpolation::Step);
    assert_eq!(Interpolation::from(200u8), Interpolation::Linear);
}

#[test]
fn sample_type_bytes() {
    assert_eq!(SampleType::POINT.to_byte(), 0);
    assert_eq!(SampleType::LINEAR.to_byte(), 1);
    assert_eq!(SampleType::from_byte(0), SampleType::POINT);
    assert_eq!(SampleType::from_byte(7), SampleType::LINEAR);
}

#[test]
fn axes_compare() {
    assert!(Axis::X == Axis::X);
    assert!(Axis::Y != Axis::W);
    assert!(Axis::Z != Axis::X);
}

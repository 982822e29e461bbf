use pngframe::ColourType;

#[test]
fn wire_codes() {
    assert_eq!(ColourType::Grayscale.get_code(), 0);
    assert_eq!(ColourType::RGB.get_code(), 2);
    assert_eq!(ColourType::Palette.get_code(), 3);
    assert_eq!(ColourType::GrayscaleAlpha.get_code(), 4);
    assert_eq!(ColourType::RGBAlpha.get_code(), 6);
}

#[test]
fn legal_bit_depths_per_colour_type() {
    let all = [
        (ColourType::Grayscale, vec![1u8, 2, 4, 8, 16]),
        (ColourType::RGB, vec![8, 16]),
        (ColourType::Palette, vec![1, 2, 4, 8]),
        (ColourType::GrayscaleAlpha, vec![8, 16]),
        (ColourType::RGBAlpha, vec![8, 16]),
    ];
    for (colour, legal) in all {
        for depth in 0u8..=255 {
            assert_eq!(colour.valid_bit_depth(depth), legal.contains(&depth), "{:?} {}", colour, depth);
        }
    }
}

use fur::bytes::{pack, unpack};
use fur::color::{Color, Palette};
use fur::pixel::PixelFormat;

#[test]
fn pack_and_unpack_are_inverse() {
    assert_eq!(pack(0x12, 0x34, 0x56, 0x78), 0x1234_5678);
    assert_eq!(unpack(0x1234_5678), (0x12, 0x34, 0x56, 0x78));
    assert_eq!(pack(0, 0, 0, 0), 0);
    assert_eq!(pack(255, 255, 255, 255), u32::MAX);
    assert_eq!(unpack(0x8000_0001), (0x80, 0, 0, 1));
    for word in [0u32, 1, 0xff, 0x100, 0xdead_beef, u32::MAX] {
        let bytes = unpack(word);
        assert_eq!(pack(bytes.0, bytes.1, bytes.2, bytes.3), word);
    }
}

#[test]
fn every_format_but_the_paletted_takes_four_bytes() {
    assert_eq!(PixelFormat::ZeroRgb.size(), 4);
    assert_eq!(PixelFormat::RgbZero.size(), 4);
    assert_eq!(PixelFormat::Argb.size(), 4);
    assert_eq!(PixelFormat::Bgra.size(), 4);
    assert_eq!(PixelFormat::U8.size(), 1);
}

#[test]
fn each_format_lays_the_channels_out_its_own_way() {
    let color = Color::new_argb(0x11, 0x22, 0x33, 0x44);
    assert_eq!(PixelFormat::ZeroRgb.color_as_u32(&color), 0x0022_3344);
    assert_eq!(PixelFormat::RgbZero.color_as_u32(&color), 0x2233_4400);
    assert_eq!(PixelFormat::Argb.color_as_u32(&color), 0x1122_3344);
    assert_eq!(PixelFormat::Bgra.color_as_u32(&color), 0x4433_2211);
}

#[test]
fn the_paletted_format_stores_the_index() {
    let color = Color::new_u8(Palette::new(), 0x2a);
    assert_eq!(PixelFormat::U8.color_as_u32(&color), 0x2a);
}

#[test]
fn a_palette_index_goes_through_the_other_formats_by_its_entry() {
    let mut palette = Palette::new();
    palette.change_color(1, Color::new_argb(4, 3, 2, 1));
    let color = Color::new_u8(palette, 1);
    assert_eq!(PixelFormat::Argb.color_as_u32(&color), 0x0403_0201);
    assert_eq!(PixelFormat::ZeroRgb.color_as_u32(&color), 0x0003_0201);
}

#[test]
fn each_format_reads_a_word_its_own_way() {
    assert!(matches!(PixelFormat::ZeroRgb.u32_as_color(0x1122_3344), Color::Rgb(0x22, 0x33, 0x44)));
    assert!(matches!(PixelFormat::RgbZero.u32_as_color(0x1122_3344), Color::Rgb(0x11, 0x22, 0x33)));
    assert!(matches!(
        PixelFormat::Argb.u32_as_color(0x1122_3344),
        Color::Argb(0x11, 0x22, 0x33, 0x44)
    ));
    assert!(matches!(
        PixelFormat::Bgra.u32_as_color(0x1122_3344),
        Color::Bgra(0x11, 0x22, 0x33, 0x44)
    ));
}

#[test]
fn formats_with_alpha_give_every_colour_back() {
    let colors = [
        Color::new_argb(0, 0, 0, 0),
        Color::new_argb(255, 255, 255, 255),
        Color::new_argb(0x80, 1, 2, 3),
        Color::new_bgra(9, 8, 7, 6),
        Color::new_rgb(10, 20, 30),
    ];
    for format in [PixelFormat::Argb, PixelFormat::Bgra] {
        for color in &colors {
            let back = format.u32_as_color(format.color_as_u32(color));
            assert_eq!(back.as_argb_tuple(), color.as_argb_tuple());
            assert_eq!(&back, color);
        }
    }
}

#[test]
fn formats_without_alpha_give_red_green_and_blue_back() {
    let colors = [
        Color::new_argb(0x80, 1, 2, 3),
        Color::new_bgra(9, 8, 7, 6),
        Color::new_rgb(10, 20, 30),
        Color::new_argb(255, 255, 255, 255),
    ];
    for format in [PixelFormat::ZeroRgb, PixelFormat::RgbZero] {
        for color in &colors {
            let back = format.u32_as_color(format.color_as_u32(color));
            assert_eq!(back.as_rgb_tuple(), color.as_rgb_tuple());
            assert_eq!(back.alpha(), 0);
        }
    }
}

#[test]
fn formats_without_alpha_give_a_colour_of_alpha_zero_back_whole() {
    let color = Color::new_argb(0, 10, 20, 30);
    for format in [PixelFormat::ZeroRgb, PixelFormat::RgbZero] {
        assert_eq!(format.u32_as_color(format.color_as_u32(&color)), color);
    }
}

#[test]
fn formats_without_alpha_drop_it() {
    let color = Color::new_argb(0x80, 1, 2, 3);
    let back = PixelFormat::ZeroRgb.u32_as_color(PixelFormat::ZeroRgb.color_as_u32(&color));
    assert_eq!(back.as_argb_tuple(), (0, 1, 2, 3));
    assert_ne!(back, color);
}

#[test]
fn formats_are_ordered_as_they_are_listed() {
    assert!(PixelFormat::ZeroRgb < PixelFormat::RgbZero);
    assert!(PixelFormat::Bgra < PixelFormat::U8);
    assert_eq!(PixelFormat::Argb, PixelFormat::Argb);
}

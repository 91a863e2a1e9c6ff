use fur::color::{Color, Palette};

#[test]
fn constructors_keep_their_channels() {
    let rgb = Color::new_rgb(1, 2, 3);
    assert_eq!((rgb.alpha(), rgb.red(), rgb.green(), rgb.blue()), (0, 1, 2, 3));
    let argb = Color::new_argb(9, 1, 2, 3);
    assert_eq!((argb.alpha(), argb.red(), argb.green(), argb.blue()), (9, 1, 2, 3));
    let bgra = Color::new_bgra(3, 2, 1, 9);
    assert_eq!((bgra.alpha(), bgra.red(), bgra.green(), bgra.blue()), (9, 1, 2, 3));
}

#[test]
fn tuples_follow_their_names() {
    let color = Color::new_bgra(30, 20, 10, 40);
    assert_eq!(color.as_rgb_tuple(), (10, 20, 30));
    assert_eq!(color.as_argb_tuple(), (40, 10, 20, 30));
    assert_eq!(color.as_bgra_tuple(), (30, 20, 10, 40));
}

#[test]
fn rgb_answers_zero_for_alpha() {
    assert_eq!(Color::new_rgb(200, 100, 50).as_argb_tuple(), (0, 200, 100, 50));
}

#[test]
fn equality_compares_channels_not_encodings() {
    assert_eq!(Color::new_argb(0, 1, 2, 3), Color::new_rgb(1, 2, 3));
    assert_eq!(Color::new_argb(7, 1, 2, 3), Color::new_bgra(3, 2, 1, 7));
    assert_ne!(Color::new_argb(7, 1, 2, 3), Color::new_rgb(1, 2, 3));
    assert_ne!(Color::new_rgb(1, 2, 3), Color::new_rgb(1, 2, 4));
}

#[test]
fn packed_words_put_the_bytes_in_order() {
    let color = Color::new_argb(0x11, 0x22, 0x33, 0x44);
    assert_eq!(color.as_argb_u32(), 0x1122_3344);
    assert_eq!(color.as_bgra_u32(), 0x4433_2211);
    assert_eq!(color.as_0rgb_u32(), 0x0022_3344);
    assert_eq!(color.as_rgb0_u32(), 0x2233_4400);
    assert_eq!(color.as_bgr0_u32(), 0x4433_2200);
}

#[test]
fn words_unpack_into_the_encoding_asked_for() {
    assert_eq!(Color::from_argb_u32(0x1122_3344).as_argb_tuple(), (0x11, 0x22, 0x33, 0x44));
    assert_eq!(Color::from_0rgb_u32(0xff22_3344).as_argb_tuple(), (0, 0x22, 0x33, 0x44));
    assert_eq!(Color::from_rgb0_u32(0x2233_44ff).as_argb_tuple(), (0, 0x22, 0x33, 0x44));
    assert_eq!(Color::from_bgra_u32(0x4433_2211).as_argb_tuple(), (0x11, 0x22, 0x33, 0x44));
    assert!(matches!(Color::from_bgra_u32(0x4433_2211), Color::Bgra(0x44, 0x33, 0x22, 0x11)));
    assert!(matches!(Color::from_0rgb_u32(0xff22_3344), Color::Rgb(0x22, 0x33, 0x44)));
}

#[test]
fn words_at_the_ends_of_the_range() {
    assert_eq!(Color::from_argb_u32(0).as_argb_tuple(), (0, 0, 0, 0));
    assert_eq!(Color::from_argb_u32(u32::MAX).as_argb_tuple(), (255, 255, 255, 255));
    assert_eq!(Color::new_argb(255, 255, 255, 255).as_argb_u32(), u32::MAX);
    assert_eq!(Color::new_argb(0, 0, 0, 0).as_bgra_u32(), 0);
}

#[test]
fn mix_follows_the_formula() {
    let blend = Color::new_argb(0xaa, 0xff, 0, 0).mix(&Color::new_rgb(0, 0, 0));
    assert_eq!(blend.as_argb_tuple(), (113, 170, 0, 0));
    let blend = Color::new_argb(0x80, 200, 100, 50).mix(&Color::new_argb(0x40, 10, 20, 30));
    assert_eq!(blend.as_argb_tuple(), (96, 105, 60, 40));
    let blend = Color::new_argb(0x40, 10, 20, 30).mix(&Color::new_argb(0x80, 200, 100, 50));
    assert_eq!(blend.as_argb_tuple(), (112, 152, 80, 45));
}

#[test]
fn mix_gives_the_argb_encoding() {
    let blend = Color::new_bgra(1, 2, 3, 4).mix(&Color::new_rgb(5, 6, 7));
    assert!(matches!(blend, Color::Argb(_, _, _, _)));
}

#[test]
fn mix_stays_between_the_two_colours() {
    let white = Color::new_argb(0x80, 255, 255, 255);
    assert_eq!(white.mix(&white).as_argb_tuple(), (128, 255, 255, 255));
    let blend = Color::new_argb(1, 255, 0, 7).mix(&Color::new_argb(254, 0, 255, 7));
    assert_eq!(blend.as_argb_tuple(), (253, 1, 254, 7));
    let blend = Color::new_argb(254, 255, 0, 7).mix(&Color::new_argb(1, 0, 255, 7));
    assert_eq!(blend.as_argb_tuple(), (253, 254, 1, 7));
}

#[test]
fn an_opaque_colour_comes_out_of_a_mix_unchanged() {
    let opaque = Color::new_argb(255, 10, 20, 30);
    assert_eq!(opaque.mix(&Color::new_argb(0, 200, 100, 50)).as_argb_tuple(), (255, 10, 20, 30));
    let others = [
        Color::new_argb(0, 0, 0, 0),
        Color::new_argb(255, 255, 255, 255),
        Color::new_argb(0x80, 100, 200, 0),
        Color::new_rgb(7, 8, 9),
        Color::new_bgra(1, 2, 3, 4),
    ];
    for own in [opaque, Color::new_argb(255, 0, 0, 0), Color::new_bgra(255, 254, 253, 255)] {
        for other in &others {
            assert_eq!(own.mix(other), own);
            assert_eq!(own.mix(other).as_argb_tuple(), own.as_argb_tuple());
        }
    }
}

#[test]
fn an_opaque_colour_covers_whatever_it_is_mixed_over() {
    let own = Color::new_argb(255, 50, 100, 0);
    assert_eq!(own.mix(&Color::new_argb(255, 9, 8, 7)).as_argb_tuple(), (255, 50, 100, 0));
    assert_ne!(own.mix(&Color::new_argb(255, 9, 8, 7)), Color::new_argb(255, 9, 8, 7));
}

#[test]
fn a_colour_of_alpha_zero_does_not_show() {
    let blend = Color::new_argb(0, 10, 20, 30).mix(&Color::new_argb(0x80, 200, 100, 50));
    assert_eq!(blend.as_argb_tuple(), (0x80, 200, 100, 50));
    let blend = Color::new_rgb(12, 34, 56).mix(&Color::new_argb(255, 9, 9, 9));
    assert_eq!(blend.as_argb_tuple(), (255, 9, 9, 9));
}

#[test]
fn a_new_palette_is_all_white() {
    let palette = Palette::new();
    for index in [0u8, 1, 127, 255] {
        assert!(matches!(palette.get_color(index), Color::Argb(0, 0xff, 0xff, 0xff)));
    }
    let palette = Palette::default();
    assert_eq!(palette.get_color(200).as_argb_tuple(), (0, 255, 255, 255));
}

#[test]
fn change_color_changes_one_entry() {
    let mut palette = Palette::new();
    palette.change_color(7, Color::new_rgb(1, 2, 3));
    assert_eq!(palette.get_color(7).as_argb_tuple(), (0, 1, 2, 3));
    assert_eq!(palette.get_color(6).as_argb_tuple(), (0, 255, 255, 255));
    assert_eq!(palette.get_color(8).as_argb_tuple(), (0, 255, 255, 255));
}

#[test]
fn change_color_chains() {
    let mut palette = Palette::new();
    palette
        .change_color(0, Color::new_rgb(1, 1, 1))
        .change_color(255, Color::new_rgb(2, 2, 2))
        .change_color(0, Color::new_rgb(3, 3, 3));
    assert_eq!(palette.get_color(0).as_rgb_tuple(), (3, 3, 3));
    assert_eq!(palette.get_color(255).as_rgb_tuple(), (2, 2, 2));
}

#[test]
fn a_copy_of_a_palette_is_not_changed_with_it() {
    let mut palette = Palette::new();
    palette.change_color(3, Color::new_rgb(9, 9, 9));
    let copy = palette.clone();
    assert_eq!(copy.get_color(3).as_rgb_tuple(), (9, 9, 9));
    palette.change_color(3, Color::new_rgb(4, 4, 4));
    assert_eq!(palette.get_color(3).as_rgb_tuple(), (4, 4, 4));
    assert_eq!(copy.get_color(3).as_rgb_tuple(), (9, 9, 9));
}

#[test]
fn a_palette_index_answers_with_its_entry() {
    let mut palette = Palette::new();
    palette.change_color(5, Color::new_argb(4, 3, 2, 1));
    let color = Color::new_u8(palette.clone(), 5);
    assert_eq!(color.as_argb_tuple(), (4, 3, 2, 1));
    assert_eq!((color.alpha(), color.red(), color.green(), color.blue()), (4, 3, 2, 1));
    assert_eq!(color.as_rgb_tuple(), (3, 2, 1));
    assert_eq!(color.as_argb_u32(), 0x0403_0201);
    assert_eq!(color, Color::new_argb(4, 3, 2, 1));
    let copy = color.clone();
    assert_eq!(copy.as_argb_tuple(), (4, 3, 2, 1));
}

#[test]
fn a_palette_index_may_name_another_palette_index() {
    let mut inner = Palette::new();
    inner.change_color(1, Color::new_rgb(10, 20, 30));
    let mut outer = Palette::new();
    outer.change_color(2, Color::new_u8(inner, 1));
    assert_eq!(Color::new_u8(outer, 2).as_argb_tuple(), (0, 10, 20, 30));
}

#[test]
fn as_u8_finds_the_lowest_index() {
    let mut palette = Palette::new();
    palette.change_color(9, Color::new_rgb(1, 2, 3));
    palette.change_color(4, Color::new_argb(0, 1, 2, 3));
    assert_eq!(Color::new_rgb(1, 2, 3).as_u8(&palette), Some(4));
    assert_eq!(Color::new_argb(0, 255, 255, 255).as_u8(&palette), Some(0));
    assert_eq!(Color::new_rgb(7, 7, 7).as_u8(&palette), None);
    palette.change_color(255, Color::new_rgb(7, 7, 7));
    assert_eq!(Color::new_rgb(7, 7, 7).as_u8(&palette), Some(255));
}

use fur::color::Color;
use fur::display::buffers::{ColorBuffer, DrawBuffer};
use fur::display::layer::Layer;
use fur::display::{blend_onto, Display, DisplayDriver};
use fur::pixel::PixelFormat;

fn black(count: usize) -> Vec<Color> {
    vec![Color::new_rgb(0, 0, 0); count]
}

fn read_all<D: DisplayDriver>(driver: &D) -> Vec<(u8, u8, u8, u8)> {
    let (width, height) = driver.size();
    let mut pixels = black(width * height);
    driver.read(0, 0, width, height, &mut pixels);
    pixels.iter().map(|color| color.as_argb_tuple()).collect()
}

fn layer_of(
    display: &mut Display<ColorBuffer>,
    width: usize,
    height: usize,
    x: usize,
    y: usize,
    color: &Color,
) -> Layer {
    let layer = display.create_layer(width, height, x, y);
    display.layer_mut(&layer).unwrap().fill(0, 0, width, height, color);
    layer
}

#[test]
fn a_new_color_buffer_is_black() {
    let buffer = ColorBuffer::new(3, 2);
    assert_eq!(buffer.size(), (3, 2));
    assert_eq!(read_all(&buffer), vec![(0, 0, 0, 0); 6]);
}

#[test]
fn an_empty_color_buffer_can_be_made() {
    let buffer = ColorBuffer::new(0, 5);
    assert_eq!(buffer.size(), (0, 5));
    let mut pixels = black(0);
    buffer.read(0, 0, 0, 5, &mut pixels);
    assert!(pixels.is_empty());
}

#[test]
fn write_stores_a_rectangle_row_by_row() {
    let mut buffer = ColorBuffer::new(4, 3);
    let pixels = vec![
        Color::new_rgb(1, 0, 0),
        Color::new_rgb(2, 0, 0),
        Color::new_rgb(3, 0, 0),
        Color::new_rgb(4, 0, 0),
    ];
    buffer.write(1, 1, 2, 2, &pixels);
    let reds: Vec<u8> = read_all(&buffer).iter().map(|argb| argb.1).collect();
    assert_eq!(reds, vec![0, 0, 0, 0, 0, 1, 2, 0, 0, 3, 4, 0]);
}

#[test]
fn read_copies_a_rectangle_row_by_row_and_leaves_the_rest() {
    let mut buffer = ColorBuffer::new(3, 3);
    let pixels: Vec<Color> = (1..=9).map(|red| Color::new_rgb(red, 0, 0)).collect();
    buffer.write(0, 0, 3, 3, &pixels);
    let mut out = vec![Color::new_rgb(99, 0, 0); 6];
    buffer.read(1, 0, 2, 2, &mut out);
    let reds: Vec<u8> = out.iter().map(|color| color.red()).collect();
    assert_eq!(reds, vec![2, 3, 5, 6, 99, 99]);
}

#[test]
fn fill_stores_one_colour_in_a_rectangle() {
    let mut buffer = ColorBuffer::new(3, 3);
    buffer.fill(1, 0, 2, 2, &Color::new_argb(7, 1, 2, 3));
    let got = read_all(&buffer);
    let c = (7, 1, 2, 3);
    let o = (0, 0, 0, 0);
    assert_eq!(got, vec![o, c, c, o, c, c, o, o, o]);
}

#[test]
fn a_color_buffer_keeps_a_palette_index_as_it_is() {
    let mut palette = fur::color::Palette::new();
    palette.change_color(3, Color::new_argb(4, 3, 2, 1));
    let mut buffer = ColorBuffer::new(1, 1);
    buffer.fill(0, 0, 1, 1, &Color::new_u8(palette, 3));
    let mut out = black(1);
    buffer.read(0, 0, 1, 1, &mut out);
    assert!(matches!(out[0], Color::U8(_, 3)));
    assert_eq!(out[0].as_argb_tuple(), (4, 3, 2, 1));
}

#[test]
fn a_new_draw_buffer_is_all_zero() {
    let buffer = DrawBuffer::new(2, 2, PixelFormat::Argb);
    assert_eq!(buffer.size(), (2, 2));
    for y in 0..2 {
        for x in 0..2 {
            assert_eq!(buffer.word(x, y), 0);
        }
    }
}

#[test]
fn a_draw_buffer_stores_words_in_its_format() {
    let mut buffer = DrawBuffer::new(2, 2, PixelFormat::Bgra);
    buffer.write(1, 0, 1, 2, &[Color::new_argb(0x11, 0x22, 0x33, 0x44), Color::new_rgb(1, 2, 3)]);
    assert_eq!(buffer.word(0, 0), 0);
    assert_eq!(buffer.word(1, 0), 0x4433_2211);
    assert_eq!(buffer.word(1, 1), 0x0302_0100);
    let got = read_all(&buffer);
    assert_eq!(got, vec![(0, 0, 0, 0), (0x11, 0x22, 0x33, 0x44), (0, 0, 0, 0), (0, 1, 2, 3)]);
}

#[test]
fn a_draw_buffer_without_alpha_drops_it() {
    let mut buffer = DrawBuffer::new(1, 1, PixelFormat::ZeroRgb);
    buffer.fill(0, 0, 1, 1, &Color::new_argb(0x80, 1, 2, 3));
    assert_eq!(buffer.word(0, 0), 0x0001_0203);
    assert_eq!(read_all(&buffer), vec![(0, 1, 2, 3)]);
}

#[test]
fn write_at_stores_one_word() {
    let mut buffer = DrawBuffer::new(3, 2, PixelFormat::Argb);
    buffer.write_at(2, 1, 0xdead_beef);
    buffer.write_at(0, 0, 7);
    for y in 0..2 {
        for x in 0..3 {
            let expected = match (x, y) {
                (2, 1) => 0xdead_beef,
                (0, 0) => 7,
                _ => 0,
            };
            assert_eq!(buffer.word(x, y), expected);
        }
    }
    assert_eq!(read_all(&buffer)[5], (0xde, 0xad, 0xbe, 0xef));
}

#[test]
fn a_new_layer_has_the_place_and_size_it_was_made_with() {
    let mut display = Display::new(ColorBuffer::new(8, 8), 8, 8);
    let layer = display.create_layer(3, 2, 4, 5);
    let data = display.layer(&layer).unwrap();
    assert_eq!(data.position(), (4, 5));
    assert_eq!(data.size(), (3, 2));
    assert_eq!(DisplayDriver::size(data), (3, 2));
    assert_eq!(read_all(data), vec![(0, 0, 0, 0); 6]);
}

#[test]
fn move_to_and_resize_change_what_they_name() {
    let mut display = Display::new(ColorBuffer::new(8, 8), 8, 8);
    let layer = display.create_layer(3, 2, 4, 5);
    let data = display.layer_mut(&layer).unwrap();
    data.move_to(1, 2);
    assert_eq!(data.position(), (1, 2));
    assert_eq!(data.size(), (3, 2));
    data.resize(2, 1);
    assert_eq!(data.position(), (1, 2));
    assert_eq!(data.size(), (2, 1));
    assert_eq!(DisplayDriver::size(data), (3, 2));
    assert_eq!(display.layer(&layer).unwrap().position(), (1, 2));
}

#[test]
fn create_layer_gives_distinct_handles_that_resolve() {
    let mut display = Display::new(ColorBuffer::new(4, 4), 4, 4);
    let mut handles: Vec<Layer> = Vec::new();
    for index in 0..10usize {
        let layer = display.create_layer(1, 1, index % 4, 0);
        assert!(!handles.contains(&layer));
        handles.push(layer);
    }
    for (index, layer) in handles.iter().enumerate() {
        assert_eq!(display.layer(layer).unwrap().position(), (index % 4, 0));
        assert!(display.layer_mut(layer).is_some());
    }
}

#[test]
fn an_unknown_handle_resolves_to_nothing() {
    let mut other = Display::new(ColorBuffer::new(1, 1), 1, 1);
    other.create_layer(1, 1, 0, 0);
    let unknown = other.create_layer(1, 1, 0, 0);
    let mut display = Display::new(ColorBuffer::new(1, 1), 1, 1);
    assert!(display.layer(&unknown).is_none());
    assert!(display.layer_mut(&unknown).is_none());
    let known = display.create_layer(1, 1, 0, 0);
    assert!(display.layer(&known).is_some());
    assert!(display.layer(&unknown).is_none());
    assert!(display.layer_mut(&unknown).is_none());
    assert_eq!(display.put_upper_than(&known, &unknown), None);
    assert_eq!(display.put_upper_than(&unknown, &known), None);
    assert_eq!(display.put_upper_than(&known, &known), Some(()));
}

#[test]
fn blend_onto_mixes_the_layer_over_what_lies_under_it() {
    let mut display = Display::new(ColorBuffer::new(1, 1), 1, 1);
    let layer = layer_of(&mut display, 2, 1, 1, 0, &Color::new_argb(0x80, 200, 100, 50));
    let mut sink = ColorBuffer::new(4, 1);
    sink.fill(0, 0, 4, 1, &Color::new_argb(0x40, 10, 20, 30));
    blend_onto(&mut sink, display.layer(&layer).unwrap());
    let under = (0x40, 10, 20, 30);
    let mixed = (96, 105, 60, 40);
    assert_eq!(read_all(&sink), vec![under, mixed, mixed, under]);
}

#[test]
fn flush_all_paints_layers_from_the_lowest_priority_up() {
    let mut display = Display::new(ColorBuffer::new(3, 1), 3, 1);
    let first = layer_of(&mut display, 2, 1, 0, 0, &Color::new_argb(0x80, 10, 20, 30));
    let second = layer_of(&mut display, 2, 1, 1, 0, &Color::new_argb(0x80, 1, 2, 3));
    display.flush_all();
    assert_eq!(read_all(&display), vec![(64, 5, 10, 15), (96, 3, 6, 9), (64, 1, 1, 2)]);
    assert!(display.layer(&first).is_some());
    assert!(display.layer(&second).is_some());
}

#[test]
fn flush_all_mixes_over_what_the_sink_holds() {
    let mut sink = ColorBuffer::new(2, 1);
    sink.fill(0, 0, 2, 1, &Color::new_argb(0x40, 10, 20, 30));
    let mut display = Display::new(sink, 2, 1);
    layer_of(&mut display, 1, 1, 1, 0, &Color::new_argb(0x80, 200, 100, 50));
    display.flush_all();
    assert_eq!(read_all(&display), vec![(0x40, 10, 20, 30), (96, 105, 60, 40)]);
}

#[test]
fn the_layer_painted_last_shows() {
    let red = Color::new_argb(255, 200, 0, 0);
    let green = Color::new_argb(255, 0, 200, 0);
    let mut display = Display::new(ColorBuffer::new(1, 1), 1, 1);
    layer_of(&mut display, 1, 1, 0, 0, &red);
    layer_of(&mut display, 1, 1, 0, 0, &green);
    display.flush_all();
    assert_eq!(read_all(&display), vec![(255, 0, 200, 0)]);

    let mut display = Display::new(ColorBuffer::new(1, 1), 1, 1);
    let a = layer_of(&mut display, 1, 1, 0, 0, &red);
    let b = layer_of(&mut display, 1, 1, 0, 0, &green);
    assert_eq!(display.put_upper_than(&a, &b), Some(()));
    display.flush_all();
    assert_eq!(read_all(&display), vec![(255, 200, 0, 0)]);
}

#[test]
fn the_order_of_painting_shows_in_a_mix() {
    let under = Color::new_argb(0x80, 0, 0, 0);
    let over = Color::new_argb(0x40, 0, 0, 0);
    let mut display = Display::new(ColorBuffer::new(1, 1), 1, 1);
    let a = layer_of(&mut display, 1, 1, 0, 0, &under);
    let b = layer_of(&mut display, 1, 1, 0, 0, &over);
    display.flush_all();
    assert_eq!(read_all(&display), vec![(64, 0, 0, 0)]);

    assert_eq!(display.put_upper_than(&a, &b), Some(()));
    display.fill(0, 0, 1, 1, &Color::new_rgb(0, 0, 0));
    display.flush_all();
    assert_eq!(read_all(&display), vec![(72, 0, 0, 0)]);
}

#[test]
fn a_layer_put_upper_is_painted_behind_those_already_at_that_priority() {
    let mut display = Display::new(ColorBuffer::new(1, 1), 1, 1);
    let a = layer_of(&mut display, 1, 1, 0, 0, &Color::new_argb(255, 1, 1, 1));
    let b = layer_of(&mut display, 1, 1, 0, 0, &Color::new_argb(255, 2, 2, 2));
    let c = layer_of(&mut display, 1, 1, 0, 0, &Color::new_argb(255, 3, 3, 3));
    display.flush_all();
    assert_eq!(read_all(&display), vec![(255, 3, 3, 3)]);
    assert_eq!(display.put_upper_than(&a, &b), Some(()));
    display.flush_all();
    assert_eq!(read_all(&display), vec![(255, 1, 1, 1)]);
    assert_eq!(display.put_upper_than(&c, &b), Some(()));
    display.flush_all();
    assert_eq!(read_all(&display), vec![(255, 3, 3, 3)]);
    assert_eq!(display.put_upper_than(&b, &a), Some(()));
    display.flush_all();
    assert_eq!(read_all(&display), vec![(255, 2, 2, 2)]);
}

#[test]
fn put_upper_than_itself_moves_a_layer_up_one_priority() {
    let mut display = Display::new(ColorBuffer::new(1, 1), 1, 1);
    let a = layer_of(&mut display, 1, 1, 0, 0, &Color::new_argb(255, 1, 1, 1));
    let b = layer_of(&mut display, 1, 1, 0, 0, &Color::new_argb(255, 2, 2, 2));
    display.flush_all();
    assert_eq!(read_all(&display), vec![(255, 2, 2, 2)]);
    assert_eq!(display.put_upper_than(&a, &a), Some(()));
    display.flush_all();
    assert_eq!(read_all(&display), vec![(255, 1, 1, 1)]);
    assert!(display.layer(&b).is_some());
}

#[test]
fn an_opaque_layer_put_upper_shows_in_the_overlap() {
    let color_a = Color::new_argb(255, 10, 20, 30);
    let color_b = Color::new_argb(255, 200, 100, 50);
    let mut sink = ColorBuffer::new(4, 1);
    sink.fill(0, 0, 4, 1, &Color::new_argb(0x80, 9, 9, 9));
    let mut display = Display::new(sink, 4, 1);
    let layer_b = layer_of(&mut display, 3, 1, 1, 0, &color_b);
    let layer_a = layer_of(&mut display, 3, 1, 0, 0, &color_a);
    display.flush_all();
    assert_eq!(read_all(&display)[1], (255, 10, 20, 30));
    assert_eq!(display.put_upper_than(&layer_b, &layer_a), Some(()));
    display.flush_all();
    let mut pixels = black(2);
    display.read(1, 0, 2, 1, &mut pixels);
    for pixel in &pixels {
        assert_eq!(pixel, &color_b);
        assert_ne!(pixel, &color_a);
        assert_eq!(pixel.as_argb_tuple(), (255, 200, 100, 50));
    }
    assert_eq!(read_all(&display), vec![
        (255, 10, 20, 30),
        (255, 200, 100, 50),
        (255, 200, 100, 50),
        (255, 200, 100, 50),
    ]);
}

#[test]
fn flush_area_paints_the_layers_inside_the_ranges_only() {
    let mut display = Display::new(ColorBuffer::new(6, 1), 6, 1);
    layer_of(&mut display, 2, 1, 0, 0, &Color::new_argb(255, 1, 1, 1));
    layer_of(&mut display, 2, 1, 2, 0, &Color::new_argb(255, 2, 2, 2));
    layer_of(&mut display, 2, 1, 4, 0, &Color::new_argb(255, 3, 3, 3));
    display.flush_area((2, 5), (0, 2));
    let o = (0, 0, 0, 0);
    let c = (255, 2, 2, 2);
    assert_eq!(read_all(&display), vec![o, o, c, c, o, o]);
}

#[test]
fn flush_area_takes_the_start_of_a_range_in_and_leaves_its_end_out() {
    let mut display = Display::new(ColorBuffer::new(4, 4), 4, 4);
    layer_of(&mut display, 2, 2, 1, 1, &Color::new_argb(255, 5, 5, 5));
    display.flush_area((1, 3), (1, 4));
    assert_eq!(read_all(&display), vec![(0, 0, 0, 0); 16]);
    display.flush_area((1, 4), (1, 3));
    assert_eq!(read_all(&display), vec![(0, 0, 0, 0); 16]);
    display.flush_area((2, 4), (1, 4));
    assert_eq!(read_all(&display), vec![(0, 0, 0, 0); 16]);
    display.flush_area((1, 4), (1, 4));
    let o = (0, 0, 0, 0);
    let c = (255, 5, 5, 5);
    assert_eq!(read_all(&display), vec![o, o, o, o, o, c, c, o, o, c, c, o, o, o, o, o]);
}

#[test]
fn flush_area_mixes_as_flush_all_does() {
    let mut sink = ColorBuffer::new(2, 2);
    sink.fill(0, 0, 2, 2, &Color::new_argb(0x40, 10, 20, 30));
    let mut display = Display::new(sink, 2, 2);
    layer_of(&mut display, 1, 1, 0, 0, &Color::new_argb(0x80, 200, 100, 50));
    display.flush_area((0, 2), (0, 2));
    let under = (0x40, 10, 20, 30);
    assert_eq!(read_all(&display), vec![(96, 105, 60, 40), under, under, under]);
}

#[test]
fn a_flush_onto_a_sink_without_alpha_keeps_what_the_sink_keeps() {
    let mut display = Display::new(DrawBuffer::new(2, 1, PixelFormat::ZeroRgb), 2, 1);
    let layer = display.create_layer(1, 1, 1, 0);
    display.layer_mut(&layer).unwrap().fill(0, 0, 1, 1, &Color::new_argb(0xaa, 0xff, 0, 0));
    display.flush_all();
    let mut pixels = black(2);
    display.read(0, 0, 2, 1, &mut pixels);
    assert_eq!(pixels[0].as_argb_tuple(), (0, 0, 0, 0));
    assert_eq!(pixels[1].as_argb_tuple(), (0, 170, 0, 0));
}

#[test]
fn a_layer_without_alpha_does_not_show() {
    let mut sink = ColorBuffer::new(1, 1);
    sink.fill(0, 0, 1, 1, &Color::new_argb(0x80, 9, 9, 9));
    let mut display = Display::new(sink, 1, 1);
    layer_of(&mut display, 1, 1, 0, 0, &Color::new_rgb(200, 100, 50));
    display.flush_all();
    assert_eq!(read_all(&display), vec![(0x80, 9, 9, 9)]);
}

#[test]
fn flushable_tells_whether_every_layer_lies_on_the_sink() {
    let mut display = Display::new(ColorBuffer::new(4, 4), 4, 4);
    let layer = display.create_layer(2, 2, 2, 2);
    assert!(display.flushable(None));
    display.layer_mut(&layer).unwrap().move_to(3, 2);
    assert!(!display.flushable(None));
    assert!(!display.flushable(Some(((0, 6), (0, 6)))));
    assert!(display.flushable(Some(((0, 5), (0, 5)))));
    display.layer_mut(&layer).unwrap().move_to(0, 0);
    assert!(display.flushable(None));
    display.layer_mut(&layer).unwrap().resize(3, 2);
    assert!(!display.flushable(None));
    display.layer_mut(&layer).unwrap().resize(1, 1);
    assert!(display.flushable(None));
    display.layer_mut(&layer).unwrap().move_to(usize::MAX, 0);
    assert!(!display.flushable(None));
}

#[test]
fn the_display_reads_and_writes_past_its_layers() {
    let mut display = Display::new(ColorBuffer::new(2, 2), 2, 2);
    let layer = layer_of(&mut display, 1, 1, 0, 0, &Color::new_rgb(9, 9, 9));
    assert_eq!(display.size(), (2, 2));
    display.write(0, 1, 2, 1, &[Color::new_rgb(1, 1, 1), Color::new_rgb(2, 2, 2)]);
    display.fill(1, 0, 1, 1, &Color::new_rgb(3, 3, 3));
    let o = (0, 0, 0, 0);
    assert_eq!(read_all(&display), vec![o, (0, 3, 3, 3), (0, 1, 1, 1), (0, 2, 2, 2)]);
    assert_eq!(read_all(display.layer(&layer).unwrap()), vec![(0, 9, 9, 9)]);
}

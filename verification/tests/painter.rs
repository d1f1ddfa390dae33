use kodecks_client::painter::{
    cost_overlay, decimal_chars, draw_shield, power_overlay, render_card, underlay, Alignment,
    DrawOptions, Image, NumberPainter, PowerChange, Rgba, CARD_HEIGHT, CARD_WIDTH,
};

const CLEAR: Rgba = Rgba { r: 0, g: 0, b: 0, a: 0 };
const INK: Rgba = Rgba { r: 9, g: 9, b: 9, a: 255 };
const BLACK: Rgba = Rgba { r: 0, g: 0, b: 0, a: 255 };
const WHITE: Rgba = Rgba { r: 255, g: 255, b: 255, a: 255 };

fn image_of(width: u32, height: u32, opaque: &[(u32, u32)]) -> Image {
    let mut img = Image::filled(width, height, CLEAR);
    for &(x, y) in opaque {
        img.put_pixel(x, y, INK);
    }
    img
}

/// A glyph three pixels wide and tall with its middle column inked.
fn bar() -> Image {
    image_of(3, 3, &[(1, 0), (1, 1), (1, 2)])
}

/// A glyph two pixels wide and four tall, fully inked.
fn block() -> Image {
    image_of(2, 4, &[(0, 0), (1, 0), (0, 1), (1, 1), (0, 2), (1, 2), (0, 3), (1, 3)])
}

fn painter() -> NumberPainter {
    NumberPainter::new(vec![('1', bar()), ('o', block())]).unwrap()
}

fn options(x: u32, y: u32, h: Alignment, v: Alignment) -> DrawOptions {
    DrawOptions { x, y, h_align: h, v_align: v, foreground: BLACK, background: WHITE }
}

#[test]
fn test_painter_needs_an_o_glyph() {
    assert!(NumberPainter::new(vec![('1', bar())]).is_none());
    assert!(NumberPainter::new(vec![('o', Image::filled(0, 2, CLEAR))]).is_none());
    assert!(NumberPainter::new(vec![('o', bar())]).is_some());
}

#[test]
fn test_draw_one_glyph_with_outline() {
    let mut img = Image::filled(10, 6, CLEAR);
    painter().draw("1", &options(2, 1, Alignment::Start, Alignment::Start), &mut img);
    for y in 1..4 {
        assert_eq!(img.get_pixel(2, y), WHITE);
        assert_eq!(img.get_pixel(3, y), BLACK);
        assert_eq!(img.get_pixel(4, y), WHITE);
    }
    assert_eq!(img.get_pixel(1, 1), CLEAR);
    assert_eq!(img.get_pixel(3, 0), CLEAR);
    assert_eq!(img.get_pixel(3, 4), CLEAR);
}

#[test]
fn test_glyphs_overlap_by_one_column() {
    let mut img = Image::filled(10, 6, CLEAR);
    painter().draw("11", &options(2, 1, Alignment::Start, Alignment::Start), &mut img);
    assert_eq!(img.get_pixel(3, 1), BLACK);
    assert_eq!(img.get_pixel(4, 1), WHITE);
    assert_eq!(img.get_pixel(5, 1), BLACK);
    assert_eq!(img.get_pixel(6, 1), WHITE);
    assert_eq!(img.get_pixel(7, 1), CLEAR);
}

#[test]
fn test_alignment_moves_the_text() {
    let mut end = Image::filled(10, 6, CLEAR);
    painter().draw("11", &options(6, 1, Alignment::End, Alignment::Start), &mut end);
    let mut start = Image::filled(10, 6, CLEAR);
    painter().draw("11", &options(2, 1, Alignment::Start, Alignment::Start), &mut start);
    assert_eq!(end.to_rgba_bytes(), start.to_rgba_bytes());

    let mut centred = Image::filled(10, 8, CLEAR);
    painter().draw("1", &options(4, 3, Alignment::Center, Alignment::Center), &mut centred);
    // width 2 and height 3: moved left by 1 and up by 1.
    assert_eq!(centred.get_pixel(4, 2), BLACK);
    assert_eq!(centred.get_pixel(3, 2), WHITE);

    let mut clamped = Image::filled(10, 8, CLEAR);
    painter().draw("1", &options(0, 0, Alignment::End, Alignment::End), &mut clamped);
    assert_eq!(clamped.get_pixel(1, 0), BLACK);
}

#[test]
fn test_unknown_characters_use_the_o_glyph() {
    let mut img = Image::filled(6, 6, CLEAR);
    painter().draw("z", &options(1, 1, Alignment::Start, Alignment::Start), &mut img);
    assert_eq!(img.get_pixel(1, 1), BLACK);
    assert_eq!(img.get_pixel(2, 4), BLACK);
    // A glyph without transparent pixels has no outline.
    assert_eq!(img.get_pixel(0, 1), CLEAR);
    assert_eq!(img.get_pixel(3, 4), CLEAR);
}

#[test]
fn test_default_options() {
    let o = DrawOptions::default();
    assert_eq!(o, options(0, 0, Alignment::Start, Alignment::Start));
    assert_eq!(Alignment::default(), Alignment::Start);
}

#[test]
fn test_image_bytes_round_trip() {
    let bytes: Vec<u8> = (0..24u8).collect();
    let img = Image::from_rgba_bytes(3, 2, &bytes).unwrap();
    assert_eq!(img.get_pixel(1, 1), Rgba { r: 16, g: 17, b: 18, a: 19 });
    assert_eq!(img.to_rgba_bytes(), bytes);
    assert!(Image::from_rgba_bytes(3, 3, &bytes).is_none());
    assert!(Image::from_rgba_bytes(2, 2, &bytes[..15]).is_none());
}

#[test]
fn test_underlay_fills_transparent_pixels() {
    let mut frame = Image::filled(4, 4, INK);
    frame.put_pixel(1, 1, CLEAR);
    frame.put_pixel(2, 2, CLEAR);
    let art = Image::from_rgba_bytes(2, 2, &[1, 1, 1, 255, 2, 2, 2, 255, 3, 3, 3, 255, 4, 4, 4, 255]).unwrap();
    underlay(&mut frame, &art, 1, 1, None);
    assert_eq!(frame.get_pixel(1, 1), Rgba { r: 1, g: 1, b: 1, a: 255 });
    assert_eq!(frame.get_pixel(2, 2), Rgba { r: 4, g: 4, b: 4, a: 255 });
    assert_eq!(frame.get_pixel(2, 1), INK);
    assert_eq!(frame.get_pixel(0, 0), INK);
}

#[test]
fn test_underlay_takes_only_the_first_rows() {
    let mut frame = Image::filled(3, 3, CLEAR);
    let art = Image::filled(2, 3, INK);
    underlay(&mut frame, &art, 0, 0, Some(2));
    assert_eq!(frame.get_pixel(1, 1), INK);
    assert_eq!(frame.get_pixel(1, 2), CLEAR);
}

#[test]
fn test_draw_shield() {
    let mut img = Image::filled(10, 5, CLEAR);
    let pic = image_of(2, 1, &[(0, 0)]);
    draw_shield(&mut img, &pic, 8, 3, 2);
    assert_eq!(img.get_pixel(3, 2), INK);
    assert_eq!(img.get_pixel(6, 2), INK);
    assert_eq!(img.get_pixel(4, 2), CLEAR);
    assert_eq!(img.get_pixel(7, 2), CLEAR);
    let mut none = Image::filled(10, 5, CLEAR);
    draw_shield(&mut none, &pic, 8, 3, 0);
    assert_eq!(none.to_rgba_bytes(), Image::filled(10, 5, CLEAR).to_rgba_bytes());
}

#[test]
fn test_decimal_chars() {
    assert_eq!(decimal_chars(0), vec!['0']);
    assert_eq!(decimal_chars(305), vec!['3', '0', '5']);
    assert_eq!(decimal_chars(u32::MAX).into_iter().collect::<String>(), u32::MAX.to_string());
}

#[test]
fn test_render_card() {
    let art = Image::filled(2, 2, INK);
    let frame = Image::filled(10, 20, CLEAR);
    let deck_frame = Image::filled(16, 6, CLEAR);
    let stack_frame = Image::filled(18, 6, CLEAR);
    let (card, deck, stack) = render_card(&art, frame, deck_frame, stack_frame, 1, false, BLACK, &painter());
    assert_eq!(card.get_pixel(4, 14), INK);
    assert_eq!(card.get_pixel(5, 15), INK);
    // The cost "1" is drawn from (2, 2) in white on the background.
    assert_eq!(card.get_pixel(3, 2), WHITE);
    assert_eq!(card.get_pixel(2, 2), BLACK);
    assert_eq!(deck.get_pixel(11, 2), INK);
    assert_eq!(stack.get_pixel(15, 3), INK);
    assert_eq!(stack.get_pixel(13, 2), CLEAR);

    let (token, _, _) = render_card(&art, Image::filled(10, 20, CLEAR), Image::filled(16, 6, CLEAR), Image::filled(18, 6, CLEAR), 1, true, WHITE, &painter());
    assert_eq!(token.get_pixel(3, 2), CLEAR);
}

#[test]
fn test_overlays() {
    let cost = cost_overlay(&painter(), 1, BLACK);
    assert_eq!((cost.width(), cost.height()), (CARD_WIDTH, CARD_HEIGHT));
    assert_eq!(cost.get_pixel(3, 2), BLACK);
    assert_eq!(cost.get_pixel(2, 2), WHITE);

    let power = power_overlay(&painter(), Some((10, PowerChange::Higher)), BLACK);
    assert_eq!((power.width(), power.height()), (CARD_WIDTH, CARD_WIDTH));
    // "1o": the bar from column 3, the block from column 5; rows centred on 18.
    assert_eq!(power.get_pixel(4, 17), Rgba { r: 255, g: 100, b: 100, a: 255 });
    assert_eq!(power.get_pixel(5, 16), Rgba { r: 255, g: 100, b: 100, a: 255 });
    assert_eq!(power.get_pixel(3, 17), BLACK);

    let lower = power_overlay(&painter(), Some((1, PowerChange::Lower)), BLACK);
    assert_eq!(lower.get_pixel(4, 17), Rgba { r: 100, g: 100, b: 255, a: 255 });

    let none = power_overlay(&painter(), None, BLACK);
    assert_eq!(none.to_rgba_bytes(), Image::filled(CARD_WIDTH, CARD_WIDTH, CLEAR).to_rgba_bytes());
}

#[test]
fn test_decode_png() {
    let raw: Vec<u8> = vec![10, 20, 30, 255, 40, 50, 60, 128, 70, 80, 90, 0, 1, 2, 3, 4];
    let buffer = image::RgbaImage::from_raw(2, 2, raw.clone()).unwrap();
    let mut png = std::io::Cursor::new(Vec::new());
    image::DynamicImage::ImageRgba8(buffer).write_to(&mut png, image::ImageFormat::Png).unwrap();
    let img = Image::decode_png(png.get_ref()).unwrap();
    assert_eq!((img.width(), img.height()), (2, 2));
    assert_eq!(img.to_rgba_bytes(), raw);
    assert!(Image::decode_png(b"not a png").is_err());
}

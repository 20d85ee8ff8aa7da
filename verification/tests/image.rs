use wlrix_desktop::canvas::{Canvas, Rgb};
use wlrix_desktop::image::{from_png, is_png, Image, Images};

/// A 4x4 PNG of one colour type, every pixel the same.
fn png_bytes(colour: png::ColorType, data: Vec<u8>) -> Vec<u8> {
    let mut out = Vec::new();
    {
        let mut encoder = png::Encoder::new(&mut out, 4, 4);
        encoder.set_color(colour);
        encoder.set_depth(png::BitDepth::Eight);
        if colour == png::ColorType::Indexed {
            encoder.set_palette(vec![255, 0, 0, 0, 255, 0, 0, 0, 255, 255, 255, 255]);
        }
        let mut writer = encoder.write_header().expect("header");
        writer.write_image_data(&data).expect("write");
    }
    out
}

fn alpha(pixel: u32) -> u32 {
    pixel >> 24
}

#[test]
fn every_png_flavour_a_theme_ships_decodes() {
    for (colour, data) in [
        (png::ColorType::Rgba, vec![200u8; 64]),
        (png::ColorType::Rgb, vec![200u8; 48]),
        (png::ColorType::Indexed, (0..16).map(|i| i % 4).collect()),
        (png::ColorType::Grayscale, vec![128u8; 16]),
        (png::ColorType::GrayscaleAlpha, vec![128u8; 32]),
    ] {
        let bytes = png_bytes(colour, data);
        assert!(is_png(&bytes));
        let image = from_png(&bytes, 16).unwrap_or_else(|| panic!("{colour:?} failed to decode"));
        assert_eq!((image.width, image.height), (16, 16), "{colour:?}");
        assert!((0..16).any(|y| (0..16).any(|x| alpha(image.get(x, y)) != 0)), "{colour:?} decoded to nothing");
    }
}

#[test]
fn an_opaque_png_keeps_its_colour_and_a_translucent_one_is_premultiplied() {
    let opaque = from_png(&png_bytes(png::ColorType::Rgb, vec![200u8; 48]), 8).expect("rgb");
    assert_eq!(opaque.get(3, 3), 0xff_c8c8c8);
    // Grey 128 at alpha 128: each channel becomes round(128 * 128 / 255) = 64.
    let half = from_png(&png_bytes(png::ColorType::GrayscaleAlpha, vec![128u8; 32]), 8).expect("grey");
    assert_eq!(half.get(0, 0), 0x80_404040);
}

#[test]
fn nonsense_is_not_a_png_and_does_not_panic() {
    assert!(!is_png(b"not a png"));
    assert!(is_png(b"\x89PNG\r\n\x1a\ngarbage"));
    assert!(from_png(b"\x89PNG\r\n\x1a\ngarbage", 32).is_none());
    assert!(from_png(b"", 32).is_none());
}

#[test]
fn scaling_picks_the_nearest_source_pixel() {
    // Two columns, red then blue, scaled to four: each source column covers two.
    let frame = [255u8, 0, 0, 255, 0, 0, 255, 255];
    let image = Image::from_frame(&frame, 2, 1, 4, 4).expect("a frame");
    assert_eq!(image.get(0, 0), 0xff_ff0000);
    assert_eq!(image.get(1, 3), 0xff_ff0000);
    assert_eq!(image.get(2, 0), 0xff_0000ff);
    assert_eq!(image.get(3, 3), 0xff_0000ff);
}

#[test]
fn a_frame_that_does_not_add_up_is_refused() {
    assert!(Image::from_frame(&[0u8; 7], 2, 1, 4, 4).is_none(), "too short");
    assert!(Image::from_frame(&[0u8; 8], 0, 1, 4, 4).is_none(), "empty");
    assert!(Image::from_frame(&[0u8; 8], 2, 1, 0, 4).is_none(), "still indexed");
}

#[test]
fn off_the_edge_is_transparent() {
    let image = Image::from_pixels(2, 1, vec![0xff_112233, 0xff_445566]).expect("pixels");
    assert_eq!(image.get(1, 0), 0xff_445566);
    assert_eq!(image.get(2, 0), 0);
    assert_eq!(image.get(-1, 0), 0);
    assert!(Image::from_pixels(2, 2, vec![0; 3]).is_none());
}

#[test]
fn multiplying_by_white_changes_nothing_and_yellow_drops_blue() {
    let image = Image::from_pixels(2, 1, vec![0xff_ffffff, 0x80_406080]).expect("pixels");
    assert_eq!(image.multiplied(Rgb(0xff_ffffff)), image);
    let yellow = image.multiplied(Rgb(0xff_ffff00));
    assert_eq!(yellow.get(0, 0), 0xff_ffff00);
    // Alpha is untouched, so the shape is the same.
    assert_eq!(alpha(yellow.get(1, 0)), 0x80);
    assert_eq!(yellow.get(1, 0) & 0xff, 0);
}

#[test]
fn drawing_composites_and_skips_transparent_pixels() {
    let mut canvas = Canvas::new(vec![0u8; 3 * 1 * 4], 3, 1);
    canvas.clear(Rgb(0xff_000080));
    let image = Image::from_pixels(2, 1, vec![0xff_ff0000, 0]).expect("pixels");
    image.draw(&mut canvas, 1, 0);
    assert_eq!(canvas.get(0, 0), Rgb(0xff_000080), "left of the image");
    assert_eq!(canvas.get(1, 0), Rgb(0xff_ff0000), "opaque replaces");
    assert_eq!(canvas.get(2, 0), Rgb(0xff_000080), "transparent leaves");
}

#[test]
fn a_failed_load_is_remembered() {
    let mut images = Images::default();
    assert_eq!(images.cached("/nonexistent/icon.svg", 32), None);
    images.remember("/nonexistent/icon.svg", 32, None);
    assert_eq!(images.cached("/nonexistent/icon.svg", 32), Some(None));
    // A different size is a different entry.
    assert_eq!(images.cached("/nonexistent/icon.svg", 48), None);
}

#[test]
fn an_icon_name_reaches_its_image_through_what_it_resolved_to() {
    let mut images = Images::default();
    let icon = Image::from_pixels(1, 1, vec![0xff_123456]).expect("pixels");
    images.remember_resolution("foot", Some("/usr/share/icons/foot.png".to_owned()));
    images.remember("/usr/share/icons/foot.png", 48, Some(icon.clone()));
    assert_eq!(images.get("foot", 48), Some(&icon));
    assert_eq!(images.get("foot", 64), None, "not loaded at that size");
    assert_eq!(images.get("/usr/share/icons/foot.png", 48), Some(&icon), "a path is its own file");
    assert_eq!(images.get("", 48), None);
    images.remember_resolution("ghost", None);
    assert_eq!(images.resolution("ghost"), Some(None));
    assert_eq!(images.get("ghost", 48), None);
    images.clear();
    assert_eq!(images.get("foot", 48), None);
    assert_eq!(images.resolution("foot"), None);
}

#[test]
fn changing_the_theme_forgets_what_the_last_one_could_not_find() {
    let mut images = Images::default();
    images.set_theme("Adwaita");
    images.remember_resolution("foot", None);
    images.set_theme("Adwaita");
    assert_eq!(images.resolution("foot"), Some(None), "the same theme again changes nothing");
    images.set_theme("Papirus");
    assert_eq!(images.theme(), "Papirus");
    assert_eq!(images.resolution("foot"), None, "a new theme may find it");
}

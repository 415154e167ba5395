use designer1_tools::model::{Design, StitchCommand, StitchPoint, Thread};
use designer1_tools::preview::{
    designer1_palette_colors, quantized_thread_index, render_preview_4bpp,
    render_preview_4bpp_auto, PreviewError,
};
use designer1_tools::raster::{pack_4bpp, preview_pixel_bounds, rotate_clockwise};
use designer1_tools::text::parse_hex_rgb;

fn point(x: i32, y: i32, command: StitchCommand) -> StitchPoint {
    StitchPoint { x, y, command }
}

fn thread(color: Option<&str>) -> Thread {
    Thread {
        color: color.map(|c| c.to_owned()),
        description: None,
        catalog_number: None,
        brand: None,
    }
}

fn line_design(color: &str) -> Design {
    Design {
        name: "L".to_owned(),
        threads: vec![thread(Some(color))],
        points: vec![
            point(0, 0, StitchCommand::Stitch),
            point(100, 0, StitchCommand::Stitch),
            point(0, 0, StitchCommand::End),
        ],
    }
}

#[test]
fn palette_has_sixteen_colors() {
    let pal = designer1_palette_colors();
    assert_eq!(pal.len(), 16);
    assert_eq!(pal[0], (230, 190, 100));
    assert_eq!(pal[7], (200, 40, 40));
}

#[test]
fn hex_colors_parse() {
    assert_eq!(parse_hex_rgb(Some("#df5bd7")), Some((0xdf, 0x5b, 0xd7)));
    assert_eq!(parse_hex_rgb(Some("FF0000")), Some((255, 0, 0)));
    assert_eq!(parse_hex_rgb(Some("#12345")), None);
    assert_eq!(parse_hex_rgb(Some("#zz0000")), None);
    assert_eq!(parse_hex_rgb(None), None);
}

#[test]
fn thread_colors_quantize_to_nearest_palette_entry() {
    let red = line_design("#c82828");
    assert_eq!(quantized_thread_index(&red, 0), 7);
    let none = Design {
        name: String::new(),
        threads: vec![thread(None)],
        points: Vec::new(),
    };
    // A thread without a color, or a missing thread, is drawn in 1.
    assert_eq!(quantized_thread_index(&none, 0), 1);
    assert_eq!(quantized_thread_index(&none, 5), 1);
}

#[test]
fn preview_rejects_zero_size() {
    let design = line_design("#c82828");
    assert_eq!(render_preview_4bpp(&design, 0, 10).unwrap_err(), PreviewError::ZeroSize);
    assert_eq!(render_preview_4bpp(&design, 10, 0).unwrap_err(), PreviewError::ZeroSize);
    // The size is refused before any thread color is read.
    let odd = line_design("aébcd");
    assert_eq!(render_preview_4bpp(&odd, 0, 0).unwrap_err(), PreviewError::ZeroSize);
}

#[test]
fn preview_draws_in_thread_color() {
    let design = line_design("#c82828");
    let bytes = render_preview_4bpp(&design, 20, 10).unwrap();
    assert_eq!(bytes.len(), 10 * 10);
    assert!(bytes.iter().any(|b| *b == 0x77));
    assert!(bytes.iter().all(|b| *b == 0 || b >> 4 == 7 || b & 0x0f == 7));
    let bounds = preview_pixel_bounds(&bytes, 20, 10).unwrap();
    assert!(bounds.0 <= 2 && bounds.1 >= 18);
}

#[test]
fn auto_preview_sizes_from_extents() {
    let design = line_design("#c82828");
    let (w, h, bytes) = render_preview_4bpp_auto(&design);
    assert!(w >= 1 && h >= 1);
    assert_eq!(bytes.len(), h as usize * (w as usize).div_ceil(2));
}

#[test]
fn pixel_bounds_of_packed_bitmaps() {
    assert_eq!(preview_pixel_bounds(&[0u8; 8], 4, 4), None);
    // One lit pixel at (2, 1) in a 4 x 4 bitmap: byte 1 * 2 + 1, high nibble.
    let mut bytes = vec![0u8; 8];
    bytes[3] = 0x30;
    assert_eq!(preview_pixel_bounds(&bytes, 4, 4), Some((1, 4, 0, 3)));
    // A short buffer reads as zeros past its end.
    assert_eq!(preview_pixel_bounds(&[0x01], 4, 4), Some((0, 3, 0, 2)));
}

#[test]
fn packing_and_rotation() {
    let pixels = vec![1u8, 2, 3, 4, 5, 6];
    assert_eq!(pack_4bpp(&pixels, 3, 2), vec![0x12, 0x30, 0x45, 0x60]);
    // A 3 x 2 image turned clockwise is 2 x 3.
    assert_eq!(rotate_clockwise(&pixels, 3, 2), vec![4, 1, 5, 2, 6, 3]);
}

#[test]
fn packed_pixels_are_found_again() {
    let mut pixels = vec![0u8; 5 * 3];
    pixels[1 * 5 + 3] = 0x19; // only the low nibble is kept
    pixels[2 * 5 + 4] = 2;
    let packed = pack_4bpp(&pixels, 5, 3);
    assert_eq!(packed.len(), 3 * 3);
    assert_eq!(packed[1 * 3 + 1], 0x09);
    assert_eq!(packed[2 * 3 + 2], 0x20);
    assert_eq!(preview_pixel_bounds(&packed, 5, 3), Some((2, 5, 0, 3)));
}

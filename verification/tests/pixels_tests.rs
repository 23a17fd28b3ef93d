use info_radiator::pixels::{
    blit_grayscale, grayscale_from_rgba, is_user_input_event, pixmap_to_grayscale, pixmap_to_png,
    rasterise, render_to_pixmap,
};

#[test]
fn grey_levels_from_rgba() {
    let data = [255, 255, 255, 255, 0, 0, 0, 255, 10, 20, 30, 0, 1];
    assert_eq!(grayscale_from_rgba(&data), vec![255, 0, 18]);
    assert_eq!(grayscale_from_rgba(&[]), Vec::<u8>::new());
    assert_eq!(grayscale_from_rgba(&[255, 0, 0, 0, 0, 255, 0, 0, 0, 0, 255, 0]), vec![76, 149, 29]);
    assert_eq!(grayscale_from_rgba(&[77, 77, 77, 9]), vec![77]);
}

#[test]
fn grey_levels_of_a_pixmap() {
    let mut p = resvg::tiny_skia::Pixmap::new(2, 1).unwrap();
    assert_eq!(pixmap_to_grayscale(&p), vec![0, 0]);
    p.fill(resvg::tiny_skia::Color::WHITE);
    assert_eq!(pixmap_to_grayscale(&p), vec![255, 255]);
}

#[test]
fn blit_copies_overlapping_rows_and_columns() {
    let mut frame = vec![9u8; 12];
    let gray = [1, 2, 3, 4, 5, 6];
    // a 3x2 image onto a 2x3 screen with 4 bytes per framebuffer row
    blit_grayscale(&mut frame, &gray, 3, 2, 2, 3, 4);
    assert_eq!(frame, vec![1, 2, 9, 9, 4, 5, 9, 9, 9, 9, 9, 9]);
}

#[test]
fn blit_of_nothing_changes_nothing() {
    let mut frame = vec![7u8; 4];
    blit_grayscale(&mut frame, &[], 0, 0, 2, 2, 2);
    assert_eq!(frame, vec![7u8; 4]);
}

#[test]
fn input_event_types() {
    let mut ev = [0u8; 16];
    assert!(!is_user_input_event(&ev));
    ev[8] = 4;
    assert!(!is_user_input_event(&ev));
    ev[8] = 1;
    assert!(is_user_input_event(&ev));
    ev[8] = 0;
    ev[9] = 1;
    assert!(is_user_input_event(&ev));
    ev[8] = 4;
    ev[9] = 1;
    assert!(is_user_input_event(&ev));
}

const WHITE_SQUARE: &str = "<svg xmlns='http://www.w3.org/2000/svg' width='2' height='2'><rect width='2' height='2' fill='white'/></svg>";

fn no_fonts() -> std::sync::Arc<resvg::usvg::fontdb::Database> {
    std::sync::Arc::new(resvg::usvg::fontdb::Database::new())
}

#[test]
fn render_draws_the_screen() {
    let p = render_to_pixmap(WHITE_SQUARE, &no_fonts(), 2, 2).unwrap();
    assert_eq!((p.width(), p.height()), (2, 2));
    assert_eq!(p.data().len(), 16);
    assert_eq!(pixmap_to_grayscale(&p), vec![255, 255, 255, 255]);
    let wide = render_to_pixmap(WHITE_SQUARE, &no_fonts(), 3, 1).unwrap();
    assert_eq!((wide.width(), wide.height()), (3, 1));
}

#[test]
fn render_refuses_bad_svg_and_empty_size() {
    let bad = render_to_pixmap("not svg", &no_fonts(), 2, 2).err().unwrap();
    assert_ne!(bad, "pixmap");
    // the parser's message comes first, even for an empty size
    assert_eq!(render_to_pixmap("not svg", &no_fonts(), 0, 0).err(), Some(bad));
    assert_eq!(render_to_pixmap(WHITE_SQUARE, &no_fonts(), 0, 2).err(), Some("pixmap".to_string()));
    assert_eq!(render_to_pixmap(WHITE_SQUARE, &no_fonts(), 2, 0).err(), Some("pixmap".to_string()));
}

#[test]
fn rasterise_reports_each_failure() {
    let opt = resvg::usvg::Options::default();
    assert_eq!(rasterise(Err("bad".to_string()), 2, 2).err(), Some("bad".to_string()));
    let tree = resvg::usvg::Tree::from_str(WHITE_SQUARE, &opt).unwrap();
    assert_eq!(rasterise(Ok(tree), 0, 5).err(), Some("pixmap".to_string()));
    let tree = resvg::usvg::Tree::from_str(WHITE_SQUARE, &opt).unwrap();
    let p = rasterise(Ok(tree), 3, 2).unwrap();
    assert_eq!((p.width(), p.height()), (3, 2));
    assert_eq!(p.data().len(), 24);
}

#[test]
fn png_opens_with_its_signature() {
    let p = resvg::tiny_skia::Pixmap::new(1, 1).unwrap();
    let png = pixmap_to_png(&p).unwrap();
    assert_eq!(&png[..8], &[137, 80, 78, 71, 13, 10, 26, 10]);
}

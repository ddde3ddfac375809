use mfc_cli::qrinfo::parse_qr_page_info;
use mfc_cli::qrgen::{module_pixels, qr_module_image, QrEncodeFailure};
use mfc_cli::qrread::{first_grid_text, DecodeFailure, QrReadError};

#[test]
fn v2_json_basic() {
    let (p, t) = parse_qr_page_info(r#"{"p":"mfc","v":2,"pg":1,"t":2,"m":2}"#);
    assert_eq!(p, Some(1));
    assert_eq!(t, Some(2));
}

#[test]
fn v2_json_with_extra_fields() {
    let (p, t) = parse_qr_page_info(r#"{"p":"mfc","v":2,"pg":3,"t":10,"m":2,"chars":["あ","い"]}"#);
    assert_eq!(p, Some(3));
    assert_eq!(t, Some(10));
}

#[test]
fn v2_json_with_whitespace() {
    let (p, t) = parse_qr_page_info("  {\"p\":\"mfc\",\"pg\":5,\"t\":7}  ");
    assert_eq!(p, Some(5));
    assert_eq!(t, Some(7));
}

#[test]
fn v2_json_wrong_product_rejected() {
    let (p, t) = parse_qr_page_info(r#"{"p":"other","pg":1,"t":2}"#);
    assert_eq!(p, None);
    assert_eq!(t, None);
}

#[test]
fn v2_json_missing_fields() {
    let (p, t) = parse_qr_page_info(r#"{"p":"mfc"}"#);
    assert_eq!(p, None);
    assert_eq!(t, None);
}

#[test]
fn v2_json_missing_p_key() {
    let (p, t) = parse_qr_page_info(r#"{"product":"mfc","pg":1,"t":2}"#);
    assert_eq!(p, None);
    assert_eq!(t, None);
}

#[test]
fn v2_json_overflow_u32() {
    let (p, t) = parse_qr_page_info(r#"{"p":"mfc","pg":4294967296,"t":2}"#);
    assert_eq!(p, None);
    assert_eq!(t, Some(2));
}

#[test]
fn v1_plain_text_basic() {
    let (p, t) = parse_qr_page_info("mfc:1/3");
    assert_eq!(p, Some(1));
    assert_eq!(t, Some(3));
}

#[test]
fn v1_plain_text_with_whitespace() {
    let (p, t) = parse_qr_page_info(" mfc:2/5 ");
    assert_eq!(p, Some(2));
    assert_eq!(t, Some(5));
}

#[test]
fn invalid_returns_none() {
    let (p, t) = parse_qr_page_info("garbage");
    assert_eq!(p, None);
    assert_eq!(t, None);
}

#[test]
fn empty_string_returns_none() {
    let (p, t) = parse_qr_page_info("");
    assert_eq!(p, None);
    assert_eq!(t, None);
}

#[test]
fn v1_fields_parse_like_u32_from_str() {
    assert_eq!(parse_qr_page_info("mfc:+4/007"), (Some(4), Some(7)));
    assert_eq!(parse_qr_page_info("mfc:-1/x"), (None, None));
    assert_eq!(parse_qr_page_info("mfc:/2"), (None, Some(2)));
    assert_eq!(parse_qr_page_info("mfc:4294967295/4294967296"), (Some(4294967295), None));
    assert_eq!(parse_qr_page_info("mfc:1/2/3"), (None, None));
    assert_eq!(parse_qr_page_info("mfc:12"), (None, None));
    assert_eq!(parse_qr_page_info("MFC:1/2"), (None, None));
}

#[test]
fn unicode_white_space_is_trimmed() {
    assert_eq!(parse_qr_page_info("\u{3000}mfc:8/9\u{a0}\n"), (Some(8), Some(9)));
}

#[test]
fn json_members_of_other_kinds_give_none() {
    assert_eq!(parse_qr_page_info(r#"{"p":"mfc","pg":"1","t":-2}"#), (None, None));
    assert_eq!(parse_qr_page_info(r#"{"p":"mfc","pg":1.5,"t":3}"#), (None, Some(3)));
    assert_eq!(parse_qr_page_info(r#"["mfc",1,2]"#), (None, None));
}

/// The library's QR module image of `text`, scaled to `scale` pixels per
/// module with a four-module quiet zone.
fn qr_image(text: &str, scale: usize) -> (Vec<u8>, u32, u32) {
    let (px, n) = qr_module_image(text.as_bytes()).unwrap();
    let side = (n + 8) * scale;
    let mut img = vec![255u8; side * side];
    for my in 0..n {
        for mx in 0..n {
            for dy in 0..scale {
                for dx in 0..scale {
                    let x = (mx + 4) * scale + dx;
                    let y = (my + 4) * scale + dy;
                    img[y * side + x] = px[my * n + mx];
                }
            }
        }
    }
    (img, side as u32, side as u32)
}

#[test]
fn qr_module_image_matches_the_qrcode_modules() {
    let text = r#"{"p":"mfc","v":2,"pg":1,"t":4}"#;
    let (px, n) = qr_module_image(text.as_bytes()).unwrap();
    let code = qrcode::QrCode::new(text.as_bytes()).unwrap();
    assert_eq!(n, code.width());
    assert!(n >= 21);
    assert_eq!(px.len(), n * n);
    let expected: Vec<u8> = code
        .to_colors()
        .iter()
        .map(|c| if *c == qrcode::Color::Dark { 0 } else { 255 })
        .collect();
    assert_eq!(px, expected);
    // the finder pattern's corner module is dark
    assert_eq!(px[0], 0);
}

#[test]
fn qr_module_image_rejects_too_long_data() {
    let data = vec![b'x'; 8000];
    assert_eq!(qr_module_image(&data).unwrap_err(), QrEncodeFailure::DataTooLong);
}

#[test]
fn module_pixels_maps_dark_to_black() {
    assert_eq!(module_pixels(&vec![true, false, false, true]), vec![0, 255, 255, 0]);
    assert!(module_pixels(&Vec::new()).is_empty());
}

/// The first grid's decode result that rqrr gives for a `w` by `h` gray image,
/// then the library's outcome.
fn read_qr(img: &[u8], w: u32, h: u32) -> Result<String, QrReadError> {
    let (w, h) = (w as usize, h as usize);
    let mut prepared = rqrr::PreparedImage::prepare_from_greyscale(w, h, |x, y| img[y * w + x]);
    let grids = prepared.detect_grids();
    let first = grids
        .first()
        .map(|g| g.decode().map(|(_, s)| s).map_err(|_| DecodeFailure::DataEcc));
    first_grid_text(first)
}

#[test]
fn first_grid_text_gives_each_outcome() {
    assert_eq!(first_grid_text(None), Err(QrReadError::NotFound));
    assert_eq!(first_grid_text(Some(Ok("abc".to_string()))), Ok("abc".to_string()));
    assert_eq!(
        first_grid_text(Some(Err(DecodeFailure::FormatEcc))),
        Err(QrReadError::Decode(DecodeFailure::FormatEcc))
    );
}

#[test]
fn qr_round_trip_reads_the_encoded_text() {
    let (img, w, h) = qr_image(r#"{"p":"mfc","v":2,"pg":3,"t":4,"m":2}"#, 6);
    let text = read_qr(&img, w, h).expect("QR should be found and decoded");
    assert_eq!(text, r#"{"p":"mfc","v":2,"pg":3,"t":4,"m":2}"#);
    assert_eq!(parse_qr_page_info(&text), (Some(3), Some(4)));
}

#[test]
fn qr_blank_page_is_not_found() {
    let img = vec![255u8; 64 * 48];
    assert_eq!(read_qr(&img, 64, 48), Err(QrReadError::NotFound));
}

use ocr_labels::raster::binarize;
use ocr_labels::report::{data_url, digits_only, file_hash, hex_of, paragraphs_html, png_data_url};

#[test]
fn hash_is_lower_hex_sha256() {
    assert_eq!(
        file_hash(b"abc"),
        "ba7816bf8f01cfea414140de5dae2223b00361a396177a9cb410ff61f20015ad"
    );
    assert_eq!(
        file_hash(b""),
        "e3b0c44298fc1c149afbf4c8996fb92427ae41e4649b934ca495991b7852b855"
    );
}

#[test]
fn hex_digits() {
    assert_eq!(hex_of(&[0x00, 0x0f, 0xa0, 0xff]), "000fa0ff");
    assert_eq!(hex_of(&[]), "");
}

#[test]
fn paragraphs_become_escaped_html() {
    let ps = vec!["a<b & c>".to_string(), "x".to_string()];
    assert_eq!(
        paragraphs_html(&ps),
        "<div class='docx-content'><p>a&lt;b &amp; c&gt;</p><p>x</p></div>"
    );
    assert_eq!(paragraphs_html(&Vec::new()), "<div class='docx-content'></div>");
}

#[test]
fn png_bytes_become_a_data_url() {
    assert_eq!(png_data_url(&[0, 1, 2]), "data:image/png;base64,AAEC");
    assert_eq!(png_data_url(&[255, 255]), "data:image/png;base64,//8=");
    assert_eq!(data_url("QQ=="), "data:image/png;base64,QQ==");
}

#[test]
fn digits_and_inner_hyphens() {
    assert_eq!(digits_only("1-2a-b3--4"), "1-234");
    assert_eq!(digits_only("-130-"), "130");
    assert_eq!(digits_only("abc"), "");
}

#[test]
fn page_thresholds_to_black_and_white() {
    assert_eq!(
        binarize(&[10, 200, 159, 160], 2, 2),
        vec![0, 0, 0, 255, 255, 255, 0, 0, 0, 255, 255, 255]
    );
    assert_eq!(binarize(&[200], 2, 1), vec![255, 255, 255, 0, 0, 0]);
    assert!(binarize(&[], 0, 5).is_empty());
}

use image_gallery::gallery::{has_image_extension, image_entries, render_gallery, render_snapshot};

const HEADER: &str =
    "<html><head><title>Image Gallery</title></head><body><div style=\"text-align:center;\">\n";
const FOOTER: &str = "</div></body></html>\n";

fn listing(names: &[&str]) -> Vec<String> {
    names.iter().map(|n| n.to_string()).collect()
}

#[test]
fn mixed_listing_keeps_exactly_the_images() {
    let names = listing(&["a.jpg", "b.txt", "c.PNG"]);
    let doc = render_gallery("./images", &names);
    let expected = format!(
        "{}{}{}{}",
        HEADER,
        "<img src=\"./images/a.jpg\" alt=\"a.jpg\" height=\"250\">\n",
        "<img src=\"./images/c.PNG\" alt=\"c.PNG\" height=\"250\">\n",
        FOOTER
    );
    assert_eq!(doc, expected);
    assert_eq!(image_entries(&names), listing(&["a.jpg", "c.PNG"]));
}

#[test]
fn empty_listing_yields_header_and_footer_only() {
    let names: Vec<String> = Vec::new();
    let doc = render_gallery("./images", &names);
    assert_eq!(doc, format!("{}{}", HEADER, FOOTER));
}

#[test]
fn unreadable_directory_yields_header_and_footer_only() {
    let doc = render_snapshot("./images", &None);
    assert_eq!(doc, format!("{}{}", HEADER, FOOTER));
}

#[test]
fn readable_snapshot_matches_plain_rendering() {
    let names = listing(&["a.jpg", "b.txt"]);
    let doc = render_snapshot("./images", &Some(names.clone()));
    assert_eq!(doc, render_gallery("./images", &names));
}

#[test]
fn reordered_listing_keeps_the_same_entry_set() {
    let first = listing(&["b.PNG", "a.jpg", "x.txt", "c.gif"]);
    let second = listing(&["x.txt", "c.gif", "a.jpg", "b.PNG"]);
    let mut entries1 = image_entries(&first);
    let mut entries2 = image_entries(&second);
    entries1.sort();
    entries2.sort();
    assert_eq!(entries1, entries2);
}

#[test]
fn repeated_rendering_of_one_listing_is_identical() {
    let names = listing(&["a.jpg", "b.txt", "c.PNG"]);
    assert_eq!(render_gallery("./images", &names), render_gallery("./images", &names));
}

#[test]
fn every_allowed_extension_is_accepted() {
    for name in [
        "x.jpg", "x.jpeg", "x.png", "x.gif", "x.bmp", "x.webp", "x.svg", "x.tiff", "x.ico",
    ] {
        assert!(has_image_extension(name), "{name} must qualify");
    }
}

#[test]
fn extension_match_is_case_insensitive() {
    for name in ["x.JPG", "x.Jpeg", "x.PnG", "photo.WEBP"] {
        assert!(has_image_extension(name), "{name} must qualify");
    }
}

#[test]
fn near_miss_extensions_are_rejected() {
    for name in ["x.jpeg2000", "x.jp", "x.pngx", "x.favicon", "b.txt"] {
        assert!(!has_image_extension(name), "{name} must not qualify");
    }
}

#[test]
fn names_without_a_dot_extension_are_rejected() {
    for name in ["favicon", "", "jpg", "a.", ".png", "."] {
        assert!(!has_image_extension(name), "{name:?} must not qualify");
    }
}

#[test]
fn dot_extension_on_a_longer_name_still_qualifies() {
    assert!(has_image_extension("archive.tar.png"));
    assert!(!has_image_extension("archive.png.tar"));
    assert!(has_image_extension("..png"));
}

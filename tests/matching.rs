use artist_wallpaper::matcher::{find_match, is_image, matches_artist};

fn names(v: &[&str]) -> Vec<String> {
    v.iter().map(|s| s.to_string()).collect()
}

#[test]
fn finds_exact_name_in_any_case() {
    let n = names(&["notes.txt", "Blur.png", "RADIOHEAD.jpg"]);
    assert_eq!(find_match(&n, "radiohead"), Some(2));
    assert_eq!(find_match(&n, "Radiohead"), Some(2));
    assert_eq!(find_match(&n, "blur"), Some(1));
}

#[test]
fn first_match_in_walk_order_wins() {
    let n = names(&["Radiohead.gif", "radiohead.png"]);
    assert_eq!(find_match(&n, "radiohead"), Some(0));
}

#[test]
fn no_matching_stem_gives_none() {
    let n = names(&["Blur.png", "Oasis.jpeg", "Radiohead2.png"]);
    assert_eq!(find_match(&n, "Radiohead"), None);
    assert_eq!(find_match(&Vec::new(), "Radiohead"), None);
}

#[test]
fn other_extensions_never_match() {
    let n = names(&["Radiohead.bmp", "Radiohead.txt", "Radiohead", "Radiohead.PNG", "Radiohead.png.bak"]);
    assert_eq!(find_match(&n, "Radiohead"), None);
}

#[test]
fn all_image_extensions_match() {
    for ext in ["png", "jpg", "jpeg", "gif"] {
        let n = names(&[&format!("Muse.{}", ext)]);
        assert_eq!(find_match(&n, "muse"), Some(0));
    }
}

#[test]
fn extension_check_is_case_sensitive() {
    assert!(is_image(Some("png")));
    assert!(is_image(Some("jpeg")));
    assert!(!is_image(Some("PNG")));
    assert!(!is_image(Some("tiff")));
    assert!(!is_image(None));
}

#[test]
fn stem_ends_at_last_dot() {
    assert!(matches_artist("a.b.png", "A.B"));
    assert!(!matches_artist("a.b.png", "a"));
    assert!(!matches_artist(".png", ""));
    assert!(!matches_artist("..", "."));
    assert!(matches_artist("Sigur Rós.jpg", "sigur rós"));
    assert!(!matches_artist("Sigur RÓS.jpg", "sigur rós"));
}

#[test]
fn renaming_stem_case_keeps_result() {
    let before = names(&["Blur.png", "radiohead.jpg", "Muse.gif"]);
    let after = names(&["Blur.png", "RadioHEAD.jpg", "Muse.gif"]);
    assert_eq!(find_match(&before, "Radiohead"), Some(1));
    assert_eq!(find_match(&after, "Radiohead"), Some(1));
}

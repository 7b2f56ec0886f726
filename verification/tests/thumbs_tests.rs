use dirindex::paths::ThumbnailPath;
use dirindex::records::{FileMeta, FileRecord};
use dirindex::thumbs::{ext_thumbnailable, thumb_target_height, thumbnail_filename};

#[test]
fn thumbnail_path_exposes_its_string() {
    let p = ThumbnailPath::from(String::from("/srv/thumbs/abc.webp"));
    assert_eq!(p.thumbnail_path(), "/srv/thumbs/abc.webp");
}

#[test]
fn record_descendant_count_sums_children_and_subdir_items() {
    let rec = FileRecord {
        full_path: String::from("/srv/pics/sub"),
        meta: FileMeta { created: 0, modified: 0, accessed: 0, is_dir: true, is_symlink: false },
        thumbnail_name: None,
        items_in_subdirs: 5,
        child_items: vec![String::from("sub/a"), String::from("sub/b")],
    };
    assert_eq!(rec.descendant_count(), 7);
}

#[test]
fn thumbnail_names_are_deterministic_in_the_path() {
    let a = thumbnail_filename("/srv/pics/a.jpg");
    let b = thumbnail_filename("/srv/pics/a.jpg");
    assert_eq!(a, b);
}

#[test]
fn renaming_changes_the_thumbnail_name() {
    let a = thumbnail_filename("/srv/pics/a.jpg");
    let b = thumbnail_filename("/srv/pics/b.jpg");
    assert_ne!(a, b);
}

#[test]
fn thumbnail_names_are_hex_with_the_encoder_extension() {
    let n = thumbnail_filename("/srv/pics/a.jpg");
    assert_eq!(n.len(), 32 + ".webp".len());
    assert!(n.ends_with(".webp"));
    assert!(n[..32].chars().all(|c| c.is_ascii_hexdigit() && !c.is_ascii_uppercase()));
}

#[test]
fn known_digest_of_the_empty_path() {
    assert_eq!(thumbnail_filename(""), "d41d8cd98f00b204e9800998ecf8427e.webp");
}

#[test]
fn extension_allowlist_ignores_case_and_location() {
    assert!(ext_thumbnailable("/srv/a.jpg"));
    assert!(ext_thumbnailable("/srv/a.JPEG"));
    assert!(ext_thumbnailable("/srv/x/y/z.WebP"));
    assert!(ext_thumbnailable("a.tif"));
    assert!(ext_thumbnailable("a.tiff"));
    assert!(ext_thumbnailable("a.bmp"));
    assert!(ext_thumbnailable("a.gif"));
    assert!(ext_thumbnailable("a.png"));
}

#[test]
fn extension_allowlist_rejects_everything_else() {
    assert!(!ext_thumbnailable("/srv/a.txt"));
    assert!(!ext_thumbnailable("/srv/noext"));
    assert!(!ext_thumbnailable("/srv/.png"));
    assert!(!ext_thumbnailable("/srv/trailingdot."));
    assert!(!ext_thumbnailable(""));
    assert!(!ext_thumbnailable("/srv/jpg"));
}

#[test]
fn target_height_preserves_aspect_ratio() {
    assert_eq!(thumb_target_height(100, 50, 75), 37);
    assert_eq!(thumb_target_height(50, 100, 75), 150);
    assert_eq!(thumb_target_height(1, 1, 75), 75);
    assert_eq!(thumb_target_height(1, u32::MAX, u32::MAX), u32::MAX);
}

use dirindex::config::{default_page_root, default_thumbnail_size, scan_interval, Config, IndexError};
use dirindex::db::Database;
use dirindex::paths::{request_key, LocalPath, ServePath};

fn test_config(page_root: &str) -> Config {
    Config {
        file_dir: String::from("/srv/pics"),
        thumbnail_dir: String::from("/srv/thumbs"),
        thumbnail_size: 75,
        page_root: String::from(page_root),
        scan_interval_secs: 120,
    }
}

fn test_db() -> Database {
    Database::new(LocalPath(String::from("/srv/pics")), 128)
}

#[test]
fn defaults_match_configuration() {
    assert_eq!(scan_interval(), 120);
    assert_eq!(default_thumbnail_size(), 75);
    assert_eq!(default_page_root(), "/");
}

#[test]
fn serve_path_renders_plain() {
    let sp = ServePath::from(String::from("/gallery/holiday/a.jpg"));
    assert_eq!(sp.to_string(false), "/gallery/holiday/a.jpg");
}

#[test]
fn serve_path_drops_empty_and_current_dir_parts() {
    let sp = ServePath::from(String::from("//gallery/./x"));
    assert_eq!(sp.to_string(false), "/gallery/x");
    let root = ServePath::from(String::from("/"));
    assert_eq!(root.to_string(false), "/");
}

#[test]
fn serve_path_percent_encodes_parts() {
    let sp = ServePath::from(String::from("/a b/c"));
    let rendered = sp.to_string(true);
    assert_eq!(rendered, "/a%20b/c");
}

#[test]
fn from_serve_path_maps_under_page_root() {
    let db = test_db();
    let cfg = test_config("/gal");
    let lp = LocalPath::from_serve_path(&db, &cfg, &ServePath::from(String::from("/gal/sub/a.jpg")))
        .unwrap();
    assert_eq!(lp.local_path(), "/srv/pics/sub/a.jpg");
    let root = LocalPath::from_serve_path(&db, &cfg, &ServePath::from(String::from("/gal")))
        .unwrap();
    assert_eq!(root.local_path(), "/srv/pics");
}

#[test]
fn from_serve_path_rejects_foreign_prefix() {
    let db = test_db();
    let cfg = test_config("/gal");
    let err = LocalPath::from_serve_path(&db, &cfg, &ServePath::from(String::from("/other/a")));
    assert!(matches!(err, Err(IndexError::StripPrefix)));
}

#[test]
fn from_local_path_is_inverse_of_from_serve_path() {
    let db = test_db();
    let cfg = test_config("/gal");
    let sp = ServePath::from_local_path(&db, &cfg, &LocalPath(String::from("/srv/pics/sub/a.jpg")))
        .unwrap();
    assert_eq!(sp.to_string(false), "/gal/sub/a.jpg");
    let back = LocalPath::from_serve_path(&db, &cfg, &sp).unwrap();
    assert_eq!(back.local_path(), "/srv/pics/sub/a.jpg");
}

#[test]
fn from_local_path_with_root_page_root() {
    let db = test_db();
    let cfg = test_config("/");
    let sp = ServePath::from_local_path(&db, &cfg, &LocalPath(String::from("/srv/pics/a.jpg")))
        .unwrap();
    assert_eq!(sp.to_string(false), "/a.jpg");
    let at_root = ServePath::from_local_path(&db, &cfg, &LocalPath(String::from("/srv/pics")))
        .unwrap();
    assert_eq!(at_root.to_string(false), "/");
}

#[test]
fn from_local_path_rejects_outside_root() {
    let db = test_db();
    let cfg = test_config("/");
    let err = ServePath::from_local_path(&db, &cfg, &LocalPath(String::from("/etc/passwd")));
    assert!(matches!(err, Err(IndexError::StripPrefix)));
}

#[test]
fn request_key_decodes_parts() {
    let db = test_db();
    let cfg = test_config("/");
    let key = request_key(&db, &cfg, "/sub/a%20b.jpg").unwrap();
    assert_eq!(key, "sub/a b.jpg");
}

#[test]
fn request_key_empty_path_names_the_root() {
    let db = test_db();
    let cfg = test_config("/gal");
    let key = request_key(&db, &cfg, "/gal").unwrap();
    assert_eq!(key, "/srv/pics");
}

#[test]
fn request_key_rejects_paths_outside_page_root() {
    let db = test_db();
    let cfg = test_config("/gal");
    assert!(request_key(&db, &cfg, "/elsewhere/a").is_none());
}

#[test]
fn crafted_traversal_paths_never_resolve_to_a_record() {
    // Containment: `..` segments, encoded or not, produce keys that the
    // indexer never inserts, so lookup finds nothing.
    let db = test_db();
    let cfg = test_config("/");
    for crafted in [
        "/../etc/passwd",
        "/..%2F..%2Fetc/passwd",
        "/sub/%2e%2e/secret",
        "/%2e%2e",
    ] {
        if let Some(key) = request_key(&db, &cfg, crafted) {
            assert!(db.lookup(&key).is_none());
        }
    }
}

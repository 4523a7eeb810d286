use capture_match::StreamError;
use capture_match::catalog::build_catalog;
use capture_match::files::find_files;
use capture_match::files::path_stem;
use capture_match::files::select_unique_dir;

fn paths(v: &[&str]) -> Vec<String> {
    v.iter().map(|p| p.to_string()).collect()
}

#[test]
fn test_find_files() {
    let all = paths(&["test1.txt", "test2.txt", "test3.doc"]);
    let txt_files = find_files(&all, "txt");
    assert_eq!(txt_files.len(), 2);
    let doc_files = find_files(&all, "doc");
    assert_eq!(doc_files.len(), 1);
}

#[test]
fn test_find_files_keeps_order_and_paths() {
    let all = paths(&["/cam/a/210101_120000000.iiq", "/cam/b.txt", "/cam/a/210101_120001000.iiq"]);
    let found = find_files(&all, ".iiq");
    assert_eq!(
        found,
        paths(&["/cam/a/210101_120000000.iiq", "/cam/a/210101_120001000.iiq"])
    );
}

#[test]
fn test_find_files_edge_names() {
    let all = paths(&["noext", ".hidden", "dir.d/noext2", "a.", "x.iiq"]);
    // A name with no dot, a leading-dot name and a trailing-dot name carry no
    // matching extension; only "x.iiq" does.
    assert_eq!(find_files(&all, "iiq"), paths(&["x.iiq"]));
    assert_eq!(find_files(&all, "hidden"), Vec::<String>::new());
    // A trailing dot means an empty extension, which ".." also trims to.
    assert_eq!(find_files(&all, ""), paths(&["a."]));
    assert_eq!(find_files(&all, ".."), paths(&["a."]));
}

#[test]
fn test_path_stem_variants() {
    assert_eq!(path_stem("/a/b/210101_120000000.iiq"), "210101_120000000");
    assert_eq!(path_stem("210101_120000000.iiq"), "210101_120000000");
    assert_eq!(path_stem("archive.tar.gz"), "archive.tar");
    assert_eq!(path_stem("/a/.hidden"), ".hidden");
    assert_eq!(path_stem("/a/noext"), "noext");
    assert_eq!(path_stem("trailing."), "trailing");
}

#[test]
fn test_select_unique_dir() {
    assert_eq!(
        select_unique_dir(&paths(&["/data/CAMERA_RGB"])),
        Some("/data/CAMERA_RGB".to_string())
    );
    assert_eq!(select_unique_dir(&paths(&[])), None);
    assert_eq!(select_unique_dir(&paths(&["/a", "/b"])), None);
}

#[test]
fn test_build_catalog() {
    let entries: Vec<(String, u64)> = vec![
        ("/cam/210101_120000000.iiq".to_string(), 7),
        ("/cam/210101_120001000.iiq".to_string(), 9),
    ];
    let cat = build_catalog(&entries).unwrap();
    assert_eq!(cat.len(), 2);
    assert_eq!(cat[0].path, "/cam/210101_120000000.iiq");
    assert_eq!(cat[0].stem, "210101_120000000");
    assert_eq!(cat[0].size_bytes, 7);
    assert_eq!(cat[1].stem, "210101_120001000");
    assert_eq!(cat[1].size_bytes, 9);
    assert_eq!(cat[1].captured_at - cat[0].captured_at, 1000);
}

#[test]
fn test_build_catalog_fails_fast_on_bad_stem() {
    let entries: Vec<(String, u64)> = vec![
        ("/cam/210101_120000000.iiq".to_string(), 7),
        ("/cam/notes.txt".to_string(), 3),
        ("/cam/210101_120001000.iiq".to_string(), 9),
    ];
    match build_catalog(&entries) {
        Err(StreamError::ParseError { stem }) => {
            assert_eq!(stem, "notes");
        },
        _ => panic!("expected a parse error on the malformed stem"),
    }
}

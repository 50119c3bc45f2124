use image_play::{
    add_photos, default_image_types, get_albums, AlbumError, DirListing, DirTree, FileEntry,
    SubDir,
};

fn canonical(path: &str) -> String {
    format!("/photos/{}", path)
}

fn listing(path: &str, files: &[&str], subdirs: &[&str]) -> DirListing {
    let name = path.rsplit('/').next().map(|n| n.to_string());
    DirListing {
        path: path.to_string(),
        name,
        files: files
            .iter()
            .map(|f| FileEntry {
                name: f.to_string(),
                path: canonical(&format!("{}/{}", path, f)),
            })
            .collect(),
        subdirs: subdirs
            .iter()
            .map(|d| SubDir {
                name: d.to_string(),
                path: format!("{}/{}", path, d),
            })
            .collect(),
    }
}

fn tree(dirs: Vec<DirListing>) -> DirTree {
    DirTree {
        root_is_dir: true,
        dirs,
    }
}

fn root_album_tree() -> DirTree {
    tree(vec![
        listing(
            "test_items/Root Album",
            &["a.png", "b.png", "c.png", "d.png", "e.png", "notes.txt"],
            &["Top"],
        ),
        listing("test_items/Root Album/Top", &["t1.png", "t2.png", "t3.png"], &[]),
    ])
}

#[test]
#[should_panic]
fn invalid_root() {
    let missing = DirTree {
        root_is_dir: false,
        dirs: vec![],
    };
    get_albums("fsdklfj/fjlasd", &missing, &default_image_types()).unwrap();
}

#[test]
fn empty_dir() {
    let t = tree(vec![listing("test_items/empty_dir", &[], &[])]);
    assert_eq!(
        0,
        get_albums("test_items/empty_dir", &t, &default_image_types())
            .unwrap()
            .len()
    );
}

#[test]
fn no_pics() {
    let t = tree(vec![
        listing("test_items/no_pics", &["readme.txt", "photo.jpg"], &["inner"]),
        listing("test_items/no_pics/inner", &["data.bin"], &[]),
    ]);
    let albums = get_albums("test_items/no_pics", &t, &default_image_types()).unwrap();
    assert_eq!(0, albums.len());
}

#[test]
fn has_pics() {
    let t = tree(vec![listing(
        "test_items/pics",
        &["1.png", "2.png", "3.png", "4.png", "5.png", "6.png", "7.png", "8.png"],
        &[],
    )]);
    let mut albums = get_albums("test_items/pics", &t, &default_image_types()).unwrap();
    assert_eq!(1, albums.len());

    let a = albums.pop().unwrap();
    assert_eq!(8, a.photos.len());
    assert_eq!(0, a.top_photos.len());
}

#[test]
fn pics_top() {
    let t = root_album_tree();
    let mut albums = get_albums("test_items/Root Album", &t, &default_image_types()).unwrap();
    assert_eq!(1, albums.len());

    let a = albums.pop().unwrap();
    assert_eq!(5, a.photos.len());
    assert_eq!(3, a.top_photos.len());
}

#[test]
fn multi_album() {
    let t = tree(vec![
        listing("test_items/multi_album", &[], &["one", "two", "three"]),
        listing("test_items/multi_album/one", &["a.png"], &[]),
        listing("test_items/multi_album/two", &["b.png", "c.png"], &[]),
        listing("test_items/multi_album/three", &[], &["top"]),
        listing("test_items/multi_album/three/top", &["d.png"], &[]),
    ]);
    let albums = get_albums("test_items/multi_album", &t, &default_image_types()).unwrap();
    assert_eq!(3, albums.len());
}

#[test]
fn adding_photos() {
    let t = root_album_tree();
    let mut vec: Vec<String> = Vec::new();
    add_photos(&t.dirs[0].files, &default_image_types(), &mut vec);
    assert_eq!(vec.len(), 5);
}

#[test]
fn missing_root_is_invalid_root() {
    let missing = DirTree {
        root_is_dir: false,
        dirs: vec![],
    };
    let r = get_albums("nowhere", &missing, &default_image_types());
    assert!(matches!(r, Err(AlbumError::InvalidRoot)));
}

#[test]
fn invalid_root_message() {
    assert_eq!(AlbumError::InvalidRoot.message(), "Not a valid root directory.");
}

#[test]
fn album_a_with_top_and_empty_album_b() {
    let t = tree(vec![
        listing("root", &[], &["AlbumA", "AlbumB"]),
        listing("root/AlbumA", &["p1.png", "p2.png"], &["Top"]),
        listing("root/AlbumA/Top", &["t1.png"], &[]),
        listing("root/AlbumB", &[], &[]),
    ]);
    let albums = get_albums("root", &t, &default_image_types()).unwrap();
    assert_eq!(1, albums.len());
    let a = &albums[0];
    assert_eq!(a.name, "AlbumA");
    assert_eq!(
        a.photos,
        vec![canonical("root/AlbumA/p1.png"), canonical("root/AlbumA/p2.png")]
    );
    assert_eq!(a.top_photos, vec![canonical("root/AlbumA/Top/t1.png")]);
}

#[test]
fn three_sibling_albums_in_any_order() {
    let t = tree(vec![
        listing("r", &[], &["x", "y", "z"]),
        listing("r/x", &["1.png"], &[]),
        listing("r/y", &["2.png"], &[]),
        listing("r/z", &["3.png"], &[]),
    ]);
    let albums = get_albums("r", &t, &default_image_types()).unwrap();
    let mut names: Vec<String> = albums.iter().map(|a| a.name.clone()).collect();
    names.sort();
    assert_eq!(names, vec!["x".to_string(), "y".to_string(), "z".to_string()]);
}

#[test]
fn extension_match_is_case_sensitive() {
    let t = tree(vec![listing("r", &["a.PNG", "b.Png", "c.png"], &[])]);
    let albums = get_albums("r", &t, &default_image_types()).unwrap();
    assert_eq!(albums.len(), 1);
    assert_eq!(albums[0].photos, vec![canonical("r/c.png")]);
}

#[test]
fn top_name_ignores_ascii_case_and_is_not_recursed() {
    let t = tree(vec![
        listing("r", &[], &["tOP", "TOP"]),
        listing("r/tOP", &["a.png"], &["deeper"]),
        listing("r/TOP", &["b.png"], &[]),
        listing("r/tOP/deeper", &["c.png"], &[]),
    ]);
    let albums = get_albums("r", &t, &default_image_types()).unwrap();
    assert_eq!(albums.len(), 1);
    assert_eq!(albums[0].name, "r");
    assert!(albums[0].photos.is_empty());
    assert_eq!(
        albums[0].top_photos,
        vec![canonical("r/tOP/a.png"), canonical("r/TOP/b.png")]
    );
}

#[test]
fn unreadable_directory_is_skipped_with_its_subtree() {
    let t = tree(vec![
        listing("r", &[], &["locked", "open"]),
        listing("r/open", &["o.png"], &[]),
        listing("r/locked/inner", &["hidden.png"], &[]),
    ]);
    let albums = get_albums("r", &t, &default_image_types()).unwrap();
    assert_eq!(albums.len(), 1);
    assert_eq!(albums[0].name, "open");
}

#[test]
fn unreadable_root_gives_no_albums() {
    let t = tree(vec![]);
    let albums = get_albums("r", &t, &default_image_types()).unwrap();
    assert!(albums.is_empty());
}

#[test]
fn configured_extensions_replace_the_default() {
    let t = tree(vec![listing("r", &["a.png", "b.jpg", "c.jpeg"], &[])]);
    let exts = vec![".jpg".to_string(), ".jpeg".to_string()];
    let albums = get_albums("r", &t, &exts).unwrap();
    assert_eq!(
        albums[0].photos,
        vec![canonical("r/b.jpg"), canonical("r/c.jpeg")]
    );
}

#[test]
fn nested_albums_are_flat() {
    let t = tree(vec![
        listing("r", &["r.png"], &["a"]),
        listing("r/a", &["a.png"], &["b"]),
        listing("r/a/b", &["b.png"], &[]),
    ]);
    let albums = get_albums("r", &t, &default_image_types()).unwrap();
    assert_eq!(albums.len(), 3);
    for a in &albums {
        assert_eq!(a.photos.len(), 1);
        assert!(a.top_photos.is_empty());
    }
}

#[test]
fn unnamed_directory_makes_no_album() {
    let mut root = listing("r", &["a.png"], &["b"]);
    root.name = None;
    let t = tree(vec![root, listing("r/b", &["b.png"], &[])]);
    let albums = get_albums("r", &t, &default_image_types()).unwrap();
    assert_eq!(albums.len(), 1);
    assert_eq!(albums[0].name, "b");
}

#[test]
fn cyclic_listing_terminates() {
    let t = tree(vec![
        listing("r", &["a.png"], &["loop"]),
        DirListing {
            path: "r/loop".to_string(),
            name: Some("loop".to_string()),
            files: vec![],
            subdirs: vec![SubDir {
                name: "back".to_string(),
                path: "r".to_string(),
            }],
        },
    ]);
    let albums = get_albums("r", &t, &default_image_types()).unwrap();
    assert_eq!(albums.len(), 1);
}

#[test]
fn default_image_types_is_png() {
    assert_eq!(default_image_types(), vec![".png".to_string()]);
}

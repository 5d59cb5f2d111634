use comic_catalog::catalog::Catalog;
use comic_catalog::comic::CoverImage;
use comic_catalog::error::ComicError;
use comic_catalog::folder::Folder;
use comic_catalog::scanner::{DirEntry, Phase, ScanRequest, Scanner};
use comic_catalog::service::ComicService;
use std::io::Write;

enum Node {
    File(Option<Vec<u8>>),
    Dir(Option<Vec<(String, Node)>>),
}

fn archive(entries: &[(&str, &[u8])]) -> Vec<u8> {
    let mut writer = zip::ZipWriter::new(std::io::Cursor::new(Vec::new()));
    for (name, data) in entries {
        let options = zip::write::FileOptions::default()
            .compression_method(zip::CompressionMethod::Stored);
        writer.start_file(*name, options).unwrap();
        writer.write_all(data).unwrap();
    }
    writer.finish().unwrap().into_inner()
}

fn comic(cover: &[u8]) -> Node {
    Node::File(Some(archive(&[("page1.jpg", cover)])))
}

fn coverless() -> Node {
    Node::File(Some(archive(&[("notes.txt", b"no pictures here")])))
}

fn dir(entries: Vec<(&str, Node)>) -> Node {
    Node::Dir(Some(entries.into_iter().map(|(n, e)| (n.to_string(), e)).collect()))
}

fn node_at<'a>(root: &'a Node, path: &[String]) -> Option<&'a Node> {
    let mut here = root;
    for name in path {
        match here {
            Node::Dir(Some(entries)) => {
                here = &entries.iter().find(|(n, _)| n == name)?.1;
            }
            _ => return None,
        }
    }
    Some(here)
}

fn answer(scanner: Scanner, root: &Node) -> Scanner {
    match scanner.request() {
        ScanRequest::ListDir { path } => {
            let listing = match node_at(root, &path) {
                Some(Node::Dir(Some(entries))) => Some(
                    entries
                        .iter()
                        .map(|(name, node)| DirEntry {
                            name: name.clone(),
                            is_dir: matches!(node, Node::Dir(_)),
                        })
                        .collect(),
                ),
                _ => None,
            };
            scanner.on_listing(listing)
        }
        ScanRequest::ReadFile { folder, file_name } => {
            let mut path = folder;
            path.push(file_name);
            let bytes = match node_at(root, &path) {
                Some(Node::File(Some(bytes))) => Some(bytes.clone()),
                _ => None,
            };
            scanner.on_file(bytes)
        }
        ScanRequest::Nothing => scanner,
    }
}

fn scan(root: &Node) -> Result<Catalog, ComicError> {
    let mut scanner = Scanner::new();
    while scanner.request() != ScanRequest::Nothing {
        scanner = answer(scanner, root);
    }
    scanner.finish().unwrap()
}

fn ids(catalog: &Catalog) -> Vec<String> {
    let mut ids: Vec<String> = catalog.entries().iter().map(|e| e.comic.id.clone()).collect();
    ids.sort();
    ids
}

fn names(v: &[&str]) -> Vec<String> {
    v.iter().map(|s| s.to_string()).collect()
}

#[test]
fn a_new_scanner_asks_for_the_root() {
    let scanner = Scanner::new();
    assert_eq!(scanner.phase(), Phase::Listing);
    assert_eq!(scanner.request(), ScanRequest::ListDir { path: Vec::new() });
    assert!(scanner.finish().is_none());
}

#[test]
fn a_comic_at_the_root_is_listed_with_its_cover() {
    let root = dir(vec![("hero.cbz", comic(b"page one"))]);
    let catalog = scan(&root).unwrap();
    assert_eq!(catalog.len(), 1);
    let entry = &catalog.entries()[0];
    assert_eq!(entry.comic.id, "hero.cbz");
    assert_eq!(entry.comic.name, "hero");
    assert_eq!(entry.comic.series, None);
    assert_eq!(entry.cover, CoverImage { data: b"page one".to_vec() });
    assert_eq!(catalog.root().comics, vec![entry.comic.clone()]);
    assert!(catalog.root().subfolders.is_empty());
}

#[test]
fn a_folder_of_coverless_comics_is_pruned() {
    let root = dir(vec![("Series", dir(vec![("vol1.cbz", coverless())]))]);
    let catalog = scan(&root).unwrap();
    assert_eq!(catalog.len(), 0);
    assert!(catalog.root().comics.is_empty());
    assert!(catalog.root().subfolders.is_empty());
    assert_eq!(*catalog.root(), Folder::root());
}

#[test]
fn an_empty_root_yields_the_empty_catalog() {
    let catalog = scan(&dir(vec![])).unwrap();
    assert_eq!(catalog, Catalog::empty());
    assert_eq!(catalog.root().name, "root");
    assert_eq!(catalog.root().path, Vec::<String>::new());
}

#[test]
fn an_unreadable_root_fails_the_scan() {
    assert_eq!(scan(&Node::Dir(None)), Err(ComicError::IoError));
}

#[test]
fn an_unreadable_directory_below_fails_the_scan() {
    let root = dir(vec![
        ("hero.cbz", comic(b"a")),
        ("Locked", Node::Dir(None)),
        ("later.cbz", comic(b"b")),
    ]);
    assert_eq!(scan(&root), Err(ComicError::IoError));
}

#[test]
fn a_failed_scan_asks_for_nothing_more() {
    let scanner = Scanner::new().on_listing(None);
    assert_eq!(scanner.phase(), Phase::Failed);
    assert_eq!(scanner.request(), ScanRequest::Nothing);
    let scanner = scanner
        .on_listing(Some(vec![DirEntry { name: "hero.cbz".to_string(), is_dir: false }]))
        .on_file(Some(archive(&[("p.jpg", b"x")])));
    assert_eq!(scanner.phase(), Phase::Failed);
    assert_eq!(scanner.finish(), Some(Err(ComicError::IoError)));
}

#[test]
fn an_unreadable_comic_is_left_out() {
    let root = dir(vec![("gone.cbz", Node::File(None)), ("hero.cbz", comic(b"a"))]);
    let catalog = scan(&root).unwrap();
    assert_eq!(ids(&catalog), names(&["hero.cbz"]));
    assert_eq!(catalog.root().comics.len(), 1);
}

#[test]
fn a_corrupt_comic_is_left_out() {
    let root = dir(vec![
        ("broken.cbz", Node::File(Some(b"not an archive".to_vec()))),
        ("empty.cbz", Node::File(Some(Vec::new()))),
        ("hero.cbz", comic(b"a")),
    ]);
    let catalog = scan(&root).unwrap();
    assert_eq!(ids(&catalog), names(&["hero.cbz"]));
    assert_eq!(catalog.root().comics.len(), 1);
    assert_eq!(catalog.root().comics[0].id, "hero.cbz");
}

#[test]
fn files_that_are_no_comics_are_never_read() {
    let root = dir(vec![
        ("notes.txt", Node::File(None)),
        ("cover.jpg", Node::File(None)),
        ("hero.zip", Node::File(None)),
    ]);
    let scanner = answer(Scanner::new(), &root);
    assert_eq!(scanner.phase(), Phase::Done);
    assert_eq!(scanner.request(), ScanRequest::Nothing);
    assert_eq!(scanner.finish(), Some(Ok(Catalog::empty())));
}

#[test]
fn comics_are_told_by_extension_in_any_case() {
    let root = dir(vec![
        ("UPPER.CBZ", comic(b"u")),
        ("Mixed.cBz", comic(b"m")),
        ("lower.cbz", comic(b"l")),
        ("other.cbr", comic(b"o")),
    ]);
    let catalog = scan(&root).unwrap();
    assert_eq!(ids(&catalog), names(&["Mixed.cBz", "UPPER.CBZ", "lower.cbz"]));
}

#[test]
fn the_scanner_asks_for_each_directory_and_each_comic_in_turn() {
    let root = dir(vec![
        ("a.txt", Node::File(None)),
        ("Series", dir(vec![("vol1.cbz", comic(b"1")), ("Sub", dir(vec![]))])),
        ("hero.cbz", comic(b"h")),
    ]);
    let mut scanner = Scanner::new();
    let mut asked = Vec::new();
    loop {
        let request = scanner.request();
        if request == ScanRequest::Nothing {
            break;
        }
        asked.push(request);
        scanner = answer(scanner, &root);
    }
    assert_eq!(
        asked,
        vec![
            ScanRequest::ListDir { path: Vec::new() },
            ScanRequest::ListDir { path: names(&["Series"]) },
            ScanRequest::ReadFile { folder: names(&["Series"]), file_name: "vol1.cbz".to_string() },
            ScanRequest::ListDir { path: names(&["Series", "Sub"]) },
            ScanRequest::ReadFile { folder: Vec::new(), file_name: "hero.cbz".to_string() },
        ]
    );
    assert_eq!(scanner.phase(), Phase::Done);
}

#[test]
fn folders_record_their_place_in_the_tree() {
    let root = dir(vec![(
        "Marvel",
        dir(vec![("SeriesA", dir(vec![("issue1.cbz", comic(b"1"))]))]),
    )]);
    let catalog = scan(&root).unwrap();
    let tree = catalog.root();
    assert_eq!(tree.name, "root");
    assert_eq!(tree.subfolders.len(), 1);
    let marvel = &tree.subfolders[0];
    assert_eq!(marvel.name, "Marvel");
    assert_eq!(marvel.path, Vec::<String>::new());
    assert!(marvel.comics.is_empty());
    let series = &marvel.subfolders[0];
    assert_eq!(series.name, "SeriesA");
    assert_eq!(series.path, names(&["Marvel"]));
    assert_eq!(series.comics.len(), 1);
    let issue = &series.comics[0];
    assert_eq!(issue.id, "issue1.cbz");
    assert_eq!(issue.folder_path, names(&["Marvel", "SeriesA"]));
    assert_eq!(issue.series, Some("SeriesA".to_string()));
    assert_eq!(issue.path, "/comics/issue1.cbz");
    assert_eq!(catalog.entries()[0].comic, *issue);
}

#[test]
fn a_directory_named_root_is_a_folder_like_any_other() {
    let root = dir(vec![("root", dir(vec![("x", dir(vec![("a.cbz", comic(b"a"))]))]))]);
    let catalog = scan(&root).unwrap();
    let inner = &catalog.root().subfolders[0];
    assert_eq!(inner.name, "root");
    assert_eq!(inner.path, Vec::<String>::new());
    assert_eq!(inner.subfolders[0].path, names(&["root"]));
    assert_eq!(inner.subfolders[0].comics[0].folder_path, names(&["root", "x"]));
}

#[test]
fn empty_folders_are_pruned_at_every_depth() {
    let root = dir(vec![
        ("Empty", dir(vec![])),
        ("Deep", dir(vec![("Deeper", dir(vec![("Deepest", dir(vec![("bad.cbz", coverless())]))]))])),
        ("Kept", dir(vec![("Barren", dir(vec![("x.txt", Node::File(None))])), ("k.cbz", comic(b"k"))])),
        ("Only", dir(vec![("Inner", dir(vec![("i.cbz", comic(b"i"))]))])),
    ]);
    let catalog = scan(&root).unwrap();
    let tree = catalog.root();
    let kept: Vec<&str> = tree.subfolders.iter().map(|f| f.name.as_str()).collect();
    assert_eq!(kept, vec!["Kept", "Only"]);
    assert!(tree.subfolders[0].subfolders.is_empty());
    assert_eq!(tree.subfolders[0].comics.len(), 1);
    assert!(tree.subfolders[1].comics.is_empty());
    assert_eq!(tree.subfolders[1].subfolders[0].name, "Inner");
    assert_eq!(ids(&catalog), names(&["i.cbz", "k.cbz"]));
}

#[test]
fn comics_and_folders_keep_the_order_of_the_listing() {
    let root = dir(vec![
        ("z.cbz", comic(b"z")),
        ("B", dir(vec![("b.cbz", comic(b"b"))])),
        ("a.cbz", comic(b"a")),
        ("A", dir(vec![("c.cbz", comic(b"c"))])),
    ]);
    let catalog = scan(&root).unwrap();
    let listed: Vec<&str> = catalog.entries().iter().map(|e| e.comic.id.as_str()).collect();
    assert_eq!(listed, vec!["z.cbz", "b.cbz", "a.cbz", "c.cbz"]);
    let at_root: Vec<&str> = catalog.root().comics.iter().map(|c| c.id.as_str()).collect();
    assert_eq!(at_root, vec!["z.cbz", "a.cbz"]);
    let folders: Vec<&str> = catalog.root().subfolders.iter().map(|f| f.name.as_str()).collect();
    assert_eq!(folders, vec!["B", "A"]);
}

#[test]
fn every_comic_of_the_catalog_has_its_own_cover() {
    let root = dir(vec![
        ("one.cbz", comic(b"cover of one")),
        ("S", dir(vec![("two.cbz", comic(b"cover of two")), ("bad.cbz", coverless())])),
        ("three.cbz", comic(b"cover of three")),
    ]);
    let catalog = scan(&root).unwrap();
    assert_eq!(catalog.len(), 3);
    for entry in catalog.entries() {
        let expected = format!("cover of {}", entry.comic.name);
        assert_eq!(entry.cover.data, expected.into_bytes());
    }
}

#[test]
fn two_files_of_one_name_share_one_entry() {
    let root = dir(vec![
        ("A", dir(vec![("same.cbz", comic(b"first"))])),
        ("B", dir(vec![("same.cbz", comic(b"second"))])),
    ]);
    let catalog = scan(&root).unwrap();
    assert_eq!(catalog.len(), 1);
    let entry = &catalog.entries()[0];
    assert_eq!(entry.comic.id, "same.cbz");
    assert_eq!(entry.comic.folder_path, names(&["B"]));
    assert_eq!(entry.cover.data, b"second".to_vec());
    assert_eq!(catalog.root().subfolders.len(), 2);
    assert_eq!(catalog.root().subfolders[0].comics[0].folder_path, names(&["A"]));
}

#[test]
fn scanning_an_unchanged_tree_again_yields_the_same_catalog() {
    let root = dir(vec![
        ("hero.cbz", comic(b"h")),
        ("bad.cbz", coverless()),
        ("S", dir(vec![("v1.cbz", comic(b"1")), ("T", dir(vec![("v2.cbz", comic(b"2"))]))])),
        ("E", dir(vec![])),
    ]);
    let first = scan(&root).unwrap();
    let second = scan(&root).unwrap();
    assert_eq!(first, second);
    assert_eq!(ids(&first), ids(&second));
    assert_eq!(first.root(), second.root());
}

#[test]
fn answers_out_of_turn_change_nothing() {
    let scanner = Scanner::new()
        .on_file(Some(archive(&[("p.jpg", b"x")])))
        .on_cover(Some(CoverImage { data: vec![1] }));
    assert_eq!(scanner.phase(), Phase::Listing);
    assert_eq!(scanner.request(), ScanRequest::ListDir { path: Vec::new() });
    let scanner = scanner
        .on_listing(Some(vec![DirEntry { name: "hero.cbz".to_string(), is_dir: false }]));
    assert_eq!(scanner.phase(), Phase::Reading);
    let scanner = scanner.on_listing(Some(Vec::new())).on_listing(None);
    assert_eq!(scanner.phase(), Phase::Reading);
    assert_eq!(
        scanner.request(),
        ScanRequest::ReadFile { folder: Vec::new(), file_name: "hero.cbz".to_string() }
    );
    let scanner = scanner.on_cover(Some(CoverImage { data: vec![7, 8] }));
    assert_eq!(scanner.phase(), Phase::Done);
    let scanner = scanner.on_cover(Some(CoverImage { data: vec![9] })).on_listing(None);
    let catalog = scanner.finish().unwrap().unwrap();
    assert_eq!(catalog.len(), 1);
    assert_eq!(catalog.entries()[0].cover.data, vec![7, 8]);
}

#[test]
fn a_cover_handed_over_directly_is_taken_as_it_is() {
    let scanner = Scanner::new()
        .on_listing(Some(vec![
            DirEntry { name: "a.cbz".to_string(), is_dir: false },
            DirEntry { name: "b.cbz".to_string(), is_dir: false },
        ]))
        .on_cover(None)
        .on_cover(Some(CoverImage { data: vec![1, 2, 3] }));
    let catalog = scanner.finish().unwrap().unwrap();
    assert_eq!(ids(&catalog), names(&["b.cbz"]));
    assert_eq!(catalog.entries()[0].cover.data, vec![1, 2, 3]);
}

#[test]
fn a_scanned_comic_is_served_with_the_bytes_of_its_first_image() {
    let pages = archive(&[("info.xml", b"<info/>"), ("page1.jpg", b"bytes of page one"), ("page2.jpg", b"two")]);
    let root = dir(vec![("hero.cbz", Node::File(Some(pages)))]);
    let store = ComicService::new(scan(&root).unwrap());
    let listed = store.get_all_comics();
    assert_eq!(listed.len(), 1);
    assert_eq!(listed[0].id, "hero.cbz");
    assert_eq!(store.get_cover("hero.cbz").unwrap().data, b"bytes of page one".to_vec());
    assert_eq!(store.get_comic("hero.cbz").unwrap(), listed[0]);
    assert_eq!(store.get_folder_structure().comics, listed);
}

#[test]
fn a_folder_of_coverless_comics_shows_nowhere() {
    let root = dir(vec![("Series", dir(vec![("vol1.cbz", coverless())]))]);
    let store = ComicService::new(scan(&root).unwrap());
    assert!(store.get_all_comics().is_empty());
    assert!(store.get_folder_structure().subfolders.is_empty());
    assert!(store.get_comic("vol1.cbz").is_none());
    assert!(store.get_cover("vol1.cbz").is_none());
    assert!(store.search_comics("vol1").is_empty());
    assert!(store.search_comics("series").is_empty());
}

fn every_folder_holds_something(folder: &Folder) -> bool {
    folder
        .subfolders
        .iter()
        .all(|f| (!f.comics.is_empty() || !f.subfolders.is_empty()) && every_folder_holds_something(f))
}

#[test]
fn only_names_with_the_comic_extension_are_catalogued() {
    let pages = archive(&[("p.jpg", b"page")]);
    let file = || Node::File(Some(pages.clone()));
    let root = dir(vec![
        ("A.CBZ", file()),
        ("b.CbZ", file()),
        ("c.cbz", file()),
        ("d.zip", file()),
        ("e.cbz.bak", file()),
        ("cbz", file()),
    ]);
    let catalog = scan(&root).unwrap();
    let expected = names(&["A.CBZ", "b.CbZ", "c.cbz"]);
    assert_eq!(ids(&catalog), expected);
    let mut in_root: Vec<String> = catalog.root().comics.iter().map(|c| c.id.clone()).collect();
    in_root.sort();
    assert_eq!(in_root, expected);
    assert!(catalog.root().subfolders.is_empty());
    let store = ComicService::new(catalog);
    for id in &expected {
        assert_eq!(store.get_cover(id).unwrap().data, b"page".to_vec());
        assert_eq!(store.get_comic(id).unwrap().id, *id);
    }
    for id in ["d.zip", "e.cbz.bak", "cbz"] {
        assert!(store.get_cover(id).is_none());
        assert!(store.get_comic(id).is_none());
    }
}

#[test]
fn a_chain_of_folders_that_ends_in_a_coverless_comic_is_pruned() {
    let root = dir(vec![
        ("a", dir(vec![("b", dir(vec![("c", dir(vec![("bad.cbz", coverless())]))]))])),
        ("x", dir(vec![("good.cbz", comic(b"good"))])),
    ]);
    let catalog = scan(&root).unwrap();
    let kept: Vec<&str> = catalog.root().subfolders.iter().map(|f| f.name.as_str()).collect();
    assert_eq!(kept, vec!["x"]);
    assert!(every_folder_holds_something(catalog.root()));
    assert_eq!(ids(&catalog), names(&["good.cbz"]));
    assert_eq!(catalog.root().subfolders[0].comics[0].id, "good.cbz");
    assert!(catalog.root().comics.is_empty());
}

#[test]
fn no_folder_of_a_scanned_tree_is_empty() {
    let root = dir(vec![
        ("E1", dir(vec![("E2", dir(vec![]))])),
        ("K", dir(vec![
            ("E3", dir(vec![("n.txt", Node::File(None)), ("bad.cbz", coverless())])),
            ("L", dir(vec![("E4", dir(vec![])), ("l.cbz", comic(b"l"))])),
        ])),
        ("r.cbz", comic(b"r")),
    ]);
    let catalog = scan(&root).unwrap();
    assert!(every_folder_holds_something(catalog.root()));
    assert_eq!(catalog.root().subfolders.len(), 1);
    assert_eq!(catalog.root().subfolders[0].name, "K");
    assert_eq!(catalog.root().subfolders[0].subfolders.len(), 1);
    assert_eq!(catalog.root().subfolders[0].subfolders[0].name, "L");
    assert!(catalog.root().subfolders[0].subfolders[0].subfolders.is_empty());
}

#[test]
fn the_published_cover_is_the_first_image_of_the_comics_own_archive() {
    let first = archive(&[("z.txt", b"t"), ("02.png", b"first of one"), ("01.jpg", b"second of one")]);
    let second = archive(&[("cover.GIF", b"first of two"), ("page.jpg", b"second of two")]);
    let root = dir(vec![
        ("one.cbz", Node::File(Some(first))),
        ("S", dir(vec![("two.cbz", Node::File(Some(second)))])),
    ]);
    let store = ComicService::new(scan(&root).unwrap());
    assert_eq!(store.get_cover("one.cbz").unwrap().data, b"first of one".to_vec());
    assert_eq!(store.get_cover("two.cbz").unwrap().data, b"first of two".to_vec());
    assert_eq!(store.get_cover("S/two.cbz").unwrap().data, b"first of two".to_vec());
}

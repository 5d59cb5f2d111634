use comic_catalog::catalog::{clone_entries, Catalog, Entry};
use comic_catalog::comic::{Comic, CoverImage};
use comic_catalog::folder::{clone_comics, Folder};

fn names(v: &[&str]) -> Vec<String> {
    v.iter().map(|s| s.to_string()).collect()
}

#[test]
fn the_root_folder_is_named_root_and_empty() {
    let root = Folder::root();
    assert_eq!(root.name, "root");
    assert_eq!(root.path, Vec::<String>::new());
    assert!(root.comics.is_empty());
    assert!(root.subfolders.is_empty());
    assert!(!root.is_kept());
}

#[test]
fn an_empty_folder_has_its_name_and_path() {
    let f = Folder::empty("SeriesA".to_string(), names(&["Marvel"]));
    assert_eq!(f.name, "SeriesA");
    assert_eq!(f.path, names(&["Marvel"]));
    assert!(f.comics.is_empty());
    assert!(f.subfolders.is_empty());
    assert!(!f.is_kept());
}

#[test]
fn a_folder_with_a_comic_is_kept() {
    let mut f = Folder::empty("S".to_string(), Vec::new());
    let first = Comic::at(names(&["S"]), "a.cbz".to_string());
    let second = Comic::at(names(&["S"]), "b.cbz".to_string());
    f.add_comic(first.clone());
    assert!(f.is_kept());
    f.add_comic(second.clone());
    assert_eq!(f.comics, vec![first, second]);
    assert!(f.subfolders.is_empty());
    assert_eq!(f.name, "S");
}

#[test]
fn a_folder_with_a_subfolder_is_kept() {
    let mut f = Folder::root();
    let child = Folder::empty("A".to_string(), Vec::new());
    let other = Folder::empty("B".to_string(), Vec::new());
    f.add_subfolder(child.clone());
    assert!(f.is_kept());
    f.add_subfolder(other.clone());
    assert_eq!(f.subfolders, vec![child, other]);
    assert!(f.comics.is_empty());
}

#[test]
fn a_folder_is_cloned_with_everything_below_it() {
    let mut inner = Folder::empty("Inner".to_string(), names(&["Outer"]));
    inner.add_comic(Comic::at(names(&["Outer", "Inner"]), "x.cbz".to_string()));
    let mut outer = Folder::empty("Outer".to_string(), Vec::new());
    outer.add_subfolder(inner);
    outer.add_comic(Comic::at(names(&["Outer"]), "y z.cbz".to_string()));
    let mut root = Folder::root();
    root.add_subfolder(outer);
    let copy = root.clone();
    assert_eq!(copy, root);
    assert_eq!(copy.subfolders[0].subfolders[0].comics[0].id, "x.cbz");
}

#[test]
fn vectors_of_records_are_copied_element_by_element() {
    let comics = vec![
        Comic::at(Vec::new(), "a.cbz".to_string()),
        Comic::at(names(&["S"]), "b.cbz".to_string()),
    ];
    assert_eq!(clone_comics(&comics), comics);
    let entries: Vec<Entry> = comics
        .iter()
        .map(|c| Entry { comic: c.clone(), cover: CoverImage { data: c.id.clone().into_bytes() } })
        .collect();
    assert_eq!(clone_entries(&entries), entries);
    assert_eq!(entries[1].clone(), entries[1]);
}

#[test]
fn the_empty_catalog_has_an_empty_root() {
    let catalog = Catalog::empty();
    assert_eq!(catalog.len(), 0);
    assert!(catalog.entries().is_empty());
    assert_eq!(*catalog.root(), Folder::root());
    assert_eq!(catalog.clone(), catalog);
}

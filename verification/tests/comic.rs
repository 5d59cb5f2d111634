use comic_catalog::comic::{process_comic_file, Comic, CoverImage};
use comic_catalog::error::ComicError;
use comic_catalog::percent::percent_decode;

fn path(parts: &[&str]) -> Vec<String> {
    parts.iter().map(|p| p.to_string()).collect()
}

#[test]
fn percent_decode_replaces_escapes() {
    assert_eq!(percent_decode("hello%20world"), Some("hello world".to_string()));
    assert_eq!(percent_decode("my%20comic%20%231.cbz"), Some("my comic #1.cbz".to_string()));
    assert_eq!(percent_decode("%41%42"), Some("AB".to_string()));
}

#[test]
fn percent_decode_takes_hex_digits_of_either_case() {
    assert_eq!(percent_decode("%C3%A9"), Some("é".to_string()));
    assert_eq!(percent_decode("%c3%a9"), Some("é".to_string()));
    assert_eq!(percent_decode("%F0%9F%91%BE"), Some("👾".to_string()));
}

#[test]
fn percent_decode_leaves_plain_text_alone() {
    assert_eq!(percent_decode("hero.cbz"), Some("hero.cbz".to_string()));
    assert_eq!(percent_decode(""), Some("".to_string()));
    assert_eq!(percent_decode("a+b"), Some("a+b".to_string()));
    assert_eq!(percent_decode("é"), Some("é".to_string()));
}

#[test]
fn percent_decode_keeps_a_stray_percent_sign() {
    assert_eq!(percent_decode("%"), Some("%".to_string()));
    assert_eq!(percent_decode("%4"), Some("%4".to_string()));
    assert_eq!(percent_decode("%zz"), Some("%zz".to_string()));
    assert_eq!(percent_decode("100%"), Some("100%".to_string()));
    assert_eq!(percent_decode("%%41"), Some("%A".to_string()));
    assert_eq!(percent_decode("%4%41"), Some("%4A".to_string()));
    assert_eq!(percent_decode("%4g"), Some("%4g".to_string()));
}

#[test]
fn percent_decode_refuses_what_is_not_utf8() {
    assert_eq!(percent_decode("%ff"), None);
    assert_eq!(percent_decode("%C3"), None);
    assert_eq!(percent_decode("ok%80"), None);
}

#[test]
fn a_comic_at_the_root_has_no_series() {
    let c = Comic::at(Vec::new(), "hero.cbz".to_string());
    assert_eq!(c.id, "hero.cbz");
    assert_eq!(c.name, "hero");
    assert_eq!(c.file_name, "hero.cbz");
    assert_eq!(c.path, "/comics/hero.cbz");
    assert_eq!(c.folder_path, Vec::<String>::new());
    assert_eq!(c.series, None);
}

#[test]
fn a_comic_in_folders_takes_the_last_as_series() {
    let c = Comic::at(path(&["Marvel", "SeriesA"]), "issue1.cbz".to_string());
    assert_eq!(c.id, "issue1.cbz");
    assert_eq!(c.name, "issue1");
    assert_eq!(c.folder_path, path(&["Marvel", "SeriesA"]));
    assert_eq!(c.series, Some("SeriesA".to_string()));
}

#[test]
fn the_url_path_escapes_the_file_name() {
    let c = Comic::at(Vec::new(), "my comic #1.cbz".to_string());
    assert_eq!(c.path, "/comics/my%20comic%20%231.cbz");
    let c = Comic::at(Vec::new(), "é.cbz".to_string());
    assert_eq!(c.path, "/comics/%C3%A9.cbz");
    let c = Comic::at(Vec::new(), "a-b_c.d~e.cbz".to_string());
    assert_eq!(c.path, "/comics/a-b_c.d~e.cbz");
    let c = Comic::at(Vec::new(), "a/b?c&d=e+f".to_string());
    assert_eq!(c.path, "/comics/a%2Fb%3Fc%26d%3De%2Bf");
}

#[test]
fn the_url_path_decodes_back_to_the_file_name() {
    for name in ["my comic #1.cbz", "é ü 👾.cbz", "100%.cbz", "plain.cbz"] {
        let c = Comic::at(Vec::new(), name.to_string());
        let escaped = &c.path["/comics/".len()..];
        assert_eq!(percent_decode(escaped), Some(name.to_string()));
    }
}

#[test]
fn from_path_takes_the_folders_between_base_and_file() {
    let c = Comic::from_path(
        &path(&["srv", "comics"]),
        &path(&["srv", "comics", "Series", "vol1.cbz"]),
    )
    .unwrap();
    assert_eq!(c.id, "vol1.cbz");
    assert_eq!(c.name, "vol1");
    assert_eq!(c.file_name, "vol1.cbz");
    assert_eq!(c.path, "/comics/vol1.cbz");
    assert_eq!(c.folder_path, path(&["Series"]));
    assert_eq!(c.series, Some("Series".to_string()));
}

#[test]
fn from_path_of_a_file_in_the_base_has_no_folders() {
    let c = Comic::from_path(&path(&["srv"]), &path(&["srv", "hero.cbz"])).unwrap();
    assert_eq!(c.folder_path, Vec::<String>::new());
    assert_eq!(c.series, None);
    let c = Comic::from_path(&Vec::new(), &path(&["a", "b", "c.cbz"])).unwrap();
    assert_eq!(c.folder_path, path(&["a", "b"]));
    assert_eq!(c.series, Some("b".to_string()));
}

#[test]
fn from_path_of_the_base_itself_names_its_last_component() {
    let c = Comic::from_path(&path(&["srv", "x.cbz"]), &path(&["srv", "x.cbz"])).unwrap();
    assert_eq!(c.file_name, "x.cbz");
    assert_eq!(c.folder_path, Vec::<String>::new());
}

#[test]
fn from_path_refuses_paths_without_a_file_in_the_base() {
    assert!(Comic::from_path(&path(&["srv"]), &Vec::new()).is_none());
    assert!(Comic::from_path(&path(&["srv"]), &path(&["other", "hero.cbz"])).is_none());
    assert!(Comic::from_path(&path(&["srv", "comics"]), &path(&["srv"])).is_none());
    assert!(Comic::from_path(&path(&["srv"]), &path(&["srv", ".."])).is_none());
}

#[test]
fn process_comic_file_reports_an_invalid_path() {
    assert_eq!(
        process_comic_file(&path(&["srv"]), &path(&["other", "hero.cbz"])),
        Err(ComicError::InvalidPath)
    );
    let c = process_comic_file(&path(&["srv"]), &path(&["srv", "hero.cbz"])).unwrap();
    assert_eq!(c, Comic::at(Vec::new(), "hero.cbz".to_string()));
}

#[test]
fn search_matches_a_folder_without_regard_to_case() {
    let c = Comic::at(path(&["SeriesA"]), "issue1.cbz".to_string());
    assert!(c.matches_search("seriesa"));
    assert!(c.matches_search("SERIESA"));
    assert!(c.matches_search("riesA"));
}

#[test]
fn search_matches_the_name_and_any_folder() {
    let c = Comic::at(path(&["Marvel", "SeriesA"]), "Issue One.cbz".to_string());
    assert!(c.matches_search("issue"));
    assert!(c.matches_search("ONE"));
    assert!(c.matches_search("marv"));
    assert!(c.matches_search(""));
    assert!(!c.matches_search("cbz"));
    assert!(!c.matches_search("dc"));
    assert!(!c.matches_search("Marvel/SeriesA"));
}

#[test]
fn search_of_a_comic_at_the_root_looks_at_the_name_only() {
    let c = Comic::at(Vec::new(), "hero.cbz".to_string());
    assert!(c.matches_search("HER"));
    assert!(!c.matches_search("root"));
}

#[test]
fn clones_equal_what_they_were_made_from() {
    let c = Comic::at(path(&["a", "b"]), "x y.cbz".to_string());
    assert_eq!(c.clone(), c);
    let image = CoverImage { data: vec![1, 2, 3] };
    assert_eq!(image.clone(), image);
}

#[test]
fn every_error_has_its_message() {
    assert_eq!(ComicError::IoError.message(), "IO error");
    assert_eq!(ComicError::InvalidPath.message(), "Invalid path");
    assert_eq!(ComicError::ComicNotFound.message(), "Comic not found");
    assert_eq!(ComicError::NoCoverFound.message(), "No cover found in comic");
    assert_eq!(ComicError::CorruptArchive.message(), "Zip error");
}

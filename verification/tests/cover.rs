use comic_catalog::cover::{extract_cover, has_image_suffix};
use comic_catalog::error::ComicError;
use std::io::Write;

fn archive(entries: &[(&str, &[u8])], deflate: bool) -> Vec<u8> {
    let mut writer = zip::ZipWriter::new(std::io::Cursor::new(Vec::new()));
    let method = if deflate {
        zip::CompressionMethod::Deflated
    } else {
        zip::CompressionMethod::Stored
    };
    for (name, data) in entries {
        let options = zip::write::FileOptions::default().compression_method(method);
        writer.start_file(*name, options).unwrap();
        writer.write_all(data).unwrap();
    }
    writer.finish().unwrap().into_inner()
}

#[test]
fn image_names_end_in_one_of_four_suffixes() {
    assert!(has_image_suffix("page1.jpg"));
    assert!(has_image_suffix("page1.jpeg"));
    assert!(has_image_suffix("page1.png"));
    assert!(has_image_suffix("page1.gif"));
    assert!(has_image_suffix("dir/sub/page1.png"));
    assert!(has_image_suffix(".jpg"));
}

#[test]
fn other_names_are_no_images() {
    assert!(!has_image_suffix("page1.bmp"));
    assert!(!has_image_suffix("page1.webp"));
    assert!(!has_image_suffix("page1.jpg.txt"));
    assert!(!has_image_suffix("jpg"));
    assert!(!has_image_suffix("page1jpg"));
    assert!(!has_image_suffix("PAGE1.JPG"));
    assert!(!has_image_suffix(""));
}

#[test]
fn the_cover_is_the_content_of_the_image() {
    let bytes = archive(&[("page1.jpg", b"first page")], false);
    let cover = extract_cover(bytes).unwrap();
    assert_eq!(cover.data, b"first page".to_vec());
}

#[test]
fn the_cover_is_decompressed() {
    let page: Vec<u8> = std::iter::repeat(b"abcabcabc".iter().copied()).take(200).flatten().collect();
    let bytes = archive(&[("page1.png", &page)], true);
    assert!(bytes.len() < page.len());
    let cover = extract_cover(bytes).unwrap();
    assert_eq!(cover.data, page);
}

#[test]
fn the_cover_is_the_first_image_in_listing_order() {
    let bytes = archive(
        &[
            ("readme.txt", b"notes"),
            ("z_last.png", b"listed first"),
            ("a_first.jpg", b"listed second"),
        ],
        false,
    );
    let cover = extract_cover(bytes).unwrap();
    assert_eq!(cover.data, b"listed first".to_vec());
}

#[test]
fn image_names_are_matched_without_regard_to_case() {
    let bytes = archive(&[("info.xml", b"<x/>"), ("PAGE1.JPG", b"upper")], false);
    assert_eq!(extract_cover(bytes).unwrap().data, b"upper".to_vec());
    let bytes = archive(&[("Cover.JpEg", b"mixed")], false);
    assert_eq!(extract_cover(bytes).unwrap().data, b"mixed".to_vec());
    let bytes = archive(&[("x.GIF", b"gif")], true);
    assert_eq!(extract_cover(bytes).unwrap().data, b"gif".to_vec());
}

#[test]
fn an_image_in_a_folder_of_the_archive_counts() {
    let bytes = archive(&[("pages/", b""), ("pages/001.png", b"nested")], false);
    assert_eq!(extract_cover(bytes).unwrap().data, b"nested".to_vec());
}

#[test]
fn an_empty_image_is_a_cover() {
    let bytes = archive(&[("blank.png", b""), ("page.jpg", b"later")], false);
    assert_eq!(extract_cover(bytes).unwrap().data, Vec::<u8>::new());
}

#[test]
fn an_archive_without_an_image_has_no_cover() {
    let bytes = archive(&[("readme.txt", b"notes"), ("page.bmp", b"bitmap")], false);
    assert_eq!(extract_cover(bytes), Err(ComicError::NoCoverFound));
}

#[test]
fn an_empty_archive_has_no_cover() {
    let bytes = archive(&[], false);
    assert_eq!(extract_cover(bytes), Err(ComicError::NoCoverFound));
}

#[test]
fn bytes_that_are_no_archive_are_corrupt() {
    assert_eq!(extract_cover(Vec::new()), Err(ComicError::CorruptArchive));
    assert_eq!(extract_cover(b"this is not a zip file".to_vec()), Err(ComicError::CorruptArchive));
    assert_eq!(extract_cover(vec![0u8; 4096]), Err(ComicError::CorruptArchive));
}

#[test]
fn a_truncated_archive_is_corrupt() {
    let mut bytes = archive(&[("page1.jpg", b"first page of many")], false);
    bytes.truncate(bytes.len() - 10);
    assert_eq!(extract_cover(bytes), Err(ComicError::CorruptArchive));
}

#[test]
fn an_image_whose_content_is_damaged_is_corrupt() {
    let mut bytes = archive(&[("page1.jpg", b"first page of many")], false);
    let at = bytes.windows(5).position(|w| w == b"first").unwrap();
    bytes[at] = b'F';
    assert_eq!(extract_cover(bytes), Err(ComicError::CorruptArchive));
}

#[test]
fn damage_behind_the_cover_does_not_matter() {
    let mut bytes = archive(&[("page1.jpg", b"cover"), ("page2.jpg", b"second page")], false);
    let at = bytes.windows(6).position(|w| w == b"second").unwrap();
    bytes[at] = b'S';
    assert_eq!(extract_cover(bytes).unwrap().data, b"cover".to_vec());
}

#[test]
fn an_entry_whose_header_is_gone_makes_the_archive_corrupt() {
    let mut bytes = archive(&[("notes.txt", b"front"), ("page1.jpg", b"cover")], false);
    bytes[0] = 0;
    assert_eq!(extract_cover(bytes), Err(ComicError::CorruptArchive));
}

fn crc32(data: &[u8]) -> u32 {
    let mut crc: u32 = 0xffff_ffff;
    for byte in data {
        crc ^= *byte as u32;
        for _ in 0..8 {
            crc = if crc & 1 == 1 { (crc >> 1) ^ 0xedb8_8320 } else { crc >> 1 };
        }
    }
    !crc
}

/// A stored archive written byte by byte, so that flags and extra fields
/// can be set as no writer would set them.
fn raw_archive(entries: &[(&str, &[u8], u16, &[u8])]) -> Vec<u8> {
    let mut out: Vec<u8> = Vec::new();
    let mut central: Vec<u8> = Vec::new();
    for (name, data, flags, extra) in entries {
        let offset = out.len() as u32;
        let crc = crc32(data);
        out.extend_from_slice(&0x0403_4b50u32.to_le_bytes());
        out.extend_from_slice(&20u16.to_le_bytes());
        out.extend_from_slice(&flags.to_le_bytes());
        out.extend_from_slice(&0u16.to_le_bytes());
        out.extend_from_slice(&[0u8; 4]);
        out.extend_from_slice(&crc.to_le_bytes());
        out.extend_from_slice(&(data.len() as u32).to_le_bytes());
        out.extend_from_slice(&(data.len() as u32).to_le_bytes());
        out.extend_from_slice(&(name.len() as u16).to_le_bytes());
        out.extend_from_slice(&0u16.to_le_bytes());
        out.extend_from_slice(name.as_bytes());
        out.extend_from_slice(data);

        central.extend_from_slice(&0x0201_4b50u32.to_le_bytes());
        central.extend_from_slice(&20u16.to_le_bytes());
        central.extend_from_slice(&20u16.to_le_bytes());
        central.extend_from_slice(&flags.to_le_bytes());
        central.extend_from_slice(&0u16.to_le_bytes());
        central.extend_from_slice(&[0u8; 4]);
        central.extend_from_slice(&crc.to_le_bytes());
        central.extend_from_slice(&(data.len() as u32).to_le_bytes());
        central.extend_from_slice(&(data.len() as u32).to_le_bytes());
        central.extend_from_slice(&(name.len() as u16).to_le_bytes());
        central.extend_from_slice(&(extra.len() as u16).to_le_bytes());
        central.extend_from_slice(&[0u8; 6]);
        central.extend_from_slice(&0u32.to_le_bytes());
        central.extend_from_slice(&offset.to_le_bytes());
        central.extend_from_slice(name.as_bytes());
        central.extend_from_slice(extra);
    }
    let start = out.len() as u32;
    out.extend_from_slice(&central);
    out.extend_from_slice(&0x0605_4b50u32.to_le_bytes());
    out.extend_from_slice(&[0u8; 4]);
    out.extend_from_slice(&(entries.len() as u16).to_le_bytes());
    out.extend_from_slice(&(entries.len() as u16).to_le_bytes());
    out.extend_from_slice(&(central.len() as u32).to_le_bytes());
    out.extend_from_slice(&start.to_le_bytes());
    out.extend_from_slice(&0u16.to_le_bytes());
    out
}

const AES_FIELD: [u8; 11] = [0x01, 0x99, 0x07, 0x00, 0x02, 0x00, 0x41, 0x45, 0x03, 0x00, 0x00];

#[test]
fn an_archive_written_by_hand_is_read_like_any_other() {
    let bytes = raw_archive(&[("notes.txt", b"n", 0, &[]), ("Page.PNG", b"by hand", 0, &[])]);
    assert_eq!(extract_cover(bytes).unwrap().data, b"by hand".to_vec());
}

#[test]
fn an_encrypted_entry_makes_the_archive_corrupt() {
    let bytes = raw_archive(&[
        ("secret.txt", b"0123456789abcdef", 1, &[]),
        ("page1.jpg", b"cover", 0, &[]),
    ]);
    assert_eq!(extract_cover(bytes), Err(ComicError::CorruptArchive));
    let bytes = raw_archive(&[("page1.jpg", b"0123456789abcdef", 1, &[])]);
    assert_eq!(extract_cover(bytes), Err(ComicError::CorruptArchive));
}

#[test]
fn an_entry_that_wants_a_key_without_saying_so_makes_the_archive_corrupt() {
    let bytes = raw_archive(&[
        ("locked.txt", b"0123456789abcdef", 0, &AES_FIELD),
        ("page1.jpg", b"cover", 0, &[]),
    ]);
    assert_eq!(extract_cover(bytes), Err(ComicError::CorruptArchive));
    let bytes = raw_archive(&[("page1.jpg", b"cover", 0, &AES_FIELD)]);
    assert_eq!(extract_cover(bytes), Err(ComicError::CorruptArchive));
}

#[test]
fn a_locked_entry_behind_the_cover_does_not_matter() {
    let bytes = raw_archive(&[
        ("page1.jpg", b"cover", 0, &[]),
        ("locked.jpg", b"0123456789abcdef", 0, &AES_FIELD),
        ("secret.jpg", b"0123456789abcdef", 1, &[]),
    ]);
    assert_eq!(extract_cover(bytes).unwrap().data, b"cover".to_vec());
}

use lotus_lib::cache_pair::{
    is_post_ensmallening_header, CacheDataError, CachePairReader, StorageMethod,
};
use lotus_lib::package_collection::{
    package_name_from_toc_file, package_names_from_listing, PackageCollection,
    LOCALIZATION_SUFFIXES,
};
use lotus_lib::pre_ensmallening::PreEnsmalleningError;

type Collection = PackageCollection<u32>;

fn sample() -> Collection {
    let listing = [
        "H.Misc.toc",
        "F.Misc.cache",
        "H.Misc_de.toc",
        "H.Misc_fr.toc",
        "H.Texture.toc",
        "B.Texture.cache",
        "H.toc",
        "readme.txt",
    ];
    PackageCollection::new("/cache".to_string(), true, &listing, |name: String| {
        match name.as_str() {
            "Misc" => 5,
            "Misc_de" => 2,
            "Misc_fr" => 3,
            "Texture" => 4,
            _ => 0,
        }
    })
}

#[test]
fn package_names_come_from_header_tocs_in_order() {
    let listing = ["F.Misc.cache", "H.Misc.toc", "H..toc", "H.1.toc", "h.Lower.toc", "H.Misc.toc"];
    assert_eq!(
        package_names_from_listing(&listing),
        vec!["Misc".to_string(), "1".to_string(), "Misc".to_string()]
    );
    assert!(package_names_from_listing(&[]).is_empty());
}

#[test]
fn collection_keys_are_the_listed_package_names() {
    let listing = ["H.A.toc", "F.A.cache", "H.B_de.toc"];
    let c: PackageCollection<String> =
        PackageCollection::new("d".to_string(), false, &listing, |name: String| name + "!");
    assert!(!c.is_post_ensmallening());
    assert_eq!(c.packages().len(), 2);
    assert_eq!(c.borrow("A"), Some(&"A!".to_string()));
    assert_eq!(c.borrow("B_de"), Some(&"B_de!".to_string()));
    assert_eq!(c.borrow("F.A.cache"), None);
}

#[test]
fn collection_accessors() {
    let c = sample();
    assert!(c.is_post_ensmallening());
    assert_eq!(c.directory(), "/cache");
    assert_eq!(c.packages().len(), 4);
    assert_eq!(c.borrow("Misc"), Some(&5));
    assert_eq!(c.borrow("Texture"), Some(&4));
    assert_eq!(c.borrow("Nope"), None);
}

#[test]
fn collection_borrow_mut_and_take() {
    let mut c = sample();
    *c.borrow_mut("Texture").unwrap() = 40;
    assert_eq!(c.borrow("Texture"), Some(&40));
    assert!(c.borrow_mut("Nope").is_none());
    assert_eq!(c.take("Misc_de"), Some(2));
    assert_eq!(c.borrow("Misc_de"), None);
    assert_eq!(c.take("Misc_de"), None);
    assert_eq!(c.packages().len(), 3);
}

#[test]
fn localization_helpers() {
    assert_eq!(LOCALIZATION_SUFFIXES.len(), 14);
    assert!(Collection::is_localized_package("Misc_de"));
    assert!(Collection::is_localized_package("Misc_xx"));
    assert!(!Collection::is_localized_package("Misc"));
    assert!(!Collection::is_localized_package("_d"));
    assert_eq!(Collection::get_base_package_name("Misc_fr"), "Misc");
    assert_eq!(Collection::get_base_package_name("Misc"), "Misc");
    assert_eq!(Collection::get_base_package_name("_en"), "");
}

#[test]
fn localization_variants_in_suffix_order() {
    let c = sample();
    let v: Vec<(String, u32)> = c
        .get_localization_variants("Misc")
        .into_iter()
        .map(|(n, p)| (n, *p))
        .collect();
    assert_eq!(
        v,
        vec![("Misc".to_string(), 5), ("Misc_de".to_string(), 2), ("Misc_fr".to_string(), 3)]
    );
    assert!(c.get_localization_variants("Other").is_empty());
}

#[test]
fn package_names_from_toc_files() {
    assert_eq!(package_name_from_toc_file("H.Misc.toc"), Some("Misc".to_string()));
    assert_eq!(package_name_from_toc_file("H.1.toc"), Some("1".to_string()));
    assert_eq!(package_name_from_toc_file("H..toc"), None);
    assert_eq!(package_name_from_toc_file("H.toc"), None);
    assert_eq!(package_name_from_toc_file("F.Misc.toc"), None);
    assert_eq!(package_name_from_toc_file("H.Misc.cache"), None);
    assert_eq!(package_name_from_toc_file("H.é.toc"), Some("é".to_string()));
}

#[test]
fn cache_pair_reader_basics() {
    let r = CachePairReader::new("H.Misc.toc".to_string(), "H.Misc.cache".to_string(), false, 42);
    assert!(!r.is_post_ensmallening());
    assert_eq!(r.toc_path(), "H.Misc.toc");
    assert_eq!(r.cache_path(), "H.Misc.cache");
    assert_eq!(r.cache_size(), 42);
    assert!(r.files().is_empty());
    assert!(r.first_compressed_file().is_none());
}

fn toc_with_files() -> Vec<u8> {
    fn entry(cache_offset: i64, comp_len: i32, len: i32, parent: i32, name: &[u8]) -> Vec<u8> {
        let mut e = Vec::new();
        e.extend_from_slice(&cache_offset.to_le_bytes());
        e.extend_from_slice(&1i64.to_le_bytes());
        e.extend_from_slice(&comp_len.to_le_bytes());
        e.extend_from_slice(&len.to_le_bytes());
        e.extend_from_slice(&0i32.to_le_bytes());
        e.extend_from_slice(&parent.to_le_bytes());
        let mut n = [0u8; 64];
        n[..name.len()].copy_from_slice(name);
        e.extend_from_slice(&n);
        e
    }
    let mut v = vec![0u8; 8];
    v.extend(entry(-1, 0, 0, 0, b"Lotus"));
    v.extend(entry(0, 4, 4, 1, b"stored.bin"));
    v.extend(entry(4, 8, 6, 1, b"packed.bin"));
    v
}

#[test]
fn cache_pair_reader_reads_and_decompresses() {
    let mut r = CachePairReader::new("t".to_string(), "c".to_string(), false, 0);
    r.read_toc(&toc_with_files(), false).unwrap();
    assert_eq!(r.files().len(), 2);
    assert_eq!(r.directories().len(), 2);
    let first = r.first_compressed_file().unwrap();
    assert_eq!(first.name(), "packed.bin");

    let stored = r.get_file_node("/lotus/STORED.bin").unwrap();
    assert!(r.get_directory_node("/lotus/stored.bin").is_none());
    assert_eq!(r.storage_method(&stored), StorageMethod::Stored);
    assert_eq!(r.decompress_data(&stored, &[1, 2, 3, 4]).unwrap(), vec![1, 2, 3, 4]);

    let packed = r.get_file_node("/Lotus/packed.bin").unwrap();
    assert_eq!(r.storage_method(&packed), StorageMethod::PreEnsmallening);
    let block = [0u8, 4, 0, 6, 0, b'q', 0x60, 0];
    assert_eq!(r.decompress_data(&packed, &block).unwrap(), vec![b'q'; 6]);
    assert_eq!(
        r.decompress_data(&packed, &[0, 9]),
        Err(CacheDataError::PreEnsmallening(PreEnsmalleningError::BlockHeaderIncomplete))
    );

    r.detect_post_ensmallening(&[0x80, 0, 0, 0, 0, 0, 0, 0x21]);
    assert!(r.is_post_ensmallening());
    assert_eq!(r.storage_method(&packed), StorageMethod::PostEnsmallening);
    assert_eq!(
        r.decompress_data(&packed, &block),
        Err(CacheDataError::PostEnsmalleningUnsupported)
    );
    assert_eq!(r.storage_method(&stored), StorageMethod::Stored);

    r.unread_toc();
    assert!(r.files().is_empty());
    assert!(!r.toc().is_loaded());
}

#[test]
fn post_ensmallening_header_detection() {
    assert!(is_post_ensmallening_header(&[0x80, 9, 9, 9, 9, 9, 9, 0x01]));
    assert!(is_post_ensmallening_header(&[0x80, 0, 0, 0, 0, 0, 0, 0xF1]));
    assert!(!is_post_ensmallening_header(&[0x80, 0, 0, 0, 0, 0, 0, 0x02]));
    assert!(!is_post_ensmallening_header(&[0x81, 0, 0, 0, 0, 0, 0, 0x01]));
}

#[test]
fn collection_packages_list_every_name_once() {
    let c = sample();
    let mut listed: Vec<(String, u32)> =
        c.packages().into_iter().map(|(n, p)| (n.to_string(), *p)).collect();
    listed.sort();
    assert_eq!(
        listed,
        vec![
            ("Misc".to_string(), 5),
            ("Misc_de".to_string(), 2),
            ("Misc_fr".to_string(), 3),
            ("Texture".to_string(), 4),
        ]
    );
}

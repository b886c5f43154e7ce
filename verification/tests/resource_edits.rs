use editpe::{ResourceData, ResourceDirectory, ResourceEntry, ResourceEntryName};
use editpe_cli::edits::{
    can_set_rcdata, can_store_manifest, can_store_version_info, parse_resource_id, rcdata_name_fits, set_execution_level, set_file_version,
    set_manifest, set_product_version, set_rcdata, set_version_string, version_string, EditError,
};
use editpe_cli::image::{can_save_resources, open_image, save_resources};
use editpe_cli::strings::{can_set_resource_string, get_resource_string, set_resource_string};

fn data_entry(bytes: Vec<u8>) -> ResourceEntry {
    let mut d = ResourceData::default();
    d.set_data(bytes);
    ResourceEntry::Data(d)
}

#[test]
fn cli_set_and_get_version_string() {
    let mut resources = ResourceDirectory::default();
    set_version_string(&mut resources, "Comments", "This is an exe").map_err(|_| ()).unwrap();
    let got = version_string(&resources, "Comments").map_err(|_| ()).unwrap();
    assert_eq!(got, "This is an exe");
}

#[test]
fn cli_set_and_get_file_and_product_version() {
    let mut resources = ResourceDirectory::default();
    set_file_version(&mut resources, "10.7").map_err(|_| ()).unwrap();
    set_product_version(&mut resources, "1.2.3").map_err(|_| ()).unwrap();
    let file = version_string(&resources, "FileVersion").map_err(|_| ()).unwrap();
    let product = version_string(&resources, "ProductVersion").map_err(|_| ()).unwrap();
    assert_eq!(file, "10.7.0.0");
    assert_eq!(product, "1.2.3.0");
    let vi = resources.get_version_info().unwrap().unwrap();
    assert_eq!((vi.info.file_version.major, vi.info.file_version.minor), ((10 << 16) | 7, 0));
    assert_eq!((vi.info.product_version.major, vi.info.product_version.minor), ((1 << 16) | 2, 3 << 16));
    assert_eq!(vi.strings.len(), 1);
    assert_eq!(vi.strings[0].key, "040904B0");
}

#[test]
fn cli_set_and_get_resource_string() {
    let mut resources = ResourceDirectory::default();
    assert!(can_set_resource_string(&resources, 11));
    set_resource_string(&mut resources, 11, "hello world");
    assert_eq!(get_resource_string(&resources, 11).as_deref(), Some("hello world"));
}

#[test]
fn version_string_errors() {
    let resources = ResourceDirectory::default();
    assert!(matches!(version_string(&resources, "Comments"), Err(EditError::NoVersionInfo)));
    let mut resources = ResourceDirectory::default();
    set_version_string(&mut resources, "Comments", "x").map_err(|_| ()).unwrap();
    assert!(matches!(
        version_string(&resources, "CompanyName"),
        Err(EditError::VersionStringNotFound)
    ));
}

#[test]
fn version_string_replaced_in_place() {
    let mut resources = ResourceDirectory::default();
    set_version_string(&mut resources, "A", "1").map_err(|_| ()).unwrap();
    set_version_string(&mut resources, "B", "2").map_err(|_| ()).unwrap();
    set_version_string(&mut resources, "A", "3").map_err(|_| ()).unwrap();
    let vi = resources.get_version_info().unwrap().unwrap();
    let pairs: Vec<(String, String)> =
        vi.strings[0].strings.iter().map(|(k, v)| (k.clone(), v.clone())).collect();
    assert_eq!(pairs, vec![("A".to_string(), "3".to_string()), ("B".to_string(), "2".to_string())]);
}

#[test]
fn invalid_version_leaves_resources_unchanged() {
    let mut resources = ResourceDirectory::default();
    match set_file_version(&mut resources, "1.2.x") {
        Err(EditError::InvalidVersion(e)) => assert_eq!(e.component, "x"),
        _ => panic!("expected an invalid version"),
    }
    assert!(resources.get_version_info().unwrap().is_none());
    assert!(matches!(set_product_version(&mut resources, "70000"), Err(EditError::InvalidVersion(_))));
}

#[test]
fn unreadable_version_info_is_reported() {
    let mut resources = ResourceDirectory::default();
    // a version table stored as data cannot be read
    resources.root_mut().insert(ResourceEntryName::ID(16), data_entry(vec![1, 2, 3]));
    assert!(matches!(version_string(&resources, "A"), Err(EditError::ReadVersionInfo(_))));
    assert!(matches!(
        set_version_string(&mut resources, "A", "B"),
        Err(EditError::ReadVersionInfo(_))
    ));
}

#[test]
fn resource_strings_in_one_block_are_independent() {
    let mut resources = ResourceDirectory::default();
    set_resource_string(&mut resources, 16, "first");
    set_resource_string(&mut resources, 31, "last");
    set_resource_string(&mut resources, 20, "middle");
    assert_eq!(get_resource_string(&resources, 16).as_deref(), Some("first"));
    assert_eq!(get_resource_string(&resources, 31).as_deref(), Some("last"));
    assert_eq!(get_resource_string(&resources, 20).as_deref(), Some("middle"));
    assert_eq!(get_resource_string(&resources, 17), None);
    assert_eq!(get_resource_string(&resources, 15), None);
    set_resource_string(&mut resources, 20, "");
    assert_eq!(get_resource_string(&resources, 20), None);
    assert_eq!(get_resource_string(&resources, 31).as_deref(), Some("last"));
    // the block of strings 16..32 is block 2, stored under the default language
    let string_table = resources.root().get(ResourceEntryName::ID(6)).unwrap().as_table().unwrap();
    let block = string_table.get(ResourceEntryName::ID(2)).unwrap().as_table().unwrap();
    assert_eq!(block.entries(), vec![&ResourceEntryName::ID(1033)]);
}

#[test]
fn resource_string_max_id() {
    let mut resources = ResourceDirectory::default();
    set_resource_string(&mut resources, u32::MAX, "top");
    assert_eq!(get_resource_string(&resources, u32::MAX).as_deref(), Some("top"));
}

#[test]
fn resource_string_blocked_by_data() {
    let mut resources = ResourceDirectory::default();
    resources.root_mut().insert(ResourceEntryName::ID(6), data_entry(vec![0, 0]));
    assert!(!can_set_resource_string(&resources, 1));
    assert_eq!(get_resource_string(&resources, 1), None);
}

#[test]
fn resource_string_invalid_utf16_reads_as_none() {
    let mut resources = ResourceDirectory::default();
    set_resource_string(&mut resources, 0, "x");
    {
        let root = resources.root_mut();
        let string_table = root.get_mut(ResourceEntryName::ID(6)).unwrap().as_table_mut().unwrap();
        let table = string_table.get_mut(ResourceEntryName::ID(1)).unwrap().as_table_mut().unwrap();
        let data = table.get_mut(ResourceEntryName::ID(1033)).unwrap().as_data_mut().unwrap();
        data.set_data(vec![1, 0, 0x00, 0xD8]);
    }
    assert_eq!(get_resource_string(&resources, 0), None);
}

#[test]
fn resource_ids_parse_as_u32() {
    assert_eq!(parse_resource_id("11"), Some(11));
    assert_eq!(parse_resource_id("4294967295"), Some(u32::MAX));
    assert_eq!(parse_resource_id("4294967296"), None);
    assert_eq!(parse_resource_id("eleven"), None);
}

#[test]
fn rcdata_by_number_and_by_name() {
    let mut resources = ResourceDirectory::default();
    assert!(rcdata_name_fits("42") && rcdata_name_fits("LOGO"));
    assert!(can_set_rcdata(&resources, "42"));
    set_rcdata(&mut resources, "42", vec![1, 2, 3]);
    set_rcdata(&mut resources, "LOGO", vec![4]);
    let rcdata = resources.root().get(ResourceEntryName::ID(10)).unwrap().as_table().unwrap();
    let by_id = rcdata.get(ResourceEntryName::ID(42)).unwrap().as_table().unwrap();
    let d = by_id.get(ResourceEntryName::ID(1033)).unwrap().as_data().unwrap();
    assert_eq!(d.data(), &[1, 2, 3]);
    assert_eq!(d.codepage(), 1200);
    let by_name = rcdata.get(ResourceEntryName::from_string("LOGO")).unwrap().as_table().unwrap();
    let d = by_name.get(ResourceEntryName::ID(1033)).unwrap().as_data().unwrap();
    assert_eq!(d.data(), &[4]);
    // storing again replaces the data
    set_rcdata(&mut resources, "42", vec![9]);
    let rcdata = resources.root().get(ResourceEntryName::ID(10)).unwrap().as_table().unwrap();
    let by_id = rcdata.get(ResourceEntryName::ID(42)).unwrap().as_table().unwrap();
    assert_eq!(by_id.get(ResourceEntryName::ID(1033)).unwrap().as_data().unwrap().data(), &[9]);
}

#[test]
fn rcdata_name_limits() {
    let long = "a".repeat(65536);
    assert!(!rcdata_name_fits(&long));
    assert!(rcdata_name_fits(&"a".repeat(65535)));
    let resources = ResourceDirectory::default();
    assert!(!can_set_rcdata(&resources, &long));
    let mut resources = ResourceDirectory::default();
    resources.root_mut().insert(ResourceEntryName::ID(10), data_entry(vec![]));
    assert!(!can_set_rcdata(&resources, "1"));
}

#[test]
fn manifest_execution_level() {
    let mut resources = ResourceDirectory::default();
    set_execution_level(&mut resources, "requireAdministrator").map_err(|_| ()).unwrap();
    let m = resources.get_manifest().unwrap().unwrap();
    assert!(m.contains("<requestedExecutionLevel level=\"requireAdministrator\" uiAccess=\"false\"/>"));
    set_execution_level(&mut resources, "asInvoker").map_err(|_| ()).unwrap();
    let m2 = resources.get_manifest().unwrap().unwrap();
    assert_eq!(m2, m.replace("requireAdministrator", "asInvoker"));
    set_manifest(&mut resources, "<assembly/>").map_err(|_| ()).unwrap();
    assert_eq!(resources.get_manifest().unwrap().unwrap(), "<assembly/>");
}

#[test]
fn version_info_too_large_to_store() {
    let mut resources = ResourceDirectory::default();
    let long = "x".repeat(40000);
    assert!(matches!(
        set_version_string(&mut resources, "Comments", &long),
        Err(EditError::WriteVersionInfo(_))
    ));
    assert!(resources.get_version_info().unwrap().is_none());
}

#[test]
fn manifest_errors() {
    let mut resources = ResourceDirectory::default();
    resources.root_mut().insert(ResourceEntryName::ID(24), data_entry(vec![1]));
    assert!(matches!(
        set_execution_level(&mut resources, "asInvoker"),
        Err(EditError::ReadManifest(_))
    ));
    assert!(matches!(set_manifest(&mut resources, "<assembly/>"), Err(EditError::WriteManifest(_))));
}

#[test]
fn resource_string_keeps_other_resources() {
    let mut resources = ResourceDirectory::default();
    set_rcdata(&mut resources, "7", vec![5, 6]);
    set_manifest(&mut resources, "<assembly/>").map_err(|_| ()).unwrap();
    let before_rcdata = resources.root().get(ResourceEntryName::ID(10)).cloned();
    set_resource_string(&mut resources, 3, "text");
    assert_eq!(resources.root().get(ResourceEntryName::ID(10)).cloned(), before_rcdata);
    assert_eq!(resources.get_manifest().unwrap().unwrap(), "<assembly/>");
    assert_eq!(get_resource_string(&resources, 3).as_deref(), Some("text"));
}

#[test]
fn open_image_rejects_non_images() {
    assert!(editpe_cli::image::open_image(&[0u8; 16]).is_err());
    assert!(editpe_cli::image::open_image(b"MZ not really an image").is_err());
}

#[test]
fn version_and_manifest_writes_keep_other_resources() {
    let mut resources = ResourceDirectory::default();
    set_rcdata(&mut resources, "7", vec![5, 6]);
    set_resource_string(&mut resources, 3, "text");
    let rcdata = resources.root().get(ResourceEntryName::ID(10)).cloned();
    let strings = resources.root().get(ResourceEntryName::ID(6)).cloned();
    assert!(rcdata.is_some() && strings.is_some());
    assert!(can_store_version_info(&resources) && can_store_manifest(&resources));
    set_file_version(&mut resources, "2.5").map_err(|_| ()).unwrap();
    set_version_string(&mut resources, "ProductName", "Demo").map_err(|_| ()).unwrap();
    set_execution_level(&mut resources, "asInvoker").map_err(|_| ()).unwrap();
    assert_eq!(resources.root().get(ResourceEntryName::ID(10)).cloned(), rcdata);
    assert_eq!(resources.root().get(ResourceEntryName::ID(6)).cloned(), strings);
    assert_eq!(version_string(&resources, "ProductName").map_err(|_| ()).unwrap(), "Demo");
    assert_eq!(version_string(&resources, "FileVersion").map_err(|_| ()).unwrap(), "2.5.0.0");
    let m = resources.get_manifest().unwrap().unwrap();
    assert!(m.contains("level=\"asInvoker\""));
}

#[test]
fn full_root_table_refuses_new_types() {
    let mut resources = ResourceDirectory::default();
    for id in 100..(100 + 65534u32) {
        resources.root_mut().insert(ResourceEntryName::ID(id), data_entry(vec![]));
    }
    assert!(can_store_version_info(&resources));
    assert!(can_store_manifest(&resources));
    assert!(can_set_rcdata(&resources, "1"));
    assert!(can_set_resource_string(&resources, 1));
    resources.root_mut().insert(ResourceEntryName::ID(100 + 65534), data_entry(vec![]));
    assert!(!can_store_version_info(&resources));
    assert!(!can_store_manifest(&resources));
    assert!(!can_set_rcdata(&resources, "1"));
    assert!(!can_set_resource_string(&resources, 1));
    // a type that is already there needs no new entry in the root table
    let mut resources = ResourceDirectory::default();
    set_rcdata(&mut resources, "1", vec![1]);
    for id in 100..(100 + 65534u32) {
        resources.root_mut().insert(ResourceEntryName::ID(id), data_entry(vec![]));
    }
    assert!(can_set_rcdata(&resources, "2"));
    set_rcdata(&mut resources, "2", vec![2]);
    assert!(!can_store_manifest(&resources));
}

fn put(buf: &mut [u8], at: usize, bytes: &[u8]) {
    buf[at..at + bytes.len()].copy_from_slice(bytes);
}

/// A small PE32+ image with the given sections (virtual address, virtual
/// size, file offset and size of raw data) and resource entry.
fn pe_image(sections: &[(u32, u32, u32, u32)], resource: (u32, u32)) -> Vec<u8> {
    let mut b = vec![0u8; 0x400];
    put(&mut b, 0, b"MZ");
    put(&mut b, 0x3c, &0x40u32.to_le_bytes());
    put(&mut b, 0x40, b"PE\0\0");
    put(&mut b, 0x44, &0x8664u16.to_le_bytes());
    put(&mut b, 0x46, &(sections.len() as u16).to_le_bytes());
    put(&mut b, 0x54, &240u16.to_le_bytes());
    put(&mut b, 0x58, &0x20bu16.to_le_bytes());
    put(&mut b, 0x78, &0x1000u32.to_le_bytes());
    put(&mut b, 0x7c, &0x200u32.to_le_bytes());
    put(&mut b, 0xc4, &16u32.to_le_bytes());
    put(&mut b, 0xc8 + 16, &resource.0.to_le_bytes());
    put(&mut b, 0xc8 + 20, &resource.1.to_le_bytes());
    for (i, &(va, vsize, ptr, raw)) in sections.iter().enumerate() {
        let at = 0x148 + 40 * i;
        put(&mut b, at, b".sect\0\0\0");
        put(&mut b, at + 8, &vsize.to_le_bytes());
        put(&mut b, at + 12, &va.to_le_bytes());
        put(&mut b, at + 16, &raw.to_le_bytes());
        put(&mut b, at + 20, &ptr.to_le_bytes());
    }
    b
}

#[test]
fn save_resources_rebuilds_image() {
    let bytes = pe_image(&[(0x1000, 0x10, 0x200, 0x200)], (0, 0));
    let (mut img, mut resources) = open_image(&bytes).map_err(|_| ()).unwrap();
    assert!(resources.root().entries().is_empty());
    assert!(can_save_resources(&img));
    set_rcdata(&mut resources, "1", vec![7, 8]);
    save_resources(&mut img, resources.clone()).map_err(|_| ()).unwrap();
    let data = img.data().to_vec();
    let (_, reread) = open_image(&data).map_err(|_| ()).unwrap();
    let rcdata = reread.root().get(ResourceEntryName::ID(10)).unwrap().as_table().unwrap();
    let by_id = rcdata.get(ResourceEntryName::ID(1)).unwrap().as_table().unwrap();
    assert_eq!(by_id.get(ResourceEntryName::ID(1033)).unwrap().as_data().unwrap().data(), &[7, 8]);
}

#[test]
fn resource_section_before_first_section_is_refused() {
    // the resource directory lies in a section without raw data whose file
    // offset comes before the first section with raw data
    let bytes = pe_image(&[(0x1000, 0x10, 0x200, 0x200), (0x2000, 0x100, 0x1a0, 0)], (0x2000, 0x10));
    let (img, resources) = open_image(&bytes).map_err(|_| ()).unwrap();
    assert!(resources.root().entries().is_empty());
    assert!(!can_save_resources(&img));
    let bytes = pe_image(&[(0x1000, 0x10, 0x200, 0x200)], (0x1000, 0x10));
    let (img, _) = open_image(&bytes).map_err(|_| ()).unwrap();
    assert!(can_save_resources(&img));
}

#[test]
fn resource_string_last_write_wins() {
    let mut twice = ResourceDirectory::default();
    set_rcdata(&mut twice, "1", vec![1]);
    let mut once = twice.clone();
    set_resource_string(&mut twice, 5, "first value");
    set_resource_string(&mut twice, 5, "bbb");
    set_resource_string(&mut once, 5, "bbb");
    assert!(twice.root() == once.root());
    let before = once.clone();
    set_resource_string(&mut once, 5, "bbb");
    assert!(before.root() == once.root());
}

#[test]
fn resource_string_writes_commute() {
    let mut ab = ResourceDirectory::default();
    let mut ba = ResourceDirectory::default();
    set_resource_string(&mut ab, 3, "three");
    set_resource_string(&mut ab, 40, "forty");
    set_resource_string(&mut ba, 40, "forty");
    set_resource_string(&mut ba, 3, "three");
    for k in 0..64 {
        assert_eq!(get_resource_string(&ab, k), get_resource_string(&ba, k));
    }
    assert_eq!(get_resource_string(&ab, 40).as_deref(), Some("forty"));
}

#[test]
fn resource_string_block_layout() {
    let mut resources = ResourceDirectory::default();
    set_resource_string(&mut resources, 17, "h\u{e9}");
    let string_table = resources.root().get(ResourceEntryName::ID(6)).unwrap().as_table().unwrap();
    let block = string_table.get(ResourceEntryName::ID(2)).unwrap().as_table().unwrap();
    let data = block.get(ResourceEntryName::ID(1033)).unwrap().as_data().unwrap().data().to_vec();
    let mut expected = vec![0u8, 0];
    expected.extend([2, 0, b'h', 0, 0xe9, 0]);
    expected.extend([0u8; 28]);
    assert_eq!(data.len(), 32 + 2 * 2);
    assert_eq!(data, expected);
}

#[test]
fn manifest_stored_at_the_front() {
    let mut resources = ResourceDirectory::default();
    let mut inner = editpe::ResourceTable::default();
    inner.insert(ResourceEntryName::ID(7), data_entry(vec![9]));
    let mut types = editpe::ResourceTable::default();
    types.insert(ResourceEntryName::ID(5), ResourceEntry::Table(inner));
    resources.root_mut().insert(ResourceEntryName::ID(24), ResourceEntry::Table(types));
    set_manifest(&mut resources, "<assembly/>").map_err(|_| ()).unwrap();
    let types = resources.root().get(ResourceEntryName::ID(24)).unwrap().as_table().unwrap();
    assert_eq!(types.entries(), vec![&ResourceEntryName::ID(1), &ResourceEntryName::ID(5)]);
    let inner = types.get(ResourceEntryName::ID(1)).unwrap().as_table().unwrap();
    assert_eq!(inner.entries(), vec![&ResourceEntryName::ID(1033), &ResourceEntryName::ID(7)]);
    let d = inner.get(ResourceEntryName::ID(1033)).unwrap().as_data().unwrap();
    assert_eq!(d.data(), b"<assembly/>");
    assert_eq!(d.codepage(), 1200);
    assert_eq!(resources.get_manifest().unwrap().unwrap(), "<assembly/>");
}

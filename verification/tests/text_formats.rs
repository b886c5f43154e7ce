use editpe_cli::decimal::parse_unsigned_chars;
use editpe_cli::manifest::set_requested_execution_level;
use editpe_cli::string_table::{block_entry, block_strings, encode_block};
use editpe_cli::utf16::{str_to_utf16, string_from_utf16};
use editpe_cli::version::{format_version, parse_version, VersionU32};

fn chars(s: &str) -> Vec<char> {
    s.chars().collect()
}

#[test]
fn version_with_two_components() {
    let v = parse_version("10.7").unwrap();
    assert_eq!(v, VersionU32 { major: (10 << 16) | 7, minor: 0 });
}

#[test]
fn version_with_three_components() {
    let v = parse_version("1.2.3").unwrap();
    assert_eq!(v, VersionU32 { major: (1 << 16) | 2, minor: 3 << 16 });
}

#[test]
fn version_with_four_components() {
    let v = parse_version("1.2.3.4").unwrap();
    assert_eq!(v, VersionU32 { major: 0x0001_0002, minor: 0x0003_0004 });
}

#[test]
fn version_components_past_the_fourth_are_ignored() {
    let v = parse_version("1.2.3.4.x").unwrap();
    assert_eq!(v, VersionU32 { major: 0x0001_0002, minor: 0x0003_0004 });
}

#[test]
fn version_component_limits() {
    let v = parse_version("65535.0.+7.007").unwrap();
    assert_eq!(v, VersionU32 { major: 0xFFFF_0000, minor: 0x0007_0007 });
    assert_eq!(parse_version("65536").unwrap_err().component, "65536");
}

#[test]
fn version_errors_name_the_first_bad_component() {
    assert_eq!(parse_version("").unwrap_err().component, "");
    assert_eq!(parse_version("1.x.y").unwrap_err().component, "x");
    assert_eq!(parse_version("1..2").unwrap_err().component, "");
    assert_eq!(parse_version("-1").unwrap_err().component, "-1");
    assert_eq!(parse_version("+").unwrap_err().component, "+");
    assert_eq!(parse_version("1. 2").unwrap_err().component, " 2");
}

#[test]
fn version_text_is_four_decimal_components() {
    assert_eq!(format_version(parse_version("10.7").unwrap()), "10.7.0.0");
    assert_eq!(format_version(parse_version("1.2.3").unwrap()), "1.2.3.0");
    assert_eq!(format_version(VersionU32 { major: 0xFFFF_000A, minor: 0x0064_0000 }), "65535.10.100.0");
}

#[test]
fn version_text_reads_back() {
    let v = VersionU32 { major: 0x1234_5678, minor: 0x0000_FFFF };
    assert_eq!(parse_version(&format_version(v)).unwrap(), v);
}

#[test]
fn unsigned_numbers_as_str_parse_reads_them() {
    assert_eq!(parse_unsigned_chars(&chars("4294967295"), u32::MAX), Some(u32::MAX));
    assert_eq!(parse_unsigned_chars(&chars("4294967296"), u32::MAX), None);
    assert_eq!(parse_unsigned_chars(&chars("+12"), u32::MAX), Some(12));
    assert_eq!(parse_unsigned_chars(&chars("0012"), 0xFFFF), Some(12));
    assert_eq!(parse_unsigned_chars(&chars("12a"), u32::MAX), None);
    assert_eq!(parse_unsigned_chars(&chars(""), u32::MAX), None);
    for text in ["0", "9", "65535", "+1", "00", "abc", "", "+", "-0", "1 ", "99999999999"] {
        assert_eq!(
            parse_unsigned_chars(&chars(text), u32::MAX),
            text.parse::<u32>().ok(),
            "{text}"
        );
    }
}

#[test]
fn utf16_round_trip() {
    for s in ["", "hello world", "ü", "日本語", "a😀b"] {
        let units = str_to_utf16(s);
        assert_eq!(units, s.encode_utf16().collect::<Vec<u16>>());
        assert_eq!(string_from_utf16(&units).as_deref(), Some(s));
    }
}

#[test]
fn utf16_unpaired_surrogates_are_rejected() {
    assert_eq!(string_from_utf16(&[0xD800]), None);
    assert_eq!(string_from_utf16(&[0x61, 0xDC00, 0x62]), None);
    assert_eq!(string_from_utf16(&[0xD83D, 0x61]), None);
    assert_eq!(string_from_utf16(&[0xD83D, 0xDE00]).as_deref(), Some("😀"));
}

#[test]
fn string_block_layout() {
    let mut strings: Vec<Vec<u16>> = vec![Vec::new(); 16];
    strings[1] = vec![0x68, 0x69];
    strings[15] = vec![0x41];
    let data = encode_block(&strings);
    let mut expected = vec![0u8, 0, 2, 0, 0x68, 0, 0x69, 0];
    expected.extend(std::iter::repeat(0u8).take(2 * 13));
    expected.extend([1, 0, 0x41, 0]);
    assert_eq!(data, expected);
    assert_eq!(block_entry(&data, 1), Some(vec![0x68, 0x69]));
    assert_eq!(block_entry(&data, 15), Some(vec![0x41]));
    assert_eq!(block_entry(&data, 0), None);
    assert_eq!(block_strings(&data), strings);
}

#[test]
fn string_block_truncated_data() {
    // entry 0 claims three units but only one follows
    let data = vec![3u8, 0, 0x41, 0];
    assert_eq!(block_entry(&data, 0), None);
    assert_eq!(block_entry(&data, 1), None);
    let strings = block_strings(&data);
    assert_eq!(strings.len(), 16);
    assert!(strings.iter().all(|s| s.is_empty()));
    assert_eq!(block_entry(&[], 3), None);
}

const TRUST_INFO: &str = "  <trustInfo xmlns=\"urn:schemas-microsoft-com:asm.v2\">\n    <security>\n      <requestedPrivileges xmlns=\"urn:schemas-microsoft-com:asm.v3\">\n        <requestedExecutionLevel level=\"requireAdministrator\" uiAccess=\"false\"/>\n      </requestedPrivileges>\n    </security>\n  </trustInfo>\n";

#[test]
fn execution_level_updated_in_place() {
    let m = "<assembly><requestedExecutionLevel level='asInvoker' uiAccess='false'/></assembly>";
    assert_eq!(
        set_requested_execution_level(m, "highestAvailable"),
        "<assembly><requestedExecutionLevel level='highestAvailable' uiAccess='false'/></assembly>"
    );
    let m = "<x><requestedExecutionLevel uiAccess=\"false\" level=\"asInvoker\"/></x>";
    assert_eq!(
        set_requested_execution_level(m, "requireAdministrator"),
        "<x><requestedExecutionLevel uiAccess=\"false\" level=\"requireAdministrator\"/></x>"
    );
}

#[test]
fn execution_level_inserted_before_assembly_end() {
    let m = "<assembly>\n</assembly>";
    assert_eq!(
        set_requested_execution_level(m, "requireAdministrator"),
        format!("<assembly>\n{TRUST_INFO}</assembly>")
    );
    // an unquoted level cannot be updated in place
    let m = "<assembly><requestedExecutionLevel level=asInvoker/></assembly>";
    assert_eq!(
        set_requested_execution_level(m, "requireAdministrator"),
        format!("<assembly><requestedExecutionLevel level=asInvoker/>{TRUST_INFO}</assembly>")
    );
}

#[test]
fn execution_level_new_manifest() {
    let expected = format!(
        "<?xml version=\"1.0\" encoding=\"UTF-8\" standalone=\"yes\"?>\n<assembly xmlns=\"urn:schemas-microsoft-com:asm.v1\" manifestVersion=\"1.0\">\n  <assemblyIdentity version=\"1.0.0.0\" name=\"Application\" type=\"win32\"/>\n{TRUST_INFO}</assembly>"
    );
    assert_eq!(set_requested_execution_level("", "requireAdministrator"), expected);
    assert_eq!(set_requested_execution_level("<other/>", "requireAdministrator"), expected);
    // the result is updated in place the next time
    let again = set_requested_execution_level(&expected, "asInvoker");
    assert_eq!(again, expected.replace("requireAdministrator", "asInvoker"));
}

#[test]
fn execution_level_set_twice_is_stable() {
    let manifests = [
        "<assembly><requestedExecutionLevel level='asInvoker' uiAccess='false'/></assembly>",
        "<assembly>\n  <description>app</description>\n</assembly>\n",
        "",
        "<requestedExecutionLevel/>",
    ];
    for m in manifests {
        let once = set_requested_execution_level(m, "highestAvailable");
        let twice = set_requested_execution_level(&once, "highestAvailable");
        assert_eq!(twice, once);
        let element = once.find("requestedExecutionLevel").unwrap();
        let attribute = element + once[element..].find("level=").unwrap() + "level=".len();
        let quote = &once[attribute..attribute + 1];
        assert!(quote == "\"" || quote == "'");
        let value_end = attribute + 1 + "highestAvailable".len();
        assert_eq!(&once[attribute + 1..value_end], "highestAvailable");
        assert_eq!(&once[value_end..value_end + 1], quote);
    }
}

#[test]
fn execution_level_added_to_element_without_attribute() {
    let m = r#"<assembly><requestedExecutionLevel uiAccess="false"/></assembly>"#;
    let r = set_requested_execution_level(m, "asInvoker");
    assert_eq!(
        r,
        r#"<assembly><requestedExecutionLevel level="asInvoker" uiAccess="false"/></assembly>"#
    );
    assert_eq!(r.matches("<requestedExecutionLevel").count(), 1);
    assert_eq!(set_requested_execution_level(&r, "asInvoker"), r);
}

#[test]
fn missing_version_components_count_as_zero() {
    for s in ["7", "7.1", "7.1.2", "0", "65535.2"] {
        let mut longer = s.to_string();
        while longer.split('.').count() < 4 {
            longer.push_str(".0");
            assert_eq!(parse_version(&longer).unwrap(), parse_version(s).unwrap());
        }
    }
}

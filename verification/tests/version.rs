use proton_call::error::Kind;
use proton_call::Version;

#[test]
fn parse_render_roundtrip_examples() {
    for (mj, mn) in [(0u8, 0u8), (6, 3), (7, 0), (255, 255), (10, 42)] {
        let v = Version::new(mj, mn);
        let text = v.to_display();
        assert_eq!(Version::parse(&text).unwrap(), v);
    }
}

#[test]
fn parse_experimental_any_case() {
    assert_eq!(Version::parse("experimental").unwrap(), Version::Experimental);
    assert_eq!(Version::parse("EXPERIMENTAL").unwrap(), Version::Experimental);
    assert_eq!(Version::parse("Experimental").unwrap(), Version::Experimental);
}

#[test]
fn parse_rejects_malformed() {
    for bad in ["abc", "1.2.3", "1"] {
        let e = Version::parse(bad).unwrap_err();
        assert_eq!(e.kind, Kind::VersionParse);
        assert_eq!(e.message, bad);
    }
}

#[test]
fn parse_rejects_out_of_range_and_empty() {
    assert_eq!(Version::parse("256.0").unwrap_err().kind, Kind::VersionParse);
    assert_eq!(Version::parse("7.").unwrap_err().kind, Kind::VersionParse);
    assert_eq!(Version::parse("").unwrap_err().kind, Kind::VersionParse);
}

#[test]
fn parse_accepts_plus_and_leading_zeros() {
    assert_eq!(Version::parse("+7.3").unwrap(), Version::Mainline(7, 3));
    assert_eq!(Version::parse("07.00").unwrap(), Version::Mainline(7, 0));
}

#[test]
fn from_directory_names() {
    assert_eq!(Version::from_custom("Proton 7.0"), Version::Mainline(7, 0));
    assert_eq!(Version::from_custom("Proton Experimental"), Version::Experimental);
    assert_eq!(Version::from_custom("GE-Proton8-1"), Version::Custom);
}

#[test]
fn from_custom_takes_final_path_component() {
    assert_eq!(Version::from_custom("/steam/common/Proton 6.3"), Version::Mainline(6, 3));
    assert_eq!(Version::from_custom("/steam/common/Proton 6.3/"), Version::Mainline(6, 3));
    assert_eq!(Version::from_custom("/"), Version::Custom);
    assert_eq!(Version::from_custom(""), Version::Custom);
    assert_eq!(Version::from_custom("a/.."), Version::Custom);
}

#[test]
fn from_custom_skips_trailing_dot_components() {
    assert_eq!(Version::from_custom("/steam/common/Proton 7.0/."), Version::Mainline(7, 0));
    assert_eq!(Version::from_custom("Proton 7.0/./"), Version::Mainline(7, 0));
    assert_eq!(Version::from_custom("."), Version::Custom);
    assert_eq!(Version::from_custom("./"), Version::Custom);
    assert_eq!(Version::from_custom("/."), Version::Custom);
    assert_eq!(Version::from_custom("Proton 7.0/.."), Version::Custom);
    assert_eq!(Version::from_custom("..."), Version::Custom);
}

#[test]
fn renders_fixed_words() {
    assert_eq!(Version::Mainline(6, 3).to_display(), "6.3");
    assert_eq!(Version::Experimental.to_display(), "Experimental");
    assert_eq!(Version::Custom.to_display(), "Custom");
}

#[test]
fn default_is_six_three() {
    assert_eq!(Version::default(), Version::Mainline(6, 3));
}

#[test]
fn variant_order_is_fixed() {
    assert!(Version::Mainline(6, 3) < Version::Mainline(7, 0));
    assert!(Version::Mainline(255, 255) < Version::Experimental);
    assert!(Version::Experimental < Version::Custom);
}

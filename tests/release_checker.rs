use fresh::release::{
    check_for_update, detect_install_method_from_path, is_newer_version, parse_version_from_json,
    InstallMethod, CURRENT_VERSION,
};

#[test]
fn test_is_newer_version_major() {
    assert!(is_newer_version("0.1.26", "1.0.0"));
    assert!(is_newer_version("1.0.0", "2.0.0"));
}

#[test]
fn test_is_newer_version_minor() {
    assert!(is_newer_version("0.1.26", "0.2.0"));
    assert!(is_newer_version("0.1.26", "0.2.26"));
}

#[test]
fn test_is_newer_version_patch() {
    assert!(is_newer_version("0.1.26", "0.1.27"));
    assert!(is_newer_version("0.1.26", "0.1.100"));
}

#[test]
fn test_is_newer_version_same() {
    assert!(!is_newer_version("0.1.26", "0.1.26"));
}

#[test]
fn test_is_newer_version_older() {
    assert!(!is_newer_version("0.1.26", "0.1.25"));
    assert!(!is_newer_version("0.2.0", "0.1.26"));
    assert!(!is_newer_version("1.0.0", "0.1.26"));
}

#[test]
fn test_is_newer_version_with_v_prefix() {
    assert!(is_newer_version("0.1.26", "0.1.27"));
}

#[test]
fn test_is_newer_version_with_prerelease() {
    assert!(is_newer_version("0.1.26-alpha", "0.1.27"));
    assert!(is_newer_version("0.1.26", "0.1.27-beta"));
}

#[test]
fn test_detect_install_method_homebrew_macos() {
    let path = "/opt/homebrew/Cellar/fresh/0.1.26/bin/fresh";
    assert_eq!(
        detect_install_method_from_path(path, false),
        InstallMethod::Homebrew
    );
}

#[test]
fn test_detect_install_method_homebrew_intel_mac() {
    let path = "/usr/local/Cellar/fresh/0.1.26/bin/fresh";
    assert_eq!(
        detect_install_method_from_path(path, false),
        InstallMethod::Homebrew
    );
}

#[test]
fn test_detect_install_method_homebrew_linux() {
    let path = "/home/linuxbrew/.linuxbrew/bin/fresh";
    assert_eq!(
        detect_install_method_from_path(path, false),
        InstallMethod::Homebrew
    );
}

#[test]
fn test_detect_install_method_cargo() {
    let path = "/home/user/.cargo/bin/fresh";
    assert_eq!(detect_install_method_from_path(path, false), InstallMethod::Cargo);
}

#[test]
fn test_detect_install_method_cargo_windows() {
    let path = "C:\\Users\\user\\.cargo\\bin\\fresh.exe";
    assert_eq!(detect_install_method_from_path(path, false), InstallMethod::Cargo);
}

#[test]
fn test_detect_install_method_npm() {
    let path = "/usr/local/lib/node_modules/fresh-editor/bin/fresh";
    assert_eq!(detect_install_method_from_path(path, false), InstallMethod::Npm);
}

#[test]
fn test_detect_install_method_package_manager() {
    let path = "/usr/local/bin/fresh";
    assert_eq!(
        detect_install_method_from_path(path, false),
        InstallMethod::PackageManager
    );
}

#[test]
fn test_detect_install_method_unknown() {
    let path = "/home/user/downloads/fresh";
    assert_eq!(
        detect_install_method_from_path(path, false),
        InstallMethod::Unknown
    );
}

#[test]
fn test_parse_version_from_json() {
    let json = r#"{"tag_name": "v0.1.27", "name": "Release 0.1.27"}"#;
    assert_eq!(parse_version_from_json(json).unwrap(), "0.1.27");
}

#[test]
fn test_parse_version_from_json_no_v_prefix() {
    let json = r#"{"tag_name": "0.1.27", "name": "Release 0.1.27"}"#;
    assert_eq!(parse_version_from_json(json).unwrap(), "0.1.27");
}

#[test]
fn test_parse_version_from_json_full_response() {
    let json = r#"{
            "url": "https://api.github.com/repos/sinelaw/fresh/releases/12345",
            "tag_name": "v0.2.0",
            "target_commitish": "main",
            "name": "v0.2.0",
            "draft": false,
            "prerelease": false
        }"#;
    assert_eq!(parse_version_from_json(json).unwrap(), "0.2.0");
}

#[test]
fn test_update_commands() {
    assert_eq!(
        InstallMethod::Homebrew.update_command(),
        Some("brew upgrade fresh")
    );
    assert_eq!(
        InstallMethod::Cargo.update_command(),
        Some("cargo install fresh-editor")
    );
    assert_eq!(
        InstallMethod::Npm.update_command(),
        Some("npm update -g fresh-editor")
    );
    assert!(InstallMethod::Unknown.update_command().is_none());
}

#[test]
fn test_current_version_is_valid() {
    let parts: Vec<&str> = CURRENT_VERSION.split('.').collect();
    assert!(parts.len() >= 2, "Version should have at least major.minor");
    assert!(
        parts[0].parse::<u32>().is_ok(),
        "Major version should be a number"
    );
    assert!(
        parts[1].parse::<u32>().is_ok(),
        "Minor version should be a number"
    );
}

#[test]
fn test_version_parsing_with_mock_data() {
    let json = r#"{"tag_name": "v99.0.0"}"#;
    let version = parse_version_from_json(json).unwrap();
    assert!(is_newer_version(CURRENT_VERSION, &version));
}

#[test]
fn detect_arch_linux_usr_bin_is_aur() {
    assert_eq!(detect_install_method_from_path("/usr/bin/fresh", true), InstallMethod::Aur);
    assert_eq!(
        detect_install_method_from_path("/usr/bin/fresh", false),
        InstallMethod::PackageManager
    );
}

#[test]
fn update_commands_of_aur_and_package_manager() {
    assert_eq!(
        InstallMethod::Aur.update_command(),
        Some("yay -Syu fresh-editor  # or use your AUR helper")
    );
    assert_eq!(
        InstallMethod::PackageManager.update_command(),
        Some("Update using your system package manager")
    );
}

#[test]
fn versions_that_do_not_parse_are_never_newer() {
    assert!(!is_newer_version("0.1.26", "latest"));
    assert!(!is_newer_version("garbage", "1.0.0"));
    assert!(!is_newer_version("0.1.26", "1"));
    assert!(!is_newer_version("0.1.26", "0.1.x"));
    assert!(is_newer_version("0.1", "0.1.1"));
    assert!(is_newer_version("0.1.26", "+0.2.0"));
    assert!(!is_newer_version("0.1.26", "0.1.4294967296"));
}

#[test]
fn parse_version_errors_name_what_is_missing() {
    assert_eq!(
        parse_version_from_json(r#"{"name": "x"}"#).unwrap_err(),
        "tag_name not found in response"
    );
    assert_eq!(
        parse_version_from_json(r#"{"tag_name": 5}"#).unwrap_err(),
        "Invalid JSON: missing quote after tag_name"
    );
    assert_eq!(
        parse_version_from_json(r#"{"tag_name": "v1.2"#).unwrap_err(),
        "Invalid JSON: unclosed quote"
    );
}

#[test]
fn check_for_update_reports_latest_and_method() {
    let r = check_for_update(r#"{"tag_name": "v99.1.0"}"#, InstallMethod::Cargo).unwrap();
    assert_eq!(r.latest_version, "99.1.0");
    assert!(r.update_available);
    assert_eq!(r.install_method, InstallMethod::Cargo);

    let r = check_for_update(r#"{"tag_name": "v0.0.1"}"#, InstallMethod::Npm).unwrap();
    assert_eq!(r.latest_version, "0.0.1");
    assert!(!r.update_available);

    let e = check_for_update("{}", InstallMethod::Unknown).unwrap_err();
    assert_eq!(e, "tag_name not found in response");
}

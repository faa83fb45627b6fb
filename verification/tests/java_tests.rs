use grind::java::{
    advance_download, archive_name, get_java_version, get_jdk_detail_url, has_path_marker,
    java_version_from, jdk_bin, jdk_home, link_text, map_arch, map_os, path_block, run_jdk_checks,
    trim_leading, without_path_block,
};

#[test]
fn machines_are_named_as_the_service_names_them() {
    assert_eq!(map_os("macos"), "mac");
    assert_eq!(map_os("linux"), "linux");
    assert_eq!(map_arch("x86_64"), "x64");
    assert_eq!(map_arch("x86"), "x32");
    assert_eq!(map_arch("aarch64"), "aarch64");
}

#[test]
fn the_address_of_a_toolchain_names_version_and_machine() {
    assert_eq!(
        get_jdk_detail_url("v21", "macos", "x86_64"),
        "https://api.adoptium.net/v3/assets/latest/21/hotspot?architecture=x64&image_type=jdk&os=mac&vendor=eclipse"
    );
    assert_eq!(trim_leading("vv1v", 'v'), "1v");
    assert_eq!(trim_leading("", 'v'), "");
    assert_eq!(trim_leading("vvv", 'v'), "");
}

#[test]
fn links_lose_their_quotation_marks() {
    assert_eq!(link_text("\"https://x/y.tar.gz\""), "https://x/y.tar.gz");
    assert_eq!(archive_name("https://x/y/z.tar.gz"), "z.tar.gz");
    assert_eq!(archive_name("plain"), "plain");
    assert_eq!(archive_name("dir/"), "");
}

#[test]
fn toolchains_live_below_the_home_directory() {
    assert_eq!(jdk_home("21"), "~/.grind/jdks/v21");
    assert_eq!(jdk_bin("21"), "~/.grind/jdks/v21/bin");
}

#[test]
fn the_shell_profile_is_cut_at_the_marker() {
    let profile = format!("export A=1\n{}", path_block());
    assert!(has_path_marker(&profile));
    assert!(!has_path_marker("export A=1\n"));
    assert_eq!(without_path_block(&profile), "export A=1\n\n");
    assert_eq!(without_path_block("export A=1\n"), "export A=1\n");
    assert_eq!(without_path_block(""), "");
    assert_eq!(
        path_block(),
        "\n# GRIND-JDK-PATH\nexport PATH=\"$HOME/.grind/jdks/current:$PATH\"\n# GRIND-JDK-PATH\n        "
    );
}

#[test]
fn a_managed_toolchain_needs_all_three() {
    assert!(run_jdk_checks(true, true, true));
    assert!(!run_jdk_checks(false, true, true));
    assert!(!run_jdk_checks(true, false, true));
    assert!(!run_jdk_checks(true, true, false));
}

#[test]
fn a_download_never_exceeds_its_total() {
    assert_eq!(advance_download(0, 10, 100), 10);
    assert_eq!(advance_download(95, 10, 100), 100);
    assert_eq!(advance_download(u64::MAX - 1, 10, u64::MAX), u64::MAX);
    assert_eq!(advance_download(200, 1, 100), 100);
}

#[test]
fn the_version_is_read_from_what_the_toolchain_prints() {
    let printed = "openjdk 21.0.2 2024-01-16\nOpenJDK Runtime Environment";
    assert_eq!(get_java_version(printed), Ok("21.0.2 2024-01-16".to_string()));
    assert_eq!(
        get_java_version("java: command not found"),
        Err("Could not determine Java version.".to_string())
    );
    assert_eq!(java_version_from(Ok(Some("1.2.3".to_string()))), Ok("1.2.3".to_string()));
    assert_eq!(java_version_from(Err("bad".to_string())), Err("bad".to_string()));
}

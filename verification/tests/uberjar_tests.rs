use grind::uberjar::{
    build_fat_jar, generate_manifest, has_jar_extension, is_mergeable, is_signature_file,
    is_signature_name_upper, merge_resource, ArchiveEntry, FatJarConfig,
};

fn config<'a>() -> FatJarConfig<'a> {
    FatJarConfig {
        output_jar: "build/app.jar",
        classes_dir: "target",
        libs_dir: "libs",
        main_class: "com.example.App",
        group_id: "com.example",
        artifact_id: "App",
    }
}

fn entry(name: &str, data: &[u8]) -> ArchiveEntry {
    ArchiveEntry { name: name.to_string(), is_dir: false, data: data.to_vec() }
}

fn find<'a>(entries: &'a [(String, Vec<u8>)], name: &str) -> Vec<&'a Vec<u8>> {
    entries.iter().filter(|e| e.0 == name).map(|e| &e.1).collect()
}

#[test]
fn the_manifest_names_the_main_class() {
    let text = generate_manifest(&config(), "/opt/jdk");
    assert_eq!(
        text,
        "Manifest-Version: 1.0\nMain-Class: com.example.App\nImplementation-Title: App\n\
         Implementation-Vendor-Id: com.example\nBuilt-By: grind\nBuild-Jdk: /opt/jdk\n\
         Implementation-Version: 1.0.0\n\n"
    );
}

#[test]
fn signature_files_are_recognised_whatever_their_case() {
    assert!(is_signature_file("META-INF/FOO.SF"));
    assert!(is_signature_file("META-INF/foo.rsa"));
    assert!(is_signature_file("meta-inf/sub/x.Dsa"));
    assert!(!is_signature_file("META-INF/FOO.MF"));
    assert!(!is_signature_file("other/FOO.SF"));
    assert!(!is_signature_file("META-INF"));
    assert!(is_signature_name_upper("META-INF/A.SF"));
    assert!(!is_signature_name_upper("META-INF/a.sf"));
}

#[test]
fn service_and_discovery_files_are_mergeable() {
    assert!(is_mergeable("META-INF/services/foo"));
    assert!(is_mergeable("META-INF/services/"));
    assert!(is_mergeable("META-INF/spring.factories"));
    assert!(is_mergeable("META-INF/spring/x.imports"));
    assert!(!is_mergeable("META-INF/spring.factories.bak"));
    assert!(!is_mergeable("META-INF/spring"));
    assert!(!is_mergeable("meta-inf/services/foo"));
    assert!(!is_mergeable("com/example/A.class"));
}

#[test]
fn archives_are_known_by_their_extension() {
    assert!(has_jar_extension("a.jar"));
    assert!(has_jar_extension("org.example_core_1.2.3.jar"));
    assert!(!has_jar_extension(".jar"));
    assert!(!has_jar_extension("a.jar.txt"));
    assert!(!has_jar_extension("ajar"));
}

#[test]
fn contributions_are_joined_with_a_line_break_between_them() {
    let mut merged: Vec<(String, Vec<u8>)> = Vec::new();
    merge_resource(&mut merged, "n", &b"a".to_vec());
    assert_eq!(merged, vec![("n".to_string(), b"a".to_vec())]);
    merge_resource(&mut merged, "n", &b"b\n".to_vec());
    assert_eq!(merged, vec![("n".to_string(), b"a\nb\n".to_vec())]);
    merge_resource(&mut merged, "n", &b"c".to_vec());
    assert_eq!(merged, vec![("n".to_string(), b"a\nb\nc".to_vec())]);
    merge_resource(&mut merged, "other", &Vec::new());
    merge_resource(&mut merged, "other", &b"x".to_vec());
    assert_eq!(merged[1], ("other".to_string(), b"\nx".to_vec()));
    assert_eq!(merged.len(), 2);
}

#[test]
fn two_libraries_with_the_same_service_file_are_merged() {
    let first = vec![
        entry("META-INF/MANIFEST.MF", b"Manifest-Version: 1.0\n"),
        entry("META-INF/services/foo", b"com.a.Impl"),
        entry("META-INF/A.SF", b"sig"),
        entry("META-INF/A.RSA", b"sig"),
        entry("com/a/Impl.class", b"first"),
        ArchiveEntry { name: "com/".to_string(), is_dir: true, data: Vec::new() },
    ];
    let second = vec![
        entry("META-INF/services/foo", b"com.b.Impl"),
        entry("META-INF/b.dsa", b"sig"),
        entry("com/a/Impl.class", b"second"),
        entry("com/b/Impl.class", b"b"),
    ];
    let classes = vec![
        ("com\\example\\App.class".to_string(), b"app".to_vec()),
        ("com/b/Impl.class".to_string(), b"mine".to_vec()),
    ];
    let built = build_fat_jar(&config(), "unknown", &classes, &vec![first, second]);
    let names: Vec<&str> = built.entries.iter().map(|e| e.0.as_str()).collect();
    assert_eq!(
        names,
        vec![
            "META-INF/MANIFEST.MF",
            "com/example/App.class",
            "com/b/Impl.class",
            "com/a/Impl.class",
            "META-INF/services/foo",
        ]
    );
    assert_eq!(built.file_count, 2);
    assert_eq!(
        find(&built.entries, "META-INF/services/foo"),
        vec![&b"com.a.Impl\ncom.b.Impl".to_vec()]
    );
    assert_eq!(find(&built.entries, "com/a/Impl.class"), vec![&b"first".to_vec()]);
    assert_eq!(find(&built.entries, "com/b/Impl.class"), vec![&b"mine".to_vec()]);
    let manifest = String::from_utf8(built.entries[0].1.clone()).unwrap();
    assert!(manifest.contains("Main-Class: com.example.App\n"));
    assert!(built
        .entries
        .iter()
        .all(|e| !(e.0.ends_with(".SF") || e.0.ends_with(".RSA") || e.0.ends_with(".dsa"))));
}

#[test]
fn a_file_of_the_project_wins_over_merged_contents() {
    let classes = vec![("META-INF/services/foo".to_string(), b"own".to_vec())];
    let library = vec![entry("META-INF/services/foo", b"theirs")];
    let built = build_fat_jar(&config(), "unknown", &classes, &vec![library]);
    assert_eq!(find(&built.entries, "META-INF/services/foo"), vec![&b"own".to_vec()]);
    assert_eq!(built.entries.len(), 2);
}

#[test]
fn an_archive_of_nothing_holds_its_manifest() {
    let built = build_fat_jar(&config(), "unknown", &Vec::new(), &Vec::new());
    assert_eq!(built.entries.len(), 1);
    assert_eq!(built.entries[0].0, "META-INF/MANIFEST.MF");
    assert_eq!(built.file_count, 0);
}

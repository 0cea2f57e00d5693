use aoit::bundle::{
    bundle_file_name, digest_file_name, install_plan, make_packages_map, manifest_file_name,
    map_get, select_artifact, target_dir_name,
};
use aoit::depends::AptDepends;
use aoit::digest::{check_digest, compute_digest};
use aoit::manifest::{decode_manifest, encode_manifest, SerdeConfig};

fn vim_config() -> SerdeConfig {
    SerdeConfig {
        apt_depends: AptDepends::new(
            "vim",
            vec![AptDepends::new("vim-common", Vec::new())],
        ),
        packages_vec: vec!["vim".to_string(), "vim-common".to_string()],
        packages_map: vec![
            ("vim".to_string(), "vim_8.2.deb".to_string()),
            ("vim-common".to_string(), "vim-common_8.2.deb".to_string()),
        ],
    }
}

#[test]
fn manifest_round_trip_reproduces_order_and_map() {
    let cfg = vim_config();
    let text = encode_manifest(&cfg);
    let back = decode_manifest(text.as_str()).expect("well-formed manifest");
    assert_eq!(back.packages_vec, cfg.packages_vec);
    assert_eq!(back.packages_map, cfg.packages_map);
}

#[test]
fn manifest_round_trip_empty() {
    let cfg = SerdeConfig {
        apt_depends: AptDepends::new("", Vec::new()),
        packages_vec: Vec::new(),
        packages_map: Vec::new(),
    };
    let text = encode_manifest(&cfg);
    assert_eq!(text, "");
    let back = decode_manifest(text.as_str()).expect("empty manifest decodes");
    assert!(back.packages_vec.is_empty());
    assert!(back.packages_map.is_empty());
}

#[test]
fn manifest_decode_rejects_malformed_text() {
    assert!(decode_manifest("o vim").is_none());
    assert!(decode_manifest("x vim\n").is_none());
    assert!(decode_manifest("m noartifactname\n").is_none());
    assert!(decode_manifest("o vim\ngarbage\n").is_none());
}

#[test]
fn manifest_decode_accepts_encoded_lines() {
    let cfg = decode_manifest("o vim\nm vim vim_8.2.deb\n").expect("decodes");
    assert_eq!(cfg.packages_vec, vec!["vim".to_string()]);
    assert_eq!(
        cfg.packages_map,
        vec![("vim".to_string(), "vim_8.2.deb".to_string())]
    );
    assert_eq!(cfg.apt_depends.name, "vim");
}

#[test]
fn file_names_follow_the_bundle_scheme() {
    let bundle = bundle_file_name("vim");
    assert_eq!(bundle, "vim.aoit");
    assert_eq!(digest_file_name(bundle.as_str()), "vim.aoit.sha256");
    assert_eq!(manifest_file_name(), "config");
}

#[test]
fn target_dir_strips_the_extension() {
    assert_eq!(target_dir_name("vim.aoit"), Some("vim".to_string()));
    assert_eq!(target_dir_name("a.b.c"), Some("a".to_string()));
    assert_eq!(target_dir_name("noextension"), None);
}

#[test]
fn artifact_selection_matches_prefix_and_extension() {
    let files = vec![
        "vim-common_8.2_amd64.deb".to_string(),
        "vim_8.2_amd64.deb".to_string(),
        "vim.txt".to_string(),
    ];
    assert_eq!(
        select_artifact("vim", &files),
        Some("vim-common_8.2_amd64.deb".to_string())
    );
    assert_eq!(
        select_artifact("vim-common", &files),
        Some("vim-common_8.2_amd64.deb".to_string())
    );
    assert_eq!(select_artifact("emacs", &files), None);
    assert_eq!(select_artifact("vim.txt", &files), None);
}

#[test]
fn packages_map_skips_missing_artifacts() {
    let names = vec!["a".to_string(), "b".to_string(), "c".to_string()];
    let arts = vec![
        Some("a_1.deb".to_string()),
        None,
        Some("c_1.deb".to_string()),
    ];
    let map = make_packages_map(&names, &arts);
    assert_eq!(
        map,
        vec![
            ("a".to_string(), "a_1.deb".to_string()),
            ("c".to_string(), "c_1.deb".to_string()),
        ]
    );
    assert_eq!(map_get(&map, "a"), Some(&"a_1.deb".to_string()));
    assert_eq!(map_get(&map, "b"), None);
}

#[test]
fn install_plan_reverses_the_order() {
    let cfg = vim_config();
    let plan = install_plan(&cfg);
    assert_eq!(
        plan,
        vec![
            (
                "vim-common".to_string(),
                Some("vim-common_8.2.deb".to_string())
            ),
            ("vim".to_string(), Some("vim_8.2.deb".to_string())),
        ]
    );
}

#[test]
fn install_plan_warns_on_missing_map_entry() {
    let cfg = SerdeConfig {
        apt_depends: AptDepends::new("a", Vec::new()),
        packages_vec: vec!["a".to_string(), "b".to_string()],
        packages_map: vec![("a".to_string(), "a_1.deb".to_string())],
    };
    let plan = install_plan(&cfg);
    assert_eq!(
        plan,
        vec![
            ("b".to_string(), None),
            ("a".to_string(), Some("a_1.deb".to_string())),
        ]
    );
}

#[test]
fn digest_of_known_bytes() {
    let empty: Vec<u8> = Vec::new();
    assert_eq!(
        compute_digest(&empty),
        "e3b0c44298fc1c149afbf4c8996fb92427ae41e4649b934ca495991b7852b855"
    );
    let abc: Vec<u8> = b"abc".to_vec();
    assert_eq!(
        compute_digest(&abc),
        "ba7816bf8f01cfea414140de5dae2223b00361a396177a9cb410ff61f20015ad"
    );
}

#[test]
fn digest_round_trips_on_identical_bytes() {
    let bytes: Vec<u8> = b"bundle contents".to_vec();
    let stored = compute_digest(&bytes);
    assert!(check_digest(&bytes, stored.as_str()));
    // incidental whitespace around the stored text is tolerated
    let padded = format!("{}\n", stored);
    assert!(check_digest(&bytes, padded.as_str()));
}

#[test]
fn flipping_any_byte_fails_the_digest_check() {
    let bytes: Vec<u8> = b"bundle contents".to_vec();
    let stored = compute_digest(&bytes);
    for i in 0..bytes.len() {
        let mut tampered = bytes.clone();
        tampered[i] ^= 1;
        assert!(!check_digest(&tampered, stored.as_str()));
    }
}

#[test]
fn wrong_stored_digest_is_rejected() {
    let bytes: Vec<u8> = b"bundle contents".to_vec();
    let wrong = "0000000000000000000000000000000000000000000000000000000000000000";
    assert!(!check_digest(&bytes, wrong));
}

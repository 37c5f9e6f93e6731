use niks3::nix_store::NixPathInfo;
use niks3::nix_store::StorePathError;
use niks3::nix_store::final_component;
use niks3::nix_store::get_store_path_hash;
use niks3::nix_store::path_info_arguments;
use niks3::nix_store::with_paths;

fn info(path: &str) -> NixPathInfo {
    NixPathInfo {
        path: path.to_string(),
        nar_hash: "sha256:abc".to_string(),
        nar_size: 7,
        references: vec!["/nix/store/aaa-dep".to_string()],
        deriver: Some("/nix/store/ddd-x.drv".to_string()),
        signatures: Some(vec!["key:sig".to_string()]),
        ca: None,
    }
}

#[test]
fn test_store_path_hash() {
    let hash = get_store_path_hash("/nix/store/abc123def456-hello-world-1.0").unwrap();
    assert_eq!(hash, "abc123def456");
}

#[test]
fn store_path_hash_without_dash_is_the_whole_name() {
    assert_eq!(get_store_path_hash("/nix/store/abc").unwrap(), "abc");
    assert_eq!(get_store_path_hash("abc-def").unwrap(), "abc");
    assert_eq!(get_store_path_hash("-name").unwrap(), "");
}

#[test]
fn store_path_hash_ignores_trailing_separators_and_dots() {
    assert_eq!(get_store_path_hash("/nix/store/abc-x/").unwrap(), "abc");
    assert_eq!(get_store_path_hash("/nix/store/abc-x//").unwrap(), "abc");
    assert_eq!(get_store_path_hash("/nix/store/abc-x/.").unwrap(), "abc");
    assert_eq!(get_store_path_hash("/nix/store/abc-x/./").unwrap(), "abc");
}

#[test]
fn store_path_hash_refuses_paths_without_a_name() {
    assert_eq!(get_store_path_hash(""), Err(StorePathError::InvalidStorePath));
    assert_eq!(get_store_path_hash("/"), Err(StorePathError::InvalidStorePath));
    assert_eq!(get_store_path_hash("."), Err(StorePathError::InvalidStorePath));
    assert_eq!(get_store_path_hash("./"), Err(StorePathError::InvalidStorePath));
    assert_eq!(get_store_path_hash(".."), Err(StorePathError::InvalidStorePath));
    assert_eq!(get_store_path_hash("/nix/store/abc-x/.."), Err(StorePathError::InvalidStorePath));
}

#[test]
fn final_component_agrees_with_std() {
    let paths = [
        "", "/", "//", ".", "./", "./.", "..", "a", "a/", "a/.", "a/..", "a/../", "/a/b", "a//b//",
        "./a", "..a", "a/...", "/nix/store/abc-x", ".hidden", "a/./b", "/.", "é/ü-ñ",
    ];
    for path in paths {
        let expected = std::path::Path::new(path).file_name().and_then(|n| n.to_str());
        assert_eq!(final_component(path), expected, "{:?}", path);
    }
}

#[test]
fn path_info_arguments_ask_for_the_closure_as_json() {
    let paths = vec!["/nix/store/a-x".to_string(), "/nix/store/b-y".to_string()];
    assert_eq!(
        path_info_arguments(&paths),
        vec![
            "--extra-experimental-features",
            "nix-command",
            "path-info",
            "--recursive",
            "--json",
            "/nix/store/a-x",
            "/nix/store/b-y",
        ]
    );
    assert_eq!(path_info_arguments(&Vec::new()).len(), 5);
}

#[test]
fn with_paths_tells_each_record_its_path() {
    let records = vec![
        ("/nix/store/a-x".to_string(), info("")),
        ("/nix/store/b-y".to_string(), info("elsewhere")),
    ];
    let infos = with_paths(records);
    assert_eq!(infos.len(), 2);
    assert_eq!(infos[0].path, "/nix/store/a-x");
    assert_eq!(infos[1].path, "/nix/store/b-y");
    assert_eq!(infos[1].nar_hash, "sha256:abc");
    assert_eq!(infos[1].nar_size, 7);
    assert_eq!(infos[1].references, vec!["/nix/store/aaa-dep"]);
    assert_eq!(infos[1].deriver.as_deref(), Some("/nix/store/ddd-x.drv"));
    assert_eq!(infos[1].signatures, Some(vec!["key:sig".to_string()]));
    assert_eq!(infos[1].ca, None);
}

#[test]
fn duplicate_keeps_every_field() {
    let first = info("/nix/store/a-x");
    let copy = first.duplicate();
    assert_eq!(copy.path, first.path);
    assert_eq!(copy.nar_hash, first.nar_hash);
    assert_eq!(copy.nar_size, first.nar_size);
    assert_eq!(copy.references, first.references);
    assert_eq!(copy.deriver, first.deriver);
    assert_eq!(copy.signatures, first.signatures);
    assert_eq!(copy.ca, first.ca);
}

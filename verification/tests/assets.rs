use firecracker_sdk::assets::AwsS3;
use firecracker_sdk::assets::FetchPlan;
use firecracker_sdk::assets::FileManager;
use firecracker_sdk::assets::S3Item;
use firecracker_sdk::assets::basename;
use firecracker_sdk::assets::default_prefix;
use firecracker_sdk::assets::extract_keys;
use firecracker_sdk::assets::path_join;
use firecracker_sdk::assets::resolve_action;
use firecracker_sdk::assets::resolve_override;
use firecracker_sdk::assets::select_latest;
use firecracker_sdk::errors::AssetError;

#[test]
fn empty_listing_fails_with_no_version_found_and_no_download() {
    let keys: Vec<Vec<u8>> = Vec::new();
    assert_eq!(select_latest(&keys).unwrap_err(), AssetError::NoVersionFound);
    assert_eq!(resolve_action(&keys, false).unwrap_err(), AssetError::NoVersionFound);
    assert_eq!(resolve_action(&keys, true).unwrap_err(), AssetError::NoVersionFound);
}

#[test]
fn present_target_file_skips_the_transfer() {
    let keys = vec![b"pre/vmlinux-5.10.100".to_vec(), b"pre/vmlinux-5.10.200".to_vec()];
    let plan = resolve_action(&keys, true).unwrap();
    assert!(matches!(plan, FetchPlan::UseExisting));
}

#[test]
fn absent_target_downloads_the_newest_version() {
    let keys = vec![
        b"pre/vmlinux-5.10.198".to_vec(),
        b"pre/vmlinux-5.10.225".to_vec(),
        b"pre/vmlinux-5.10.204".to_vec(),
    ];
    match resolve_action(&keys, false).unwrap() {
        FetchPlan::Download { key } => assert_eq!(key, b"pre/vmlinux-5.10.225".to_vec()),
        FetchPlan::UseExisting => panic!("expected a download"),
    }
}

#[test]
fn select_latest_picks_lexicographic_maximum() {
    let keys = vec![b"abc".to_vec(), b"abd".to_vec(), b"ab".to_vec()];
    assert_eq!(select_latest(&keys).unwrap(), b"abd".to_vec());
}

#[test]
fn extract_keys_reads_listing_elements_in_order() {
    let xml = b"<R><Contents><Key>pre/a-1</Key></Contents><Contents><Key>pre/a-2</Key></Contents><Contents><Key>other/b</Key></Contents></R>";
    let keys = extract_keys(xml, b"pre/");
    assert_eq!(keys, vec![b"pre/a-1".to_vec(), b"pre/a-2".to_vec()]);
}

#[test]
fn extract_keys_on_listing_without_elements_is_empty() {
    let keys = extract_keys(b"<R></R>", b"pre/");
    assert_eq!(keys, Vec::<Vec<u8>>::new());
}

#[test]
fn basename_takes_the_piece_after_the_last_slash() {
    assert_eq!(basename(b"firecracker-ci/v1.10/x86_64/vmlinux-5.10.225"), b"vmlinux-5.10.225".to_vec());
    assert_eq!(basename(b"plain"), b"plain".to_vec());
}

#[test]
fn store_urls_are_assembled_from_the_prefix() {
    let s3 = AwsS3::new("firecracker-ci/v1.10/x86_64/vmlinux-5.10");
    assert_eq!(
        s3.xml_url(),
        "http://spec.ccfc.min.s3.amazonaws.com/?prefix=firecracker-ci/v1.10/x86_64/vmlinux-5.10&list-type=2"
    );
    assert_eq!(
        s3.download_url("firecracker-ci/v1.10/x86_64/vmlinux-5.10.225"),
        "https://s3.amazonaws.com/spec.ccfc.min/firecracker-ci/v1.10/x86_64/vmlinux-5.10.225"
    );
}

#[test]
fn default_prefixes_name_the_known_assets() {
    assert_eq!(default_prefix(&S3Item::Kernel), "firecracker-ci/v1.10/x86_64/vmlinux-5.10");
    assert_eq!(default_prefix(&S3Item::Rootfs), "firecracker-ci/v1.10/x86_64/ubuntu-22.04.ext4");
}

#[test]
fn path_join_inserts_a_separator_only_when_needed() {
    assert_eq!(path_join("/tmp/kernels", "vmlinux.bin"), "/tmp/kernels/vmlinux.bin");
    assert_eq!(path_join("/tmp/kernels/", "vmlinux.bin"), "/tmp/kernels/vmlinux.bin");
}

#[test]
fn file_manager_names_the_image_targets() {
    let fm = FileManager::new("/var/kernel".to_string(), "/var/rootfs".to_string());
    assert_eq!(fm.kernel_target(), "/var/kernel/vmlinux.bin");
    assert_eq!(fm.rootfs_target(), "/var/rootfs/vmrootfs.ext4");
}

#[test]
fn override_resolution_has_explicit_precedence() {
    assert_eq!(
        resolve_override(Some("a".to_string()), Some("b".to_string()), "c".to_string()),
        "a"
    );
    assert_eq!(resolve_override(None, Some("b".to_string()), "c".to_string()), "b");
    assert_eq!(resolve_override(None, None, "c".to_string()), "c");
}

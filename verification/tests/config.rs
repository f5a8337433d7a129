use firecracker_sdk::config::FirecrackerStartup;

#[test]
fn startup_builder_accumulates_options() {
    let s = FirecrackerStartup::new("/tmp/fc.socket".to_string(), "/tmp/vsock.socket".to_string());
    assert_eq!(s.get_api_socket(), "/tmp/fc.socket");
    assert!(!s.current_stdout());
    let s = s
        .set_api_socket("/tmp/test.socket".to_string())
        .stdout(true)
        .vsocket("/tmp/v2.socket".to_string())
        .download_kernel(true)
        .download_rootfs(true);
    assert_eq!(s.get_api_socket(), "/tmp/test.socket");
    assert!(s.current_stdout());
    assert!(s.download_kernel);
    assert!(s.download_rootfs);
    assert_eq!(s.vsock, "/tmp/v2.socket");
}

#[test]
fn built_configuration_holds_resolved_paths_and_root_drive() {
    let s = FirecrackerStartup::new("/tmp/fc.socket".to_string(), "/tmp/vsock.socket".to_string());
    let c = s.build_configuration("/var/k/vmlinux.bin".to_string(), "/var/r/vmrootfs.ext4".to_string());
    assert_eq!(c.kernel_image_path(), "/var/k/vmlinux.bin");
    assert_eq!(c.drive_path(), "/var/r/vmrootfs.ext4");
    assert_eq!(c.drives.drive_id, "rootfs");
    assert!(c.drives.is_root_device);
    assert!(!c.drives.is_read_only);
    let v = c.vsock.as_ref().unwrap();
    assert_eq!(v.vsock_id, "vsock0");
    assert_eq!(v.guest_cid, 3);
    assert_eq!(v.uds_path, "/tmp/vsock.socket");
    assert_eq!(c.network_interfaces.len(), 0);
}

//! The configuration model: the named sections submitted to the control
//! plane before instance start (boot source, root drive, network
//! interfaces, optional vsock), the instance-start action, and the
//! builder that accumulates launch options.

use vstd::prelude::*;

verus! {

/// The kernel image and boot arguments of the virtual machine.
pub struct BootSource {
    pub kernel_image_path: String,
    pub boot_args: String,
}

/// One drive attached to the virtual machine.
pub struct Drives {
    pub drive_id: String,
    pub path_on_host: String,
    pub is_root_device: bool,
    pub is_read_only: bool,
}

/// A vsock device of the virtual machine.
pub struct VSock {
    pub vsock_id: String,
    pub guest_cid: usize,
    pub uds_path: String,
}

/// One network interface of the virtual machine.
pub struct NetInterface {
    pub iface_id: String,
    pub guest_mac: String,
    pub host_dev_name: String,
}

/// The whole configuration a start sequence submits, section by section.
pub struct FirecrackerConfiguration {
    pub boot_source: BootSource,
    pub drives: Drives,
    pub vsock: Option<VSock>,
    pub network_interfaces: Vec<NetInterface>,
}

/// A configuration fit to start an instance: the drive section is marked
/// as the root device and the boot source names a kernel image.
pub open spec fn config_wf(c: FirecrackerConfiguration) -> bool {
    &&& c.drives.is_root_device
    &&& c.boot_source.kernel_image_path@.len() > 0
}

impl FirecrackerConfiguration {
    /// The kernel image path of the boot source.
    pub fn kernel_image_path(&self) -> (r: String)
        ensures
            r@ == self.boot_source.kernel_image_path@,
    {
        self.boot_source.kernel_image_path.clone()
    }

    /// The host path of the drive.
    pub fn drive_path(&self) -> (r: String)
        ensures
            r@ == self.drives.path_on_host@,
    {
        self.drives.path_on_host.clone()
    }
}

/// A control-plane action request.
pub struct Action {
    pub action_type: ActionType,
}

/// The kinds of control-plane action.
#[derive(Clone, Copy, Debug, PartialEq, Eq, Structural)]
pub enum ActionType {
    InstanceStart,
}

/// Launch options accumulated before a start: the control-socket path,
/// the vsock path, whether standard output is captured, and whether the
/// kernel and root filesystem are downloaded first.
pub struct FirecrackerStartup {
    pub api_socket: String,
    pub vsock: String,
    pub stdout: bool,
    pub download_kernel: bool,
    pub download_rootfs: bool,
}

impl FirecrackerStartup {
    /// Fresh options around the given socket paths: nothing downloaded,
    /// standard output discarded.
    pub fn new(api_socket: String, vsock: String) -> (r: FirecrackerStartup)
        ensures
            r.api_socket@ == api_socket@,
            r.vsock@ == vsock@,
            !r.stdout,
            !r.download_kernel,
            !r.download_rootfs,
    {
        FirecrackerStartup {
            api_socket,
            vsock,
            stdout: false,
            download_kernel: false,
            download_rootfs: false,
        }
    }

    /// Set the control-socket path.
    pub fn set_api_socket(self, path: String) -> (r: FirecrackerStartup)
        ensures
            r.api_socket@ == path@,
            r.vsock@ == self.vsock@,
            r.stdout == self.stdout,
            r.download_kernel == self.download_kernel,
            r.download_rootfs == self.download_rootfs,
    {
        FirecrackerStartup { api_socket: path, ..self }
    }

    /// The control-socket path.
    pub fn get_api_socket(&self) -> (r: &String)
        ensures
            r@ == self.api_socket@,
    {
        &self.api_socket
    }

    /// Choose whether standard output is captured.
    pub fn stdout(self, flag: bool) -> (r: FirecrackerStartup)
        ensures
            r.stdout == flag,
            r.api_socket@ == self.api_socket@,
            r.vsock@ == self.vsock@,
            r.download_kernel == self.download_kernel,
            r.download_rootfs == self.download_rootfs,
    {
        FirecrackerStartup { stdout: flag, ..self }
    }

    /// Set the vsock path.
    pub fn vsocket(self, path: String) -> (r: FirecrackerStartup)
        ensures
            r.vsock@ == path@,
            r.api_socket@ == self.api_socket@,
            r.stdout == self.stdout,
            r.download_kernel == self.download_kernel,
            r.download_rootfs == self.download_rootfs,
    {
        FirecrackerStartup { vsock: path, ..self }
    }

    /// Whether standard output is captured.
    pub fn current_stdout(&self) -> (r: bool)
        ensures
            r == self.stdout,
    {
        self.stdout
    }

    /// Choose whether the kernel image is downloaded first.
    pub fn download_kernel(self, flag: bool) -> (r: FirecrackerStartup)
        ensures
            r.download_kernel == flag,
            r.api_socket@ == self.api_socket@,
            r.vsock@ == self.vsock@,
            r.stdout == self.stdout,
            r.download_rootfs == self.download_rootfs,
    {
        FirecrackerStartup { download_kernel: flag, ..self }
    }

    /// Choose whether the root filesystem is downloaded first.
    pub fn download_rootfs(self, flag: bool) -> (r: FirecrackerStartup)
        ensures
            r.download_rootfs == flag,
            r.api_socket@ == self.api_socket@,
            r.vsock@ == self.vsock@,
            r.stdout == self.stdout,
            r.download_kernel == self.download_kernel,
    {
        FirecrackerStartup { download_rootfs: flag, ..self }
    }

    /// Assemble the configuration submitted at start: the resolved
    /// kernel image as boot source, the resolved root filesystem as the
    /// root drive, a vsock on the chosen path, and no network
    /// interfaces.
    pub fn build_configuration(&self, kernel_path: String, rootfs_path: String) -> (r:
        FirecrackerConfiguration)
        requires
            kernel_path@.len() > 0,
        ensures
            config_wf(r),
            r.boot_source.kernel_image_path@ == kernel_path@,
            r.boot_source.boot_args@ == Seq::<char>::empty(),
            r.drives.drive_id@ == "rootfs"@,
            r.drives.path_on_host@ == rootfs_path@,
            r.drives.is_root_device,
            !r.drives.is_read_only,
            r.vsock is Some,
            r.vsock.unwrap().vsock_id@ == "vsock0"@,
            r.vsock.unwrap().guest_cid == 3usize,
            r.vsock.unwrap().uds_path@ == self.vsock@,
            r.network_interfaces@.len() == 0,
    {
        FirecrackerConfiguration {
            boot_source: BootSource { kernel_image_path: kernel_path, boot_args: String::new() },
            drives: Drives {
                drive_id: String::from_str("rootfs"),
                path_on_host: rootfs_path,
                is_root_device: true,
                is_read_only: false,
            },
            vsock: Some(
                VSock {
                    vsock_id: String::from_str("vsock0"),
                    guest_cid: 3,
                    uds_path: self.vsock.clone(),
                },
            ),
            network_interfaces: Vec::new(),
        }
    }
}

} // verus!

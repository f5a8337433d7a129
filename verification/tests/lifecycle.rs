use firecracker_sdk::config::Action;
use firecracker_sdk::config::ActionType;
use firecracker_sdk::errors::StopError;
use firecracker_sdk::lifecycle::ConfigPayload;
use firecracker_sdk::lifecycle::Lifecycle;
use firecracker_sdk::lifecycle::ProcessState;
use firecracker_sdk::lifecycle::action_body;
use firecracker_sdk::lifecycle::start_requests;
use firecracker_sdk::lifecycle::stop_outcome;
use firecracker_sdk::request::Method;

#[test]
fn start_with_root_drive_and_no_interfaces_issues_two_calls_plus_start() {
    let payload = ConfigPayload {
        boot_source: b"{\"kernel_image_path\":\"/k\"}".to_vec(),
        drive: b"{\"drive_id\":\"rootfs\",\"is_root_device\":true}".to_vec(),
        network_interfaces: Vec::new(),
    };
    let reqs = start_requests(&payload);
    assert_eq!(reqs.len(), 3);
    assert_eq!(reqs[0].target, b"/boot-source".to_vec());
    assert_eq!(reqs[0].body, payload.boot_source);
    assert_eq!(reqs[1].target, b"/drives/rootfs".to_vec());
    assert_eq!(reqs[1].body, payload.drive);
    assert_eq!(reqs[2].target, b"/actions".to_vec());
    assert_eq!(reqs[2].body, b"{\"action_type\":\"InstanceStart\"}".to_vec());
    for r in &reqs {
        assert_eq!(r.method, Method::Put);
    }
}

#[test]
fn network_interfaces_are_called_in_configuration_order() {
    let payload = ConfigPayload {
        boot_source: b"b".to_vec(),
        drive: b"d".to_vec(),
        network_interfaces: vec![
            (b"eth0".to_vec(), b"{\"iface_id\":\"eth0\"}".to_vec()),
            (b"eth1".to_vec(), b"{\"iface_id\":\"eth1\"}".to_vec()),
        ],
    };
    let reqs = start_requests(&payload);
    assert_eq!(reqs.len(), 5);
    assert_eq!(reqs[2].target, b"/network-interfaces/eth0".to_vec());
    assert_eq!(reqs[3].target, b"/network-interfaces/eth1".to_vec());
    assert_eq!(reqs[4].target, b"/actions".to_vec());
}

#[test]
fn start_calls_carry_standard_headers() {
    let payload = ConfigPayload {
        boot_source: b"12345".to_vec(),
        drive: b"d".to_vec(),
        network_interfaces: Vec::new(),
    };
    let reqs = start_requests(&payload);
    let hs = &reqs[0].headers;
    assert_eq!(hs.len(), 3);
    assert_eq!(hs[0], (b"Host".to_vec(), b"localhost".to_vec()));
    assert_eq!(hs[1], (b"Content-Type".to_vec(), b"application/json".to_vec()));
    assert_eq!(hs[2], (b"Content-Length".to_vec(), b"5".to_vec()));
}

#[test]
fn action_body_serializes_instance_start() {
    let body = action_body(&Action { action_type: ActionType::InstanceStart });
    assert_eq!(body, b"{\"action_type\":\"InstanceStart\"}".to_vec());
}

#[test]
fn stop_twice_is_a_no_op_the_second_time() {
    let mut lc = Lifecycle::new();
    lc.on_spawn();
    lc.on_ready();
    let first = lc.stop();
    assert!(first.close_transport && first.kill_process);
    assert_eq!(lc.state, ProcessState::Stopped);
    let second = lc.stop();
    assert!(!second.close_transport && !second.kill_process);
    assert_eq!(lc.state, ProcessState::Stopped);
}

#[test]
fn lifecycle_walks_spawn_ready_stop() {
    let mut lc = Lifecycle::new();
    assert_eq!(lc.state, ProcessState::NotStarted);
    lc.on_spawn();
    assert_eq!(lc.state, ProcessState::Spawned);
    lc.on_ready();
    assert_eq!(lc.state, ProcessState::Ready);
    lc.stop();
    assert_eq!(lc.state, ProcessState::Stopped);
}

#[test]
fn failed_bring_up_still_stops() {
    let mut lc = Lifecycle::new();
    lc.on_spawn();
    lc.on_failed();
    assert_eq!(lc.state, ProcessState::Failed);
    let plan = lc.stop();
    assert!(plan.close_transport && plan.kill_process);
    assert_eq!(lc.state, ProcessState::Stopped);
}

#[test]
fn transport_close_error_takes_precedence() {
    assert_eq!(stop_outcome(true, true), Some(StopError::TransportClose));
    assert_eq!(stop_outcome(true, false), Some(StopError::TransportClose));
    assert_eq!(stop_outcome(false, true), Some(StopError::ProcessKill));
    assert_eq!(stop_outcome(false, false), None);
}

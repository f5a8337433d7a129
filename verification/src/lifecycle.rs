//! The lifecycle plan: the ordered request sequence a start issues (boot
//! source, root drive, one call per network interface, then the
//! instance-start action), and the shutdown state machine whose second
//! stop is a no-op.

use vstd::prelude::*;

use crate::config::Action;
use crate::config::ActionType;
use crate::errors::StopError;
use crate::headers::pairs_view;
use crate::number::dec_of;
use crate::request::Method;
use crate::request::Request;
use crate::request::upsert;

verus! {

/// The request target `/boot-source`.
pub open spec fn boot_source_target() -> Seq<u8> {
    seq![47u8, 98u8, 111u8, 111u8, 116u8, 45u8, 115u8, 111u8, 117u8, 114u8, 99u8, 101u8]
}

/// The request target `/drives/rootfs`.
pub open spec fn drive_target() -> Seq<u8> {
    seq![47u8, 100u8, 114u8, 105u8, 118u8, 101u8, 115u8, 47u8, 114u8, 111u8, 111u8, 116u8, 102u8,
        115u8]
}

/// The request target `/actions`.
pub open spec fn actions_target() -> Seq<u8> {
    seq![47u8, 97u8, 99u8, 116u8, 105u8, 111u8, 110u8, 115u8]
}

/// The request target `/network-interfaces/<id>`.
pub open spec fn net_target(id: Seq<u8>) -> Seq<u8> {
    seq![47u8, 110u8, 101u8, 116u8, 119u8, 111u8, 114u8, 107u8, 45u8, 105u8, 110u8, 116u8, 101u8,
        114u8, 102u8, 97u8, 99u8, 101u8, 115u8, 47u8] + id
}

/// The header name `Host`.
pub open spec fn host_name() -> Seq<u8> {
    seq![72u8, 111u8, 115u8, 116u8]
}

/// The header value `localhost`.
pub open spec fn localhost_value() -> Seq<u8> {
    seq![108u8, 111u8, 99u8, 97u8, 108u8, 104u8, 111u8, 115u8, 116u8]
}

/// The header name `Content-Type`.
pub open spec fn content_type_name() -> Seq<u8> {
    seq![67u8, 111u8, 110u8, 116u8, 101u8, 110u8, 116u8, 45u8, 84u8, 121u8, 112u8, 101u8]
}

/// The header value `application/json`.
pub open spec fn json_value() -> Seq<u8> {
    seq![97u8, 112u8, 112u8, 108u8, 105u8, 99u8, 97u8, 116u8, 105u8, 111u8, 110u8, 47u8, 106u8,
        115u8, 111u8, 110u8]
}

/// The serialized instance-start action body.
pub open spec fn action_json(t: ActionType) -> Seq<u8> {
    match t {
        ActionType::InstanceStart => seq![
            123u8, 34u8, 97u8, 99u8, 116u8, 105u8, 111u8, 110u8, 95u8, 116u8, 121u8, 112u8, 101u8,
            34u8, 58u8, 34u8, 73u8, 110u8, 115u8, 116u8, 97u8, 110u8, 99u8, 101u8, 83u8, 116u8,
            97u8, 114u8, 116u8, 34u8, 125u8,
        ],
    }
}

/// The headers every configuration call carries, in the order the
/// builder stores them: `Host`, `Content-Type`, and the `Content-Length`
/// of the body.
pub open spec fn call_headers(body_len: nat) -> Seq<(Seq<u8>, Seq<u8>)> {
    seq![
        (host_name(), localhost_value()),
        (content_type_name(), json_value()),
        (crate::request::content_length_name(), dec_of(body_len as int)),
    ]
}

/// A configuration call: a PUT of a pre-built payload to a target, with
/// the standard headers.
pub open spec fn call_shape(r: Request, target: Seq<u8>, body: Seq<u8>) -> bool {
    &&& r.method == Method::Put
    &&& r.target@ == target
    &&& pairs_view(r.headers@) == call_headers(body.len())
    &&& r.body@ == body
}

/// The pre-built payloads of one start sequence: each section already
/// serialized to its wire form, transmitted verbatim.
pub struct ConfigPayload {
    pub boot_source: Vec<u8>,
    pub drive: Vec<u8>,
    pub network_interfaces: Vec<(Vec<u8>, Vec<u8>)>,
}

/// Serialize the instance-start action.
pub fn action_body(a: &Action) -> (r: Vec<u8>)
    ensures
        r@ == action_json(a.action_type),
{
    let lit: [u8; 31] = [123, 34, 97, 99, 116, 105, 111, 110, 95, 116, 121, 112, 101, 34, 58, 34,
        73, 110, 115, 116, 97, 110, 99, 101, 83, 116, 97, 114, 116, 34, 125];
    let mut v: Vec<u8> = Vec::new();
    crate::bytes::extend_bytes(&mut v, lit.as_slice());
    proof {
        assert(v@ =~= action_json(a.action_type));
    }
    v
}

/// Building one configuration call yields exactly the standard header
/// list: the three names are distinct, so each lands in its own slot.
proof fn lemma_call_headers(body_len: nat)
    ensures
        upsert(
            upsert(
                upsert(Seq::<(Seq<u8>, Seq<u8>)>::empty(), host_name(), localhost_value()),
                content_type_name(),
                json_value(),
            ),
            crate::request::content_length_name(),
            dec_of(body_len as int),
        ) == call_headers(body_len),
{
    let e = Seq::<(Seq<u8>, Seq<u8>)>::empty();
    let h = host_name();
    let lv = localhost_value();
    let ct = content_type_name();
    let jv = json_value();
    let cl = crate::request::content_length_name();
    let dv = dec_of(body_len as int);
    let m1 = upsert(e, h, lv);
    assert(m1 =~= seq![(h, lv)]);
    assert(ct != h) by {
        assert(ct.len() != h.len());
    }
    assert(cl != h) by {
        assert(cl.len() != h.len());
    }
    assert(cl != ct) by {
        assert(cl.len() != ct.len());
    }
    let m2 = upsert(m1, ct, jv);
    assert(m1[0] == (h, lv));
    assert(m1.skip(1) =~= e);
    assert(upsert(m1.skip(1), ct, jv) =~= seq![(ct, jv)]);
    assert(m2 == seq![m1[0]] + upsert(m1.skip(1), ct, jv));
    assert(m2 =~= seq![(h, lv), (ct, jv)]);
    let m3 = upsert(m2, cl, dv);
    assert(m2[0] == (h, lv));
    assert(m2.skip(1) =~= seq![(ct, jv)]);
    assert(m3 == seq![m2[0]] + upsert(m2.skip(1), cl, dv));
    let s1 = m2.skip(1);
    assert(s1[0] == (ct, jv));
    assert(s1.skip(1) =~= e);
    assert(upsert(s1.skip(1), cl, dv) =~= seq![(cl, dv)]);
    assert(upsert(s1, cl, dv) == seq![s1[0]] + upsert(s1.skip(1), cl, dv));
    assert(upsert(s1, cl, dv) =~= seq![(ct, jv), (cl, dv)]);
    assert(m3 =~= call_headers(body_len));
}

/// One configuration call for a target and payload.
fn make_call(target: &[u8], body: &[u8]) -> (r: Request)
    ensures
        call_shape(r, target@, body@),
{
    let host_lit: [u8; 4] = [72, 111, 115, 116];
    let localhost_lit: [u8; 9] = [108, 111, 99, 97, 108, 104, 111, 115, 116];
    let ct_lit: [u8; 12] = [67, 111, 110, 116, 101, 110, 116, 45, 84, 121, 112, 101];
    let json_lit: [u8; 16] = [97, 112, 112, 108, 105, 99, 97, 116, 105, 111, 110, 47, 106, 115,
        111, 110];
    proof {
        assert(host_lit@ =~= host_name());
        assert(localhost_lit@ =~= localhost_value());
        assert(ct_lit@ =~= content_type_name());
        assert(json_lit@ =~= json_value());
    }
    let r = Request::new_request(target, Method::Put).add_header(
        host_lit.as_slice(),
        localhost_lit.as_slice(),
    ).add_header(ct_lit.as_slice(), json_lit.as_slice()).body(body);
    proof {
        lemma_call_headers(body@.len());
    }
    r
}

/// The ordered request sequence of one start: the boot-source call, the
/// drive call, one call per network interface in configuration order,
/// then the instance-start action.  Exactly the configuration calls plus
/// one action call, in that order.
#[verifier::loop_isolation(false)]
pub fn start_requests(payload: &ConfigPayload) -> (r: Vec<Request>)
    ensures
        r@.len() == 3 + payload.network_interfaces@.len(),
        call_shape(r@[0], boot_source_target(), payload.boot_source@),
        call_shape(r@[1], drive_target(), payload.drive@),
        forall|i: int|
            0 <= i < payload.network_interfaces@.len() ==> call_shape(
                #[trigger] r@[2 + i],
                net_target(payload.network_interfaces@[i].0@),
                payload.network_interfaces@[i].1@,
            ),
        call_shape(
            r@[r@.len() - 1],
            actions_target(),
            action_json(ActionType::InstanceStart),
        ),
{
    let boot_lit: [u8; 12] = [47, 98, 111, 111, 116, 45, 115, 111, 117, 114, 99, 101];
    let drive_lit: [u8; 14] = [47, 100, 114, 105, 118, 101, 115, 47, 114, 111, 111, 116, 102, 115];
    let actions_lit: [u8; 8] = [47, 97, 99, 116, 105, 111, 110, 115];
    let net_prefix_lit: [u8; 20] = [47, 110, 101, 116, 119, 111, 114, 107, 45, 105, 110, 116, 101,
        114, 102, 97, 99, 101, 115, 47];
    proof {
        assert(boot_lit@ =~= boot_source_target());
        assert(drive_lit@ =~= drive_target());
        assert(actions_lit@ =~= actions_target());
    }
    let mut r: Vec<Request> = Vec::new();
    r.push(make_call(boot_lit.as_slice(), payload.boot_source.as_slice()));
    r.push(make_call(drive_lit.as_slice(), payload.drive.as_slice()));
    let ifaces = &payload.network_interfaces;
    let mut i: usize = 0;
    while i < ifaces.len()
        invariant
            i <= ifaces@.len(),
            r@.len() == 2 + i,
            call_shape(r@[0], boot_source_target(), payload.boot_source@),
            call_shape(r@[1], drive_target(), payload.drive@),
            forall|j: int|
                0 <= j < i ==> call_shape(
                    #[trigger] r@[2 + j],
                    net_target(ifaces@[j].0@),
                    ifaces@[j].1@,
                ),
        decreases ifaces@.len() - i,
    {
        let mut target: Vec<u8> = Vec::new();
        crate::bytes::extend_bytes(&mut target, net_prefix_lit.as_slice());
        crate::bytes::extend_bytes(&mut target, ifaces[i].0.as_slice());
        proof {
            assert(net_prefix_lit@ =~= seq![
                47u8, 110u8, 101u8, 116u8, 119u8, 111u8, 114u8, 107u8, 45u8, 105u8, 110u8, 116u8,
                101u8, 114u8, 102u8, 97u8, 99u8, 101u8, 115u8, 47u8,
            ]);
            assert(target@ =~= net_target(ifaces@[i as int].0@));
        }
        r.push(make_call(target.as_slice(), ifaces[i].1.as_slice()));
        i = i + 1;
    }
    let ab = action_body(&Action { action_type: ActionType::InstanceStart });
    r.push(make_call(actions_lit.as_slice(), ab.as_slice()));
    r
}

/// Where the supervised hypervisor process stands.
#[derive(Clone, Copy, Debug, PartialEq, Eq, Structural)]
pub enum ProcessState {
    NotStarted,
    Spawned,
    Ready,
    Failed,
    Stopped,
}

/// What a stop asks its caller to do.
#[derive(Clone, Copy, Debug, PartialEq, Eq, Structural)]
pub struct StopPlan {
    pub close_transport: bool,
    pub kill_process: bool,
}

/// The lifecycle state machine of one supervised instance:
/// `NotStarted` to `Spawned` to (`Ready` or `Failed`) to `Stopped`.
pub struct Lifecycle {
    pub state: ProcessState,
}

impl Lifecycle {
    /// A fresh, not yet started lifecycle.
    pub fn new() -> (r: Lifecycle)
        ensures
            r.state == ProcessState::NotStarted,
    {
        Lifecycle { state: ProcessState::NotStarted }
    }

    /// The process was spawned.
    pub fn on_spawn(&mut self)
        requires
            old(self).state == ProcessState::NotStarted,
        ensures
            final(self).state == ProcessState::Spawned,
    {
        self.state = ProcessState::Spawned;
    }

    /// The control socket became connectable.
    pub fn on_ready(&mut self)
        requires
            old(self).state == ProcessState::Spawned,
        ensures
            final(self).state == ProcessState::Ready,
    {
        self.state = ProcessState::Ready;
    }

    /// The bring-up failed after the spawn.
    pub fn on_failed(&mut self)
        requires
            old(self).state == ProcessState::Spawned,
        ensures
            final(self).state == ProcessState::Failed,
    {
        self.state = ProcessState::Failed;
    }

    /// Stop the instance: the first call asks for the transport to be
    /// closed and the process to be terminated; once stopped, another
    /// call changes nothing and asks for nothing.
    pub fn stop(&mut self) -> (r: StopPlan)
        ensures
            old(self).state == ProcessState::Stopped ==> final(self).state == old(self).state && r
                == (StopPlan { close_transport: false, kill_process: false }),
            old(self).state != ProcessState::Stopped ==> final(self).state
                == ProcessState::Stopped && r == (StopPlan {
                close_transport: true,
                kill_process: true,
            }),
    {
        match self.state {
            ProcessState::Stopped => StopPlan { close_transport: false, kill_process: false },
            _ => {
                self.state = ProcessState::Stopped;
                StopPlan { close_transport: true, kill_process: true }
            },
        }
    }
}

/// Combine the outcomes of the two shutdown steps: both are always run,
/// at most one error is reported, and a transport-close failure takes
/// precedence over a process-kill failure.
pub fn stop_outcome(close_failed: bool, kill_failed: bool) -> (r: Option<StopError>)
    ensures
        close_failed ==> r == Some(StopError::TransportClose),
        !close_failed && kill_failed ==> r == Some(StopError::ProcessKill),
        !close_failed && !kill_failed ==> r is None,
{
    if close_failed {
        Some(StopError::TransportClose)
    } else if kill_failed {
        Some(StopError::ProcessKill)
    } else {
        None
    }
}

} // verus!

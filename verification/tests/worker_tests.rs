use nebula::control::{module_chunks, ControlService};
use nebula::clock::MILLISECOND;
use nebula::engine::EPOCH_TICK;
use nebula::exec_pool::{default_threads, Admitted, ExecPool, PoolError, Submitted};
use nebula::heartbeat::{
    after_beat, interval_of, nebula_control_heartbeat_fallback, new_generation, AfterBeat, Identity,
};
use nebula::membership::Membership;
use nebula::proto::{
    Code, ExecuteRequest, ExecuteResponse, HeartbeatRequest, HeartbeatResponse, ModuleChunk,
    Outcome, RegisterRequest, RegisterResponse, Status,
};
use nebula::registry::{Registry, CHUNK_BYTES};
use nebula::worker::{
    classify, deadline_ticks, fault, fetch_error_of, respond, session_of, Assembly, Begin, Ended,
    FetchError, TrapKind, WorkerService, DEFAULT_DEADLINE_TICKS, MAX_ARTIFACT_BYTES,
};
use std::collections::HashMap;

/// A control plane and a worker, with the artifacts where the registry's paths
/// lead.
struct Mesh {
    control: ControlService,
    worker: WorkerService,
    disk: HashMap<String, Vec<u8>>,
}

fn start_mesh(threads: usize, max_concurrent: usize, timeout: u64) -> Mesh {
    Mesh {
        control: ControlService::new(Membership::new(timeout), Registry::new("/r")),
        worker: WorkerService::new(ExecPool::new(threads, max_concurrent)),
        disk: HashMap::new(),
    }
}

const SECOND: u64 = 1_000_000_000;

impl Mesh {
    fn put(&mut self, wasm: &[u8]) -> String {
        let hash = self.control.registry.put(wasm).expect("publish artifact");
        let path = self.control.registry.path(&hash).expect("a hash");
        self.disk.insert(path, wasm.to_vec());
        hash
    }

    fn fetch(&self, hash: &str) -> Result<Assembly, FetchError> {
        let path = self
            .control
            .locate(hash)
            .map_err(|status| fetch_error_of(status.code))?;
        let chunks = self
            .control
            .fetch_module(self.disk.get(&path).cloned())
            .map_err(|status| fetch_error_of(status.code))?;
        let mut assembly = Assembly::new();
        for chunk in &chunks {
            if assembly.push(chunk)? {
                break;
            }
        }
        Ok(assembly)
    }

    /// Up to the queue.
    fn enter(
        &mut self,
        request: &ExecuteRequest,
    ) -> Result<Result<Submitted, ExecuteResponse>, Status> {
        let admitted: Admitted = match self.worker.begin(request) {
            Begin::Refused(status) => return Err(status),
            Begin::Run(admitted) => admitted,
            Begin::Fetch(admitted) => {
                let got = self.fetch(&request.content_hash);
                match self.worker.fetched(admitted, &request.content_hash, got) {
                    Ok(admitted) => admitted,
                    Err(response) => return Ok(Err(response)),
                }
            }
        };
        let submitted = self.worker.submit(admitted)?;
        self.worker.start();
        Ok(Ok(submitted))
    }

    fn execute(&mut self, request: &ExecuteRequest, ended: Ended) -> Result<ExecuteResponse, Status> {
        match self.enter(request)? {
            Err(response) => Ok(response),
            Ok(submitted) => {
                self.worker.finish();
                respond(Ok(ended), submitted, 7)
            }
        }
    }
}

fn execute(function_id: &str, content_hash: &str, body: &[u8]) -> ExecuteRequest {
    ExecuteRequest {
        function_id: function_id.to_string(),
        content_hash: content_hash.to_string(),
        body: body.to_vec(),
        request_id: "req".to_string(),
        deadline_ms: 50,
        tenant: "mesh-tenant".to_string(),
        partition_key: None,
    }
}

fn echo(body: &[u8]) -> Ended {
    Ended::Finished(body.to_vec())
}

fn failed(trap: Option<TrapKind>) -> Ended {
    Ended::Failed {
        memory_refused: false,
        trap,
        detail: "wasm trap".to_string(),
    }
}

#[test]
fn register_heartbeat_and_execute_over_grpc() {
    let mut mesh = start_mesh(2, 4, 5 * SECOND);
    let hash = mesh.put(b"(module)");

    let registered = mesh
        .control
        .register(&RegisterRequest {
            node_id: "worker-1".to_string(),
            address: "127.0.0.1:9999".to_string(),
            generation: 42,
        })
        .ok()
        .expect("register");

    assert!(registered.heartbeat_interval_ms > 0);
    assert!(mesh.control.membership.contains("worker-1"));
    assert_eq!(
        mesh.control.membership.route("some-fn").as_deref(),
        Some("worker-1")
    );

    let beat = mesh.control.heartbeat(&HeartbeatRequest {
        node_id: "worker-1".to_string(),
        generation: 42,
        in_flight: 1,
        queue_depth: 0,
        cache_bytes: 4096,
    });
    assert!(
        !beat.re_register,
        "a known node must not be asked to re-register"
    );

    let stale = mesh.control.heartbeat(&HeartbeatRequest {
        node_id: "worker-1".to_string(),
        generation: 7, // a different process under the same id
        in_flight: 0,
        queue_depth: 0,
        cache_bytes: 0,
    });
    assert!(
        stale.re_register,
        "a restarted worker must be told to register again"
    );

    let cold = mesh
        .execute(&execute("echo", &hash, b"over the wire"), echo(b"over the wire"))
        .ok()
        .expect("execute");

    assert_eq!(cold.outcome, Outcome::Success as i32);
    assert_eq!(cold.body, b"over the wire");
    assert!(cold.fault_detail.is_empty());
    assert!(
        cold.cold,
        "the first request had to stream the artifact from the control plane"
    );

    let warm = mesh
        .execute(&execute("echo", &hash, b"again"), echo(b"again"))
        .ok()
        .expect("execute");

    assert_eq!(warm.outcome, Outcome::Success as i32);
    assert_eq!(warm.body, b"again");
    assert!(!warm.cold, "the artifact is local now");
    assert_eq!(warm.exec_micros, 7);
}

#[test]
fn a_silent_worker_is_reconciled_out_of_the_ring() {
    const MS: u64 = 1_000_000;
    let mut membership = Membership::new(150 * MS);
    membership.register_at(0, "worker-1", "127.0.0.1:9999", 1);
    assert!(membership.contains("worker-1"));

    assert!(membership.heartbeat_at(50 * MS, "worker-1", 1, 0, 0, 0));
    membership.reconcile_at(60 * MS);
    assert!(membership.contains("worker-1"));

    membership.reconcile_at(450 * MS);
    assert!(
        !membership.contains("worker-1"),
        "a silent worker must be reconciled away without operator action"
    );
    assert!(membership.route("any-key").is_none());
    assert!(membership.is_empty());
}

#[test]
fn an_overloaded_worker_sheds_with_resource_exhausted() {
    // One thread, one permit: the second concurrent request has nowhere to go.
    let mut mesh = start_mesh(1, 1, 5 * SECOND);
    let hash = mesh.put(b"spinner");

    let running = mesh
        .enter(&execute("spin", &hash, b""))
        .ok()
        .and_then(Result::ok)
        .expect("the first request gets in");

    let shed = mesh
        .enter(&execute("spin", &hash, b""))
        .err()
        .expect("a full worker must shed, not queue");
    assert_eq!(shed.code, Code::ResourceExhausted);

    // And the request that did get in still finishes, as a timeout.
    mesh.worker.finish();
    let finished = respond(Ok(failed(Some(TrapKind::Interrupt))), running, 50)
        .ok()
        .expect("execute");
    assert_eq!(finished.outcome, Outcome::Timeout as i32);

    // Capacity comes back.
    let after = mesh
        .execute(&execute("spin", &hash, b""), failed(Some(TrapKind::Interrupt)))
        .ok()
        .expect("execute");
    assert_eq!(after.outcome, Outcome::Timeout as i32);
}

#[test]
fn guest_faults_map_to_outcomes_not_grpc_errors() {
    let mut mesh = start_mesh(2, 4, 5 * SECOND);
    let trapper = mesh.put(b"trapper");
    let spinner = mesh.put(b"spinner");

    let trapped = mesh
        .execute(&execute("trap", &trapper, b""), failed(Some(TrapKind::Other)))
        .ok()
        .expect("the call itself must succeed");
    assert_eq!(trapped.outcome, Outcome::Trap as i32);
    assert!(
        !trapped.fault_detail.is_empty(),
        "guest fault detail goes back to the caller: it is their code"
    );

    let timed_out = mesh
        .execute(&execute("spin", &spinner, b""), failed(Some(TrapKind::Interrupt)))
        .ok()
        .expect("the call itself must succeed");
    assert_eq!(timed_out.outcome, Outcome::Timeout as i32);
}

#[test]
fn an_unknown_module_maps_to_module_not_found() {
    let mut mesh = start_mesh(1, 2, 5 * SECOND);
    let response = mesh
        .execute(&execute("missing", &"0".repeat(64), b""), echo(b"never"))
        .ok()
        .expect("the call itself must succeed");

    assert_eq!(response.outcome, Outcome::ModuleNotFound as i32);
    assert!(response.body.is_empty());
    assert_eq!(response.fault_detail, "unknown content_hash");
    assert_eq!(mesh.worker.pool().available_permits(), 2);
}

#[test]
fn a_traversal_content_hash_is_refused_end_to_end() {
    let mut mesh = start_mesh(1, 2, 5 * SECOND);

    for attempt in ["../../etc/passwd", "..", "/etc/passwd", ""] {
        let response = mesh
            .execute(&execute("evil", attempt, b""), echo(b"never"))
            .ok()
            .expect("the call itself must succeed");
        assert_eq!(
            response.outcome,
            Outcome::ModuleNotFound as i32,
            "registry served something for {attempt:?}"
        );
    }
}

#[test]
fn draining_stops_admitting_new_work() {
    let mut mesh = start_mesh(1, 2, 5 * SECOND);
    let hash = mesh.put(b"echo");

    let before = mesh
        .execute(&execute("echo", &hash, b"still open"), echo(b"still open"))
        .ok()
        .expect("execute");
    assert_eq!(before.outcome, Outcome::Success as i32);

    assert_eq!(mesh.worker.drain(), 0);

    let after = mesh
        .execute(&execute("echo", &hash, b"too late"), echo(b"too late"))
        .err()
        .expect("a draining worker must not admit new work");
    assert_eq!(after.code, Code::ResourceExhausted);
}

#[test]
fn a_chunked_artifact_reassembles_exactly() {
    // Bigger than one 256 KiB chunk, so more than one message is streamed and
    // the hash check has something to verify.
    let mut mesh = start_mesh(2, 4, 5 * SECOND);
    let padded = format!("(module)\n(; {} ;)", " ".repeat(400 * 1024));
    assert!(padded.len() > 256 * 1024);
    let hash = mesh.put(padded.as_bytes());

    let response = mesh
        .execute(&execute("echo", &hash, b"chunked"), echo(b"chunked"))
        .ok()
        .expect("execute");

    assert_eq!(response.outcome, Outcome::Success as i32);
    assert_eq!(response.body, b"chunked");
    assert!(response.cold);
    assert_eq!(
        mesh.worker.artifact(&hash).map(|bytes| bytes.as_slice()),
        Some(padded.as_bytes())
    );
}

#[test]
fn chunks_follow_on_from_each_other() {
    let artifact: Vec<u8> = (0..CHUNK_BYTES * 2 + 5).map(|i| (i % 251) as u8).collect();
    let chunks = module_chunks(&artifact);
    assert_eq!(chunks.len(), 3);
    assert_eq!(chunks[0].offset, 0);
    assert_eq!(chunks[1].offset, CHUNK_BYTES as u64);
    assert_eq!(chunks[2].offset, 2 * CHUNK_BYTES as u64);
    assert_eq!(chunks[2].data.len(), 5);
    let last: Vec<bool> = chunks.iter().map(|chunk| chunk.last).collect();
    assert_eq!(last, vec![false, false, true]);
    let whole: Vec<u8> = chunks.iter().flat_map(|chunk| chunk.data.clone()).collect();
    assert_eq!(whole, artifact);

    // Nothing is still a last piece, and a full piece has none after it.
    let empty = module_chunks(&[]);
    assert_eq!(empty.len(), 1);
    assert!(empty[0].last && empty[0].data.is_empty());
    assert_eq!(module_chunks(&artifact[..CHUNK_BYTES]).len(), 1);
}

#[test]
fn an_oversized_or_altered_artifact_is_not_kept() {
    let mut assembly = Assembly::new();
    let piece = ModuleChunk {
        data: vec![0; MAX_ARTIFACT_BYTES],
        offset: 0,
        last: false,
    };
    assert_eq!(assembly.push(&piece), Ok(false));
    let more = ModuleChunk {
        data: vec![0],
        offset: MAX_ARTIFACT_BYTES as u64,
        last: true,
    };
    assert_eq!(assembly.push(&more), Err(FetchError::TooLarge));

    let mut mesh = start_mesh(1, 2, 5 * SECOND);
    let hash = mesh.put(b"the real one");
    let path = mesh.control.registry.path(&hash).unwrap();
    mesh.disk.insert(path, b"another one".to_vec());
    let response = mesh
        .execute(&execute("echo", &hash, b""), echo(b"never"))
        .ok()
        .expect("the call itself must succeed");
    assert_eq!(response.outcome, Outcome::Internal as i32);
    assert!(response.fault_detail.is_empty());
    assert!(mesh.worker.artifact(&hash).is_none());
    assert_eq!(mesh.worker.pool().available_permits(), 2);

    let mut short = Assembly::new();
    assert_eq!(
        short.push(&ModuleChunk {
            data: b"x".to_vec(),
            offset: 0,
            last: true
        }),
        Ok(true)
    );
    assert_eq!(short.finish(&hash), Err(FetchError::Corrupt));
    assert_eq!(fetch_error_of(Code::NotFound), FetchError::NotFound);
    assert_eq!(fetch_error_of(Code::Unavailable), FetchError::Transport);
}

#[test]
fn a_request_without_a_tenant_is_refused() {
    let mut mesh = start_mesh(1, 2, 5 * SECOND);
    let hash = mesh.put(b"echo");
    let mut request = execute("echo", &hash, b"");
    request.tenant = String::new();
    let status = mesh.enter(&request).err().expect("a refusal");
    assert_eq!(status.code, Code::InvalidArgument);
    assert_eq!(status.message, "tenant is required");
    assert_eq!(mesh.worker.pool().available_permits(), 2);
}

#[test]
fn a_worker_must_say_who_and_where_it_is() {
    let mut mesh = start_mesh(1, 2, 5 * SECOND);
    for (node_id, address) in [("", "127.0.0.1:1"), ("worker-1", "")] {
        let refused = mesh
            .control
            .register(&RegisterRequest {
                node_id: node_id.to_string(),
                address: address.to_string(),
                generation: 1,
            })
            .err()
            .expect("a refusal");
        assert_eq!(refused.code, Code::InvalidArgument);
        assert_eq!(refused.message, "node_id and address are required");
    }
    assert!(mesh.control.membership.is_empty());
}

#[test]
fn each_ending_has_its_outcome() {
    let outcome = |memory_refused, trap| {
        let response = classify(Ended::Failed {
            memory_refused,
            trap,
            detail: "why".to_string(),
        });
        (response.outcome, response.fault_detail)
    };
    let told = "why".to_string();
    assert_eq!(
        outcome(false, Some(TrapKind::Interrupt)),
        (Outcome::Timeout as i32, told.clone())
    );
    assert_eq!(
        outcome(false, Some(TrapKind::OutOfFuel)),
        (Outcome::FuelExhausted as i32, told.clone())
    );
    assert_eq!(
        outcome(false, Some(TrapKind::Other)),
        (Outcome::Trap as i32, told.clone())
    );
    // The cause comes before the trap that follows from it.
    assert_eq!(
        outcome(true, Some(TrapKind::Other)),
        (Outcome::MemoryLimit as i32, told)
    );
    // A failure of the host's own is not explained to the caller.
    assert_eq!(
        outcome(false, None),
        (Outcome::Internal as i32, String::new())
    );
    assert_eq!(fault(Outcome::Trap, "x").fault_detail, "x");
}

/// A warm request in the queue of a pool of its own.
fn submitted() -> Submitted {
    let mut pool = ExecPool::new(1, 1);
    let admitted = pool.try_admit().expect("capacity");
    pool.submit(admitted).ok().expect("room")
}

#[test]
fn a_pool_that_refuses_is_a_status_and_not_a_response() {
    let full = respond(Err(PoolError::Full), submitted(), 0).err().expect("full");
    assert_eq!(full.code, Code::ResourceExhausted);
    let stopped = respond(Err(PoolError::Stopped), submitted(), 0)
        .err()
        .expect("stopped");
    assert_ne!(stopped.code, Code::ResourceExhausted);
}

#[test]
fn a_deadline_is_clamped_and_defaulted() {
    assert_eq!(deadline_ticks(0), 50);
    assert_eq!(deadline_ticks(1), 1);
    assert_eq!(deadline_ticks(5_000), 5_000);
    assert_eq!(deadline_ticks(u32::MAX), 5_000);
}

#[test]
fn the_session_is_the_partition_key() {
    let mut request = execute("f", "h", b"");
    assert_eq!(session_of(&request), "");
    request.partition_key = Some("chat-1".to_string());
    assert_eq!(session_of(&request), "chat-1");
}

#[test]
fn a_job_runs_and_reports_its_response() {
    let mut pool = ExecPool::new(2, 4);
    let admitted = pool.try_admit().expect("capacity");
    let submitted = pool.submit(admitted).ok().expect("room");
    assert!(!submitted.cold());
    assert_eq!(pool.queue_depth(), 1);
    pool.start();
    assert_eq!((pool.queue_depth(), pool.in_flight()), (0, 1));
    pool.finish();
    let response = respond(Ok(echo(b"round trip")), submitted, 3)
        .ok()
        .expect("the job ran");
    assert_eq!(response.body, b"round trip");
    assert_eq!(pool.available_permits(), 4);
}

#[test]
fn admission_is_refused_once_the_permits_are_gone() {
    let mut pool = ExecPool::new(1, 1);
    let held = pool.try_admit().expect("first request is admitted");

    assert!(
        pool.try_admit().is_none(),
        "a second request must be shed, not queued"
    );
    assert_eq!(pool.available_permits(), 0);

    pool.release(held);
    assert!(
        pool.try_admit().is_some(),
        "capacity must return when a request finishes"
    );
}

#[test]
fn permits_are_returned_after_a_guest_traps() {
    let mut pool = ExecPool::new(1, 1);
    let admitted = pool.try_admit().expect("capacity");
    let submitted = pool.submit(admitted).ok().expect("room");
    pool.start();
    let response = respond(Ok(failed(Some(TrapKind::Interrupt))), submitted, 50)
        .ok()
        .expect("the job ran");
    assert_eq!(response.outcome, Outcome::Timeout as i32);
    pool.finish();
    assert_eq!(pool.in_flight(), 0);
    assert!(pool.try_admit().is_some(), "the slot must be back");
}

#[test]
fn the_default_pool_has_two_slots_per_thread() {
    let pool = ExecPool::with_default_size(3);
    assert_eq!(pool.threads(), 3);
    assert_eq!(pool.available_permits(), 6);
    assert_eq!(default_threads(Some(12)), 12);
    assert_eq!(default_threads(None), 4);
}

#[test]
fn a_worker_beats_with_what_it_registered() {
    let identity = Identity::new("worker-1", "127.0.0.1:9", 41);
    let registration = identity.registration();
    assert_eq!(registration.node_id, "worker-1");
    assert_eq!(registration.address, "127.0.0.1:9");
    assert_eq!(registration.generation, identity.generation);
    let beat = identity.beat(1, 2, 3);
    assert_eq!(beat.node_id, "worker-1");
    assert_eq!(beat.generation, identity.generation);
    assert_eq!((beat.in_flight, beat.queue_depth, beat.cache_bytes), (1, 2, 3));
}

#[test]
fn generations_tell_restarts_apart() {
    assert_eq!(new_generation(0x1_0000_0001, 1), 1);
    assert_ne!(new_generation(5, 1), new_generation(5, 2));
    assert_ne!(new_generation(5, 1), new_generation(6, 1));
}

#[test]
fn a_worker_keeps_beating_and_registers_when_it_is_asked() {
    let said = |re_register| Some(HeartbeatResponse { re_register });
    assert_eq!(after_beat(said(true)), AfterBeat::Register);
    assert_eq!(after_beat(said(false)), AfterBeat::Wait);
    assert_eq!(after_beat(None), AfterBeat::Wait);

    let every = |heartbeat_interval_ms| {
        interval_of(RegisterResponse {
            heartbeat_interval_ms,
        })
    };
    assert_eq!(every(500), 500_000_000);
    assert_eq!(every(0), 1_000_000);
    assert_eq!(nebula_control_heartbeat_fallback(), 500_000_000);
}

#[test]
fn the_default_deadline_is_fifty_milliseconds() {
    assert_eq!(DEFAULT_DEADLINE_TICKS * EPOCH_TICK, 50 * MILLISECOND);
    assert_eq!(deadline_ticks(0), DEFAULT_DEADLINE_TICKS);
}

#[test]
fn what_is_no_hash_is_found_nowhere() {
    let control = ControlService::new(Membership::with_defaults(), Registry::new("/r"));
    let hash = "0".repeat(64);
    assert_eq!(control.locate(&hash).ok(), Some(format!("/r/{hash}.wasm")));
    for bad in ["../../etc/passwd", "", "0", &"g".repeat(64), &"0".repeat(65)] {
        match control.locate(bad) {
            Err(status) => {
                assert_eq!(status.code, Code::NotFound);
                assert_eq!(status.message, "unknown content_hash");
            }
            Ok(path) => panic!("{bad} leads to {path}"),
        }
    }
}

use nebula::answer::{Answer, HttpResponse};
use nebula::auth::Auth;
use nebula::cache::{Cache, LoadAction, LoadEvent, Loading, Lookup, Probe};
use nebula::exec_pool::ExecPool;
use nebula::gateway::{
    deadline_of, Admission, Attempt, Gateway, Headers, PRECOMPILE_FANOUT,
};
use nebula::host::HostCtx;
use nebula::kv::Kv;
use nebula::membership::{Membership, LIVENESS_TIMEOUT};
use nebula::proto::{Code, ExecuteRequest, ExecuteResponse, Status};
use nebula::publish::{
    named, preparation, prepared, publish_answer, publish_with_tool, tool_of, tool_schema_of,
    Action, Deploy, Event, PublishError, Published, Verdict,
};
use nebula::ratelimit::Limit;
use nebula::registry::{Deployments, Registry, Row, Tool, DEPLOYMENTS_VERSION};
use nebula::trace::{Minter, TraceContext};
use nebula::wizer::WizerError;
use nebula::worker::{
    deadline_ticks, respond, session_of, Assembly, Begin, Ended, FetchError, TrapKind,
    WorkerService,
};
use nebula::control::module_chunks;
use std::collections::HashMap;

const SECOND: u64 = 1_000_000_000;

const TRACEPARENT: &str = "00-4bf92f3577b34da6a3ce929d0e0e4736-00f067aa0ba902b7-01";
const CALLER_TRACE_ID: &str = "4bf92f3577b34da6a3ce929d0e0e4736";

/// Two requests up front, then one every ten seconds.
const TWO_THEN_NOTHING: Limit = Limit {
    per_second: 100_000,
    burst: 2_000_000,
};

#[derive(Clone, Copy, PartialEq)]
enum Health {
    Alive,
    /// Its connection is established, and it is gone.
    Killed,
    /// It was never there.
    Phantom,
}

struct Node {
    health: Health,
    service: WorkerService,
    kv: Kv,
    /// The modules that this worker has compiled.
    cache: Cache<()>,
}

impl Node {
    /// Has the module of an artifact at hand, compiled if it was not.
    fn load(&mut self, wasm: &[u8]) {
        let (hash, found) = self.cache.get_or_compile(wasm);
        match found {
            Lookup::Hit(()) => return,
            Lookup::Wait => panic!("nobody else is at it"),
            Lookup::Build => {}
        }
        let (mut loading, mut action) = Loading::begin(wasm.len());
        loop {
            let event = match action {
                LoadAction::Probe => LoadEvent::Probed(Probe::Absent),
                LoadAction::Compile => LoadEvent::Compiled(true),
                LoadAction::Write => LoadEvent::Written(true),
                LoadAction::Sweep => LoadEvent::Swept(0),
                LoadAction::Measure => LoadEvent::Measured(None),
                LoadAction::Keep { size, .. } => return self.cache.built(hash, (), size),
                other => panic!("unexpected {other:?}"),
            };
            (loading, action) = self.cache.load_or_compile(loading, event);
        }
    }
}

/// What the guests of these tests do, by the text of their artifact.
fn run(kv: &mut Kv, request: &ExecuteRequest, wasm: &[u8]) -> Ended {
    let ctx = HostCtx::new(&request.tenant, &session_of(request), request.body.clone());
    let failed = |memory_refused, trap| Ended::Failed {
        memory_refused,
        trap: Some(trap),
        detail: "wasm trap".to_string(),
    };
    let mut memory = vec![0u8; 65536];
    let wasm = String::from_utf8_lossy(wasm).to_string();
    match wasm.split(' ').next().unwrap() {
        "echo" => Ended::Finished(request.body.clone()),
        "hog" => failed(true, TrapKind::Other),
        "trap" => failed(false, TrapKind::Other),
        "slow" => {
            if deadline_ticks(request.deadline_ms) < 100 {
                failed(false, TrapKind::Interrupt)
            } else {
                Ended::Finished(Vec::new())
            }
        }
        "counter" => {
            memory[0] = b'n';
            memory[16] = b'1';
            match ctx.kv_get(kv, &mut memory, true, (0, 1), (256, 16)) {
                Ok(-1) => {
                    ctx.kv_set(kv, &memory, true, (0, 1), (16, 1)).unwrap();
                    Ended::Finished(b"1".to_vec())
                }
                _ => Ended::Finished(b"2".to_vec()),
            }
        }
        "probe" => {
            memory[0] = b'k';
            match ctx.kv_get(kv, &mut memory, true, (0, 1), (256, 16)) {
                Ok(-1) => {
                    ctx.kv_set(kv, &memory, true, (0, 1), (0, 1)).unwrap();
                    Ended::Finished(b"miss".to_vec())
                }
                _ => Ended::Finished(b"hit".to_vec()),
            }
        }
        "notepad" => {
            memory[..5].copy_from_slice(b"notes");
            let held = ctx
                .kv_get(kv, &mut memory, true, (0, 5), (1024, 4096))
                .unwrap()
                .max(0) as u32;
            let added = ctx
                .request_read(&mut memory, true, 1024 + held, request.body.len() as u32)
                .unwrap() as u32;
            let all = held + added;
            ctx.kv_set(kv, &memory, true, (0, 5), (1024, all)).unwrap();
            Ended::Finished(memory[1024..1024 + all as usize].to_vec())
        }
        other => panic!("no such guest: {other}"),
    }
}

struct Cluster {
    gateway: Gateway,
    membership: Membership,
    registry: Registry,
    disk: HashMap<String, Vec<u8>>,
    nodes: HashMap<String, Node>,
    minter: Minter,
    rate_now: u64,
    precompile: bool,
}

fn text(response: &HttpResponse) -> String {
    String::from_utf8_lossy(&response.body).to_string()
}

fn header<'a>(response: &'a HttpResponse, name: &str) -> Option<&'a str> {
    response
        .headers
        .iter()
        .find(|(n, _)| n.eq_ignore_ascii_case(name))
        .map(|(_, value)| value.as_str())
}

impl Cluster {
    fn with(gateway: Gateway) -> Self {
        Cluster {
            gateway,
            membership: Membership::new(30 * SECOND),
            registry: Registry::new("/r"),
            disk: HashMap::new(),
            nodes: HashMap::new(),
            minter: Minter::new(7),
            rate_now: 0,
            precompile: true,
        }
    }

    fn start() -> Self {
        Self::with(Gateway::open(Deployments::new()))
    }

    fn with_limits(execute: Limit, deploy: Limit) -> Self {
        Self::with(Gateway::open(Deployments::new()).with_limits(execute, deploy))
    }

    fn authenticated(secret: &[u8]) -> Self {
        Self::with(Gateway::open(Deployments::new()).with_auth(Auth::signed(secret)))
    }

    fn add_node(&mut self, node: &str, health: Health, threads: usize, max: usize) -> String {
        let address = format!("127.0.0.1:{}", 9000 + self.nodes.len());
        self.membership.register(node, &address, 1);
        self.nodes.insert(
            address.clone(),
            Node {
                health,
                service: WorkerService::new(ExecPool::new(threads, max)),
                kv: Kv::new(),
                cache: Cache::new(),
            },
        );
        address
    }

    fn add_worker(&mut self, threads: usize, max: usize) -> String {
        let name = format!("worker-{}", self.nodes.len());
        self.add_node(&name, Health::Alive, threads, max)
    }

    /// Stores and points, with no caller to authenticate.
    fn publish(&mut self, id: &str, wasm: &str) {
        let hash = named(wasm.as_bytes()).ok().unwrap();
        self.disk
            .insert(self.registry.path(&hash).unwrap(), wasm.as_bytes().to_vec());
        publish_with_tool(&mut self.gateway, id, hash, false, None);
    }

    fn try_publish(
        &mut self,
        id: &str,
        wasm: &[u8],
        schema: Option<&str>,
    ) -> Result<Published, PublishError> {
        let schema = tool_schema_of(&schema.map(|s| s.as_bytes().to_vec()))?;
        let tool = match schema {
            None => None,
            Some(raw) => Some(tool_of(parse_tool(&raw))?),
        };
        let (mut deploy, mut action) = Deploy::begin(id, wasm.to_vec(), tool);
        loop {
            let event = match action {
                Action::Finish(result) => return result,
                Action::Wizen(_) => panic!("no guest here has an initializer"),
                Action::Store { hash, artifact } => {
                    self.disk
                        .insert(self.registry.path(&hash).unwrap(), artifact);
                    Event::Stored(Ok(()))
                }
                Action::Precompile { address, hash } => {
                    Event::Compiled(self.compile(&address, &hash))
                }
                Action::Save => Event::Saved(Ok(())),
            };
            (deploy, action) = deploy.step(event, &self.membership, &mut self.gateway);
        }
    }

    /// Has one worker compile an artifact ahead, which leaves it there.
    fn compile(&mut self, address: &str, hash: &str) -> Verdict {
        let artifact = self.disk[&self.registry.path(hash).unwrap()].clone();
        let node = self.nodes.get_mut(address).unwrap();
        if !self.precompile || node.health != Health::Alive {
            return Verdict::Unavailable;
        }
        if artifact.starts_with(b"broken") {
            return Verdict::Refused("expected no values".to_string());
        }
        let request = ExecuteRequest {
            content_hash: hash.to_string(),
            tenant: "deploy".to_string(),
            ..ExecuteRequest::default()
        };
        if let Begin::Fetch(admitted) = node.service.begin(&request) {
            let mut assembly = Assembly::new();
            for chunk in &module_chunks(&artifact) {
                assembly.push(chunk).unwrap();
            }
            let admitted = node
                .service
                .fetched(admitted, hash, Ok(assembly))
                .ok()
                .unwrap();
            let permits = node.service.pool().available_permits();
            node.service.release(admitted);
            assert_eq!(node.service.pool().available_permits(), permits + 1);
        }
        node.load(&artifact);
        Verdict::Compiled
    }

    fn put(&mut self, id: &str, token: Option<&str>, schema: Option<&str>, wasm: &str) -> HttpResponse {
        let headers = headers_of(token, &[]);
        let answer = match self.gateway.receive_deploy_at(self.rate_now, &headers) {
            Err(answer) => answer,
            Ok(_) => publish_answer(self.try_publish(id, wasm.as_bytes(), schema)),
        };
        answer.into_response()
    }

    fn fetch(&self, hash: &str) -> Result<Assembly, FetchError> {
        let path = self
            .registry
            .path(hash)
            .map_err(|_| FetchError::NotFound)?;
        let bytes = self.disk.get(&path).ok_or(FetchError::NotFound)?;
        let mut assembly = Assembly::new();
        for chunk in &module_chunks(bytes) {
            assembly.push(chunk)?;
        }
        Ok(assembly)
    }

    /// One attempt on one worker.
    fn dial(&mut self, address: &str, request: &ExecuteRequest) -> Attempt {
        let got = self.fetch(&request.content_hash);
        let node = self.nodes.get_mut(address).unwrap();
        match node.health {
            Health::Phantom => return Attempt::NotSent,
            Health::Killed => {
                return Attempt::Failed(Status::new(Code::Unavailable, "connection reset"))
            }
            Health::Alive => {}
        }
        let admitted = match node.service.begin(request) {
            Begin::Refused(status) => return Attempt::Failed(status),
            Begin::Run(admitted) => admitted,
            Begin::Fetch(admitted) => {
                match node.service.fetched(admitted, &request.content_hash, got) {
                    Ok(admitted) => admitted,
                    Err(response) => return Attempt::Answered(response),
                }
            }
        };
        let submitted = match node.service.submit(admitted) {
            Ok(submitted) => submitted,
            Err(status) => return Attempt::Failed(status),
        };
        node.service.start();
        let wasm = node
            .service
            .artifact(&request.content_hash)
            .unwrap()
            .clone();
        node.load(&wasm);
        let ended = run(&mut node.kv, request, &wasm);
        node.service.finish();
        let response: ExecuteResponse = respond(Ok(ended), submitted, 5).ok().unwrap();
        Attempt::Answered(response)
    }

    fn request(
        &mut self,
        function: &str,
        token: Option<&str>,
        extra: &[(&str, &str)],
        body: &[u8],
    ) -> HttpResponse {
        let traceparent = extra
            .iter()
            .find(|(name, _)| *name == "traceparent")
            .map(|(_, value)| *value);
        let trace = TraceContext::adopt(traceparent, &mut self.minter);
        let headers = headers_of(token, extra);
        let claim_now = self.rate_now;
        let answer: Answer =
            match self
                .gateway
                .receive_at(self.rate_now, claim_now, function, &headers)
            {
                Admission::Answered(answer) => answer,
                Admission::Run(ticket) => {
                    let answer = match self.gateway.plan(
                        &self.membership,
                        function,
                        &ticket,
                        body.to_vec(),
                        &trace,
                        "aaaaaaaaaaaaaaaa",
                    ) {
                        Err(answer) => answer,
                        Ok(mut dispatch) => loop {
                            let address = dispatch.address().to_string();
                            let sent = ExecuteRequest {
                                function_id: dispatch.request().function_id.clone(),
                                content_hash: dispatch.request().content_hash.clone(),
                                body: dispatch.request().body.clone(),
                                request_id: dispatch.request().request_id.clone(),
                                deadline_ms: dispatch.request().deadline_ms,
                                partition_key: dispatch.request().partition_key.clone(),
                                tenant: dispatch.request().tenant.clone(),
                            };
                            assert_eq!(sent.request_id, trace.trace_id);
                            assert!(dispatch.traceparent().contains(&trace.trace_id));
                            let attempt = self.dial(&address, &sent);
                            if let Some(answer) = dispatch.step(attempt) {
                                break answer;
                            }
                        },
                    };
                    self.gateway.finish_at(claim_now, ticket, &answer);
                    answer
                }
            };
        answer.with_trace(&trace).into_response()
    }

    fn post_with(
        &mut self,
        function: &str,
        token: &str,
        extra: &[(&str, &str)],
        body: &[u8],
    ) -> HttpResponse {
        self.request(function, Some(token), extra, body)
    }

    fn post(&mut self, function: &str, token: &str, body: &[u8]) -> HttpResponse {
        self.post_with(function, token, &[], body)
    }
}

fn headers_of(token: Option<&str>, extra: &[(&str, &str)]) -> Headers {
    let find = |name: &str| {
        extra
            .iter()
            .find(|(n, _)| n.eq_ignore_ascii_case(name))
            .map(|(_, value)| value.as_bytes().to_vec())
    };
    Headers {
        authorization: token.map(|t| format!("Bearer {t}").into_bytes()),
        partition_key: find("x-nebula-partition-key"),
        deadline: find("x-nebula-deadline-ms"),
        idempotency_key: find("idempotency-key"),
    }
}

fn parse_tool(raw: &str) -> Result<Tool, String> {
    let value: serde_json::Value = serde_json::from_str(raw).map_err(|err| err.to_string())?;
    let description = value
        .get("description")
        .and_then(|d| d.as_str())
        .ok_or("missing field `description`")?;
    let schema = value
        .get("input_schema")
        .ok_or("missing field `input_schema`")?;
    Ok(Tool {
        description: description.to_string(),
        input_schema: schema.to_string(),
    })
}

#[test]
fn http_execute_round_trips_through_the_cluster() {
    let mut cluster = Cluster::start();
    let deployed = cluster.put("echo", Some("acme"), None, "echo");
    assert_eq!(deployed.status, 201);
    assert!(text(&deployed).contains("content_hash"));

    cluster.add_worker(2, 4);
    let response = cluster.post("echo", "acme", b"hello over http");
    assert_eq!(response.status, 200, "body was {}", text(&response));
    assert_eq!(response.body, b"hello over http");
    assert_eq!(header(&response, "x-nebula-cold"), Some("true"));

    let warm = cluster.post("echo", "acme", b"again");
    assert_eq!(warm.status, 200);
    assert_eq!(header(&warm, "x-nebula-cold"), Some("false"));
}

#[test]
fn requests_without_a_bearer_token_are_rejected() {
    let mut cluster = Cluster::start();
    cluster.add_worker(1, 2);
    cluster.publish("echo", "echo");

    let anonymous = cluster.request("echo", None, &[], b"x");
    assert_eq!(anonymous.status, 401);
    assert!(header(&anonymous, "www-authenticate").is_some());

    let unknown = cluster.post("nope", "acme", b"x");
    assert_eq!(unknown.status, 404);
}

#[test]
fn the_bearer_token_namespaces_the_kv_store() {
    let mut cluster = Cluster::start();
    cluster.add_worker(1, 2);
    cluster.publish("probe", "probe");

    assert_eq!(text(&cluster.post("probe", "acme", b"")), "miss");
    assert_eq!(text(&cluster.post("probe", "acme", b"")), "hit");
    assert_eq!(text(&cluster.post("probe", "globex", b"")), "miss");
    assert_eq!(text(&cluster.post("probe", "globex", b"")), "hit");
    assert_eq!(text(&cluster.post("probe", "acme", b"")), "hit");
}

#[test]
fn a_memory_ceiling_breach_maps_to_memory_limit() {
    let mut cluster = Cluster::start();
    cluster.add_worker(1, 2);
    cluster.publish("hog", "hog");

    let response = cluster.post("hog", "acme", b"");
    assert_eq!(response.status, 500);
    assert_eq!(header(&response, "x-nebula-fault"), Some("memory_limit"));
}

#[test]
fn an_empty_cluster_reports_service_unavailable() {
    let mut cluster = Cluster::start();
    cluster.publish("echo", "echo");

    let response = cluster.post("echo", "acme", b"x");
    assert_eq!(response.status, 503);
    assert_eq!(header(&response, "retry-after"), Some("1"));
}

#[test]
fn a_caller_supplied_deadline_is_honoured() {
    let mut cluster = Cluster::start();
    cluster.add_worker(2, 4);
    cluster.publish("slow", "slow");

    let default = cluster.post("slow", "acme", b"");
    assert_eq!(default.status, 504);
    assert_eq!(header(&default, "x-nebula-fault"), Some("timeout"));
    assert_eq!(header(&default, "x-nebula-deadline-ms"), Some("50"));

    let generous = cluster.post_with("slow", "acme", &[("X-Nebula-Deadline-Ms", "2000")], b"");
    assert_eq!(generous.status, 200);
    assert_eq!(header(&generous, "x-nebula-deadline-ms"), Some("2000"));
}

#[test]
fn an_out_of_range_deadline_is_clamped_and_the_effective_value_echoed() {
    let mut cluster = Cluster::start();
    cluster.add_worker(2, 4);
    cluster.publish("echo", "echo");

    let greedy = cluster.post_with("echo", "acme", &[("X-Nebula-Deadline-Ms", "60000")], b"x");
    assert_eq!(greedy.status, 200);
    assert_eq!(header(&greedy, "x-nebula-deadline-ms"), Some("5000"));

    let tiny = cluster.post_with("echo", "acme", &[("X-Nebula-Deadline-Ms", "0")], b"x");
    assert_eq!(header(&tiny, "x-nebula-deadline-ms"), Some("10"));
}

#[test]
fn a_malformed_deadline_is_rejected_rather_than_defaulted() {
    let mut cluster = Cluster::start();
    cluster.add_worker(2, 4);
    cluster.publish("echo", "echo");

    for bad in ["abc", "-1", "2.5", ""] {
        let response = cluster.post_with("echo", "acme", &[("X-Nebula-Deadline-Ms", bad)], b"x");
        assert_eq!(response.status, 400, "accepted deadline {bad:?}");
        assert_eq!(header(&response, "x-nebula-fault"), Some("invalid_deadline"));
    }
    assert_eq!(deadline_of(&Some(b" +75 ".to_vec())), Some(75));
    assert_eq!(deadline_of(&Some(b"4294967296".to_vec())), None);
}

#[test]
fn every_failure_names_its_own_cause() {
    let mut cluster = Cluster::start();

    cluster.publish("echo", "echo");
    let no_worker = cluster.post("echo", "acme", b"x");
    assert_eq!(no_worker.status, 503);
    assert_eq!(
        header(&no_worker, "x-nebula-fault"),
        Some("no_healthy_worker")
    );
    assert_eq!(header(&no_worker, "retry-after"), Some("1"));

    cluster.add_worker(2, 4);
    cluster.publish("hog", "hog");
    cluster.publish("trap", "trap");

    for (function, status, fault) in [
        ("hog", 500, "memory_limit"),
        ("trap", 500, "trap"),
        ("missing", 404, "unknown_function"),
    ] {
        let response = cluster.post(function, "acme", b"x");
        assert_eq!(response.status, status, "{function}");
        assert_eq!(header(&response, "x-nebula-fault"), Some(fault), "{function}");
    }

    let anonymous = cluster.request("echo", None, &[], b"x");
    assert_eq!(anonymous.status, 401);
    assert_eq!(header(&anonymous, "x-nebula-fault"), Some("unauthorized"));
}

#[test]
fn a_worker_killed_mid_flight_is_reported_not_retried() {
    let mut cluster = Cluster::start();
    let victim = cluster.add_worker(1, 2);
    cluster.publish("echo", "echo");

    assert_eq!(cluster.post("echo", "acme", b"warm").status, 200);

    cluster.nodes.get_mut(&victim).unwrap().health = Health::Killed;
    let response = cluster.post("echo", "acme", b"after the kill");
    assert_eq!(
        response.status, 502,
        "a request on an established connection must be reported, not retried"
    );
}

#[test]
fn a_worker_that_cannot_be_reached_is_retried_onto_a_live_one() {
    let mut cluster = Cluster::start();
    cluster.precompile = false;
    cluster.add_worker(1, 4);
    for n in 0..4 {
        cluster.add_node(&format!("phantom-{n}"), Health::Phantom, 1, 1);
    }

    let mut served = 0;
    for n in 0..20 {
        let function = format!("echo-{n}");
        cluster.publish(&function, "echo");
        let response = cluster.post(&function, "acme", b"routed");

        match response.status {
            200 => {
                assert_eq!(response.body, b"routed");
                served += 1;
            }
            // One retry only, so two phantoms in a row still gives up.
            503 => {
                assert_eq!(
                    header(&response, "x-nebula-fault"),
                    Some("no_reachable_worker")
                );
            }
            other => panic!(
                "unreachable nodes must never yield {other}: {}",
                text(&response)
            ),
        }
    }

    assert!(
        served > 0,
        "an unreachable lead node must fail over to the live worker"
    );
    assert!(
        served < 20,
        "with four phantoms some walks should exhaust the single retry"
    );
}

/// A worker whose only slot is taken.
fn add_busy(cluster: &mut Cluster) {
    let address = cluster.add_worker(1, 1);
    let node = cluster.nodes.get_mut(&address).unwrap();
    let held = ExecuteRequest {
        tenant: "busy".to_string(),
        ..ExecuteRequest::default()
    };
    assert!(matches!(node.service.begin(&held), Begin::Fetch(_)));
}

#[test]
fn a_shedding_cluster_says_that_it_is_at_capacity() {
    let mut cluster = Cluster::start();
    cluster.publish("echo", "echo");
    add_busy(&mut cluster);
    let response = cluster.post("echo", "acme", b"x");
    assert_eq!(response.status, 503);
    assert_eq!(
        header(&response, "x-nebula-fault"),
        Some("cluster_at_capacity")
    );

    // With more of them the second one's word is the last.
    add_busy(&mut cluster);
    add_busy(&mut cluster);
    let response = cluster.post("echo", "acme", b"x");
    assert_eq!(response.status, 503);
    assert_eq!(header(&response, "x-nebula-fault"), Some("worker_shed"));
}

#[test]
fn a_paused_worker_leaves_the_ring_after_the_liveness_timeout() {
    const MS: u64 = 1_000_000;
    let mut cluster = Cluster::start();
    cluster.membership = Membership::new(LIVENESS_TIMEOUT);
    cluster.add_worker(1, 2);
    cluster.publish("echo", "echo");
    let paused = cluster.membership.candidates("echo")[0].clone();

    let mut now = 0;
    for _ in 0..4 {
        now += 300 * MS;
        assert!(cluster.membership.heartbeat_at(now, &paused, 1, 0, 0, 0));
        assert!(cluster.membership.reconcile_at(now).is_empty());
        assert!(cluster.membership.contains(&paused));
    }
    assert_eq!(cluster.post("echo", "acme", b"alive").status, 200);

    cluster
        .membership
        .reconcile_at(now + LIVENESS_TIMEOUT + 400 * MS);
    assert!(
        !cluster.membership.contains(&paused),
        "three missed beats must remove the worker from the ring"
    );
    assert!(cluster.membership.is_empty());

    let response = cluster.post("echo", "acme", b"after the pause");
    assert_eq!(response.status, 503);
}

#[test]
fn a_repeated_key_replays_instead_of_running_again() {
    let mut cluster = Cluster::start();
    cluster.add_worker(2, 4);
    cluster.publish("counter", "counter");

    let key = [("Idempotency-Key", "call-1")];
    let first = cluster.post_with("counter", "acme", &key, b"");
    assert_eq!(first.status, 200);
    assert_eq!(text(&first), "1", "the first call must actually run");
    assert!(header(&first, "x-nebula-idempotent-replay").is_none());

    let second = cluster.post_with("counter", "acme", &key, b"");
    assert_eq!(second.status, 200);
    assert_eq!(
        text(&second),
        "1",
        "a repeated key must not re-run the guest"
    );
    assert_eq!(header(&second, "x-nebula-idempotent-replay"), Some("true"));

    let other = [("Idempotency-Key", "call-2")];
    let third = cluster.post_with("counter", "acme", &other, b"");
    assert_eq!(text(&third), "2", "a fresh key must run the guest again");
}

#[test]
fn a_replay_reproduces_the_original_answer_exactly() {
    let mut cluster = Cluster::start();
    cluster.add_worker(2, 4);
    cluster.publish("echo", "echo");
    cluster.publish("trapper", "trap");

    let key = [("Idempotency-Key", "fault-1")];
    let first = cluster.post_with("trapper", "acme", &key, b"");
    assert_eq!(first.status, 500);
    assert_eq!(header(&first, "x-nebula-fault"), Some("trap"));

    let second = cluster.post_with("trapper", "acme", &key, b"");
    assert_eq!(second.status, first.status);
    assert_eq!(text(&second), text(&first));
    assert_eq!(header(&second, "x-nebula-fault"), Some("trap"));
    assert_eq!(header(&second, "x-nebula-idempotent-replay"), Some("true"));

    let key = [("Idempotency-Key", "echo-1")];
    let first = cluster.post_with("echo", "acme", &key, b"payload");
    let second = cluster.post_with("echo", "acme", &key, b"payload");
    assert_eq!(text(&second), "payload");
    assert_eq!(
        header(&second, "x-nebula-exec-micros"),
        header(&first, "x-nebula-exec-micros")
    );
    assert_eq!(
        header(&second, "x-nebula-cold"),
        header(&first, "x-nebula-cold")
    );
    assert_eq!(header(&first, "x-nebula-exec-micros"), Some("5"));
}

#[test]
fn one_tenants_key_cannot_read_anothers_answer() {
    let mut cluster = Cluster::start();
    cluster.add_worker(2, 4);
    cluster.publish("echo", "echo");

    let key = [("Idempotency-Key", "shared-name")];
    let acme = cluster.post_with("echo", "acme", &key, b"acme secret");
    assert_eq!(text(&acme), "acme secret");

    let other = cluster.post_with("echo", "globex", &key, b"globex data");
    assert_eq!(text(&other), "globex data");
    assert!(
        header(&other, "x-nebula-idempotent-replay").is_none(),
        "a second tenant must never be served the first tenant's answer"
    );
}

#[test]
fn a_failure_that_never_ran_leaves_the_key_free_for_a_real_retry() {
    let mut cluster = Cluster::start();
    cluster.publish("echo", "echo");

    let key = [("Idempotency-Key", "retry-me")];
    let first = cluster.post_with("echo", "acme", &key, b"payload");
    assert_eq!(first.status, 503);
    assert_eq!(header(&first, "x-nebula-fault"), Some("no_healthy_worker"));

    cluster.add_worker(2, 4);
    let second = cluster.post_with("echo", "acme", &key, b"payload");
    assert_eq!(second.status, 200);
    assert_eq!(text(&second), "payload");
    assert!(header(&second, "x-nebula-idempotent-replay").is_none());
}

#[test]
fn a_duplicate_arriving_mid_flight_is_refused_rather_than_run() {
    let mut cluster = Cluster::start();
    cluster.add_worker(2, 4);
    cluster.publish("slow", "slow");

    let headers = [
        ("Idempotency-Key", "concurrent"),
        ("X-Nebula-Deadline-Ms", "2000"),
    ];
    let held = match cluster
        .gateway
        .receive_at(0, 0, "slow", &headers_of(Some("acme"), &headers))
    {
        Admission::Run(ticket) => ticket,
        Admission::Answered(_) => panic!("the first request runs"),
    };
    assert_eq!(held.deadline_ms, 2000);
    let second = cluster.post_with("slow", "acme", &headers, b"");
    assert_eq!(second.status, 409);
    assert_eq!(
        header(&second, "x-nebula-fault"),
        Some("idempotency_in_flight")
    );
}

#[test]
fn a_malformed_key_is_refused_rather_than_silently_dropped() {
    let mut cluster = Cluster::start();
    cluster.add_worker(2, 4);
    cluster.publish("echo", "echo");

    let long = "k".repeat(300);
    for bad in ["", "   ", long.as_str()] {
        let response = cluster.post_with("echo", "acme", &[("Idempotency-Key", bad)], b"payload");
        assert_eq!(response.status, 400, "key {bad:?} should be refused");
        assert_eq!(
            header(&response, "x-nebula-fault"),
            Some("invalid_idempotency_key")
        );
    }

    let response = cluster.post("echo", "acme", b"payload");
    assert_eq!(response.status, 200);
}

#[test]
fn a_client_that_disconnects_does_not_wedge_its_own_key() {
    let mut cluster = Cluster::start();
    cluster.add_worker(2, 4);
    cluster.publish("slow", "slow");

    let headers = [
        ("Idempotency-Key", "dropped"),
        ("X-Nebula-Deadline-Ms", "2000"),
    ];
    match cluster
        .gateway
        .receive_at(0, 0, "slow", &headers_of(Some("acme"), &headers))
    {
        Admission::Run(ticket) => cluster.gateway.abandon(ticket),
        Admission::Answered(_) => panic!("the first request runs"),
    }

    let retry = cluster.post_with("slow", "acme", &headers, b"");
    assert_eq!(
        retry.status, 200,
        "a retry after a disconnect must run, not hit a wedged slot"
    );
}

#[test]
fn a_callers_trace_id_is_adopted_and_reported_back() {
    let mut cluster = Cluster::start();
    cluster.add_worker(2, 4);
    cluster.publish("echo", "echo");

    let response = cluster.post_with("echo", "acme", &[("traceparent", TRACEPARENT)], b"hi");
    assert_eq!(response.status, 200);
    assert_eq!(
        header(&response, "x-nebula-trace-id"),
        Some(CALLER_TRACE_ID),
        "the tool call must appear inside the caller's trace, not a new one"
    );
}

#[test]
fn a_request_without_a_traceparent_still_gets_an_id_it_can_be_told() {
    let mut cluster = Cluster::start();
    cluster.add_worker(2, 4);
    cluster.publish("echo", "echo");

    let first = cluster.post("echo", "acme", b"hi");
    let second = cluster.post("echo", "acme", b"hi");

    let (Some(a), Some(b)) = (
        header(&first, "x-nebula-trace-id"),
        header(&second, "x-nebula-trace-id"),
    ) else {
        panic!("a minted trace id is useless if the caller is never told it");
    };
    assert_eq!(a.len(), 32);
    assert!(a.bytes().all(|c| c.is_ascii_hexdigit()));
    assert_ne!(a, b, "two requests must not share a trace id");
}

#[test]
fn broken_caller_instrumentation_does_not_break_the_call() {
    let mut cluster = Cluster::start();
    cluster.add_worker(2, 4);
    cluster.publish("echo", "echo");

    for bad in ["garbage", "00-tooshort-00f067aa0ba902b7-01", ""] {
        let response = cluster.post_with("echo", "acme", &[("traceparent", bad)], b"hi");
        assert_eq!(
            response.status, 200,
            "traceparent {bad:?} broke the request"
        );

        let id = header(&response, "x-nebula-trace-id")
            .expect("a fresh trace should still be reported");
        assert_eq!(id.len(), 32, "{bad:?} produced {id}");
        assert_ne!(id, CALLER_TRACE_ID);
    }
}

#[test]
fn a_rejected_request_is_still_findable_in_the_callers_trace() {
    let mut cluster = Cluster::start();
    let traced = [("traceparent", TRACEPARENT)];

    let unauthorized = cluster.request("echo", None, &traced, b"hi");
    assert_eq!(unauthorized.status, 401);
    assert_eq!(
        header(&unauthorized, "x-nebula-trace-id"),
        Some(CALLER_TRACE_ID)
    );

    let unknown = cluster.post_with("nothing-here", "acme", &traced, b"");
    assert_eq!(unknown.status, 404);
    assert_eq!(header(&unknown, "x-nebula-trace-id"), Some(CALLER_TRACE_ID));

    cluster.publish("echo", "echo");
    let no_worker = cluster.post_with("echo", "acme", &traced, b"");
    assert_eq!(no_worker.status, 503);
    assert_eq!(
        header(&no_worker, "x-nebula-trace-id"),
        Some(CALLER_TRACE_ID)
    );
}

#[test]
fn a_replayed_answer_reports_the_trace_that_asked_for_it() {
    let mut cluster = Cluster::start();
    cluster.add_worker(2, 4);
    cluster.publish("echo", "echo");

    let key = ("Idempotency-Key", "traced");
    let first = cluster.post_with("echo", "acme", &[key, ("traceparent", TRACEPARENT)], b"hi");
    assert_eq!(header(&first, "x-nebula-trace-id"), Some(CALLER_TRACE_ID));

    let second = cluster.post_with("echo", "acme", &[key], b"hi");
    assert_eq!(header(&second, "x-nebula-idempotent-replay"), Some("true"));
    let replayed = header(&second, "x-nebula-trace-id").expect("a replay is still a request");
    assert_ne!(replayed, CALLER_TRACE_ID);
}

#[test]
fn a_tenant_over_its_budget_is_told_so_and_told_when_to_return() {
    let mut cluster = Cluster::with_limits(TWO_THEN_NOTHING, Limit::none());
    cluster.add_worker(2, 4);
    cluster.publish("echo", "echo");

    assert_eq!(cluster.post("echo", "acme", b"a").status, 200);
    assert_eq!(cluster.post("echo", "acme", b"b").status, 200);

    let refused = cluster.post("echo", "acme", b"c");
    assert_eq!(refused.status, 429);
    assert_eq!(header(&refused, "x-nebula-fault"), Some("rate_limited"));
    assert_eq!(
        header(&refused, "retry-after"),
        Some("10"),
        "a refusal with no advice on when to come back invites a hot loop"
    );

    cluster.rate_now = 10 * SECOND;
    assert_eq!(cluster.post("echo", "acme", b"d").status, 200);
}

#[test]
fn a_noisy_tenant_does_not_spend_a_quiet_ones_budget() {
    let mut cluster = Cluster::with_limits(TWO_THEN_NOTHING, Limit::none());
    cluster.add_worker(2, 4);
    cluster.publish("echo", "echo");

    for _ in 0..4 {
        cluster.post("echo", "noisy", b"x");
    }
    assert_eq!(cluster.post("echo", "noisy", b"x").status, 429);

    let quiet = cluster.post("echo", "polite", b"x");
    assert_eq!(quiet.status, 200);
    assert_eq!(text(&quiet), "x");
}

#[test]
fn a_refused_request_never_reaches_a_worker() {
    let mut cluster = Cluster::with_limits(TWO_THEN_NOTHING, Limit::none());
    cluster.add_worker(2, 4);

    for _ in 0..2 {
        assert_eq!(cluster.post("never-deployed", "acme", b"x").status, 404);
    }
    let refused = cluster.post("never-deployed", "acme", b"x");
    assert_eq!(refused.status, 429);
    assert_eq!(header(&refused, "x-nebula-fault"), Some("rate_limited"));
}

#[test]
fn deploys_are_limited_far_harder_than_executions() {
    let mut cluster = Cluster::with_limits(
        Limit::none(),
        Limit {
            per_second: 10_000,
            burst: 2_000_000,
        },
    );
    cluster.add_worker(2, 4);

    for n in 0..2 {
        let response = cluster.put(&format!("deploy-{n}"), Some("acme"), None, "echo");
        assert_eq!(response.status, 201);
    }

    let refused = cluster.put("deploy-3", Some("acme"), None, "echo");
    assert_eq!(refused.status, 429);
    assert_eq!(header(&refused, "x-nebula-fault"), Some("rate_limited"));

    // Executions are untouched by the deploy bucket: two limits, two budgets.
    cluster.publish("echo", "echo");
    assert_eq!(cluster.post("echo", "acme", b"x").status, 200);
}

#[test]
fn a_rate_limited_request_still_reports_its_trace() {
    let mut cluster = Cluster::with_limits(
        Limit {
            per_second: 100_000,
            burst: 1_000_000,
        },
        Limit::none(),
    );
    cluster.add_worker(2, 4);
    cluster.publish("echo", "echo");

    cluster.post("echo", "acme", b"x");
    let refused = cluster.post_with("echo", "acme", &[("traceparent", TRACEPARENT)], b"x");

    assert_eq!(refused.status, 429);
    assert_eq!(header(&refused, "x-nebula-trace-id"), Some(CALLER_TRACE_ID));
}

#[test]
fn a_session_carries_state_from_one_request_to_the_next() {
    let mut cluster = Cluster::start();
    for _ in 0..3 {
        cluster.add_worker(2, 4);
    }
    cluster.publish("notepad", "notepad");

    let session = [("X-Nebula-Partition-Key", "chat-1")];
    for (said, held) in [("a", "a"), ("b", "ab"), ("c", "abc")] {
        assert_eq!(
            text(&cluster.post_with("notepad", "acme", &session, said.as_bytes())),
            held
        );
    }
}

#[test]
fn a_second_session_starts_from_nothing() {
    let mut cluster = Cluster::start();
    for _ in 0..3 {
        cluster.add_worker(2, 4);
    }
    cluster.publish("notepad", "notepad");

    cluster.post_with(
        "notepad",
        "acme",
        &[("X-Nebula-Partition-Key", "chat-1")],
        b"private",
    );

    let other = cluster.post_with(
        "notepad",
        "acme",
        &[("X-Nebula-Partition-Key", "chat-2")],
        b"fresh",
    );
    assert_eq!(text(&other), "fresh");

    let unscoped = cluster.post("notepad", "acme", b"anon");
    assert_eq!(text(&unscoped), "anon");
}

#[test]
fn a_malformed_partition_key_is_refused_rather_than_ignored() {
    let mut cluster = Cluster::start();
    cluster.add_worker(2, 4);
    cluster.publish("notepad", "notepad");

    let long = "s".repeat(200);
    for bad in ["", "   ", long.as_str()] {
        let response =
            cluster.post_with("notepad", "acme", &[("X-Nebula-Partition-Key", bad)], b"x");
        assert_eq!(response.status, 400, "key {bad:?} should be refused");
        assert_eq!(
            header(&response, "x-nebula-fault"),
            Some("invalid_partition_key")
        );
    }
}

#[test]
fn sessions_of_one_function_spread_across_workers() {
    let mut cluster = Cluster::start();
    cluster.publish("notepad", "notepad");
    for _ in 0..3 {
        cluster.add_worker(2, 4);
    }

    let mut cold = 0;
    for n in 0..12 {
        let key = format!("chat-{n}");
        let response =
            cluster.post_with("notepad", "acme", &[("X-Nebula-Partition-Key", &key)], b"x");
        assert_eq!(response.status, 200);
        if header(&response, "x-nebula-cold") == Some("true") {
            cold += 1;
        }
    }

    assert!(
        cold > 1,
        "every session landed on one worker, so the partition key is not \
         reaching the ring: {cold} cold start(s) across 3 workers"
    );
    assert!(cold <= 3, "more cold starts than workers: {cold}");
}

const SCHEMA: &str = r#"{"description":"Echoes its input back.","input_schema":{"type":"object","properties":{"text":{"type":"string"}},"required":["text"]}}"#;

#[test]
fn a_described_function_is_listed_for_agents() {
    let mut cluster = Cluster::start();

    let deployed = cluster.put("echo", Some("acme"), Some(SCHEMA), "echo");
    assert_eq!(deployed.status, 201);
    assert!(
        text(&deployed).contains("\"described\":true"),
        "{}",
        text(&deployed)
    );

    let tools = cluster.gateway.tools();
    assert_eq!(tools.len(), 1);
    assert_eq!(tools[0].0, "echo");
    assert_eq!(tools[0].1.description, "Echoes its input back.");
    let schema: serde_json::Value = serde_json::from_str(&tools[0].1.input_schema).expect("json");
    assert_eq!(schema["required"][0], "text");
}

#[test]
fn an_undescribed_function_is_deployed_but_not_advertised() {
    let mut cluster = Cluster::start();

    let deployed = cluster.put("internal", Some("acme"), None, "echo");
    assert_eq!(deployed.status, 201);
    assert!(text(&deployed).contains("\"described\":false"));
    assert!(cluster.gateway.tools().is_empty());
}

#[test]
fn redeploying_without_a_descriptor_clears_the_old_one() {
    let mut cluster = Cluster::start();

    cluster.put("echo", Some("acme"), Some(SCHEMA), "echo");
    cluster.put("echo", Some("acme"), None, "echo");
    assert!(cluster.gateway.tools().is_empty());
}

#[test]
fn an_unusable_descriptor_is_refused_rather_than_dropped() {
    let mut cluster = Cluster::start();

    let long = format!(
        r#"{{"description":"{}","input_schema":{{}}}}"#,
        "x".repeat(20_000)
    );
    for bad in [
        "not json",
        r#"{"input_schema":{}}"#,
        r#"{"description":"   ","input_schema":{}}"#,
        long.as_str(),
    ] {
        let response = cluster.put("echo", Some("acme"), Some(bad), "echo");
        assert_eq!(response.status, 400, "descriptor {bad:.40} was accepted");
        assert_eq!(header(&response, "x-nebula-fault"), Some("invalid_tool"));
    }

    let response = cluster.post("echo", "acme", b"x");
    assert_eq!(response.status, 404);
}

#[test]
fn a_deployment_table_written_before_tools_existed_still_loads() {
    let row = Row {
        id: "legacy".to_string(),
        hash: "abc".to_string(),
        tool: None,
    };
    let loaded = Deployments::restore(DEPLOYMENTS_VERSION, vec![row])
        .ok()
        .expect("a v1 table must still load");
    assert_eq!(loaded.content_hash_of("legacy").as_deref(), Some("abc"));
    assert!(loaded.tools().is_empty());
}

const SECRET: &[u8] = b"a shared secret";

#[test]
fn a_signed_token_names_its_tenant_and_a_bare_one_does_not() {
    let mut cluster = Cluster::authenticated(SECRET);
    cluster.add_worker(2, 4);
    cluster.publish("echo", "echo");

    let token = Auth::signed(SECRET).mint("acme").expect("mint");
    assert_eq!(cluster.post("echo", &token, b"hello").status, 200);

    let bare = cluster.post("echo", "acme", b"hello");
    assert_eq!(bare.status, 401);
    assert_eq!(header(&bare, "x-nebula-fault"), Some("unauthorized"));
}

#[test]
fn one_tenants_token_cannot_be_edited_into_another() {
    let mut cluster = Cluster::authenticated(SECRET);
    cluster.add_worker(2, 4);
    cluster.publish("echo", "echo");

    let token = Auth::signed(SECRET).mint("acme").expect("mint");
    let signature = token.split_once('.').unwrap().1;

    let forged = cluster.post("echo", &format!("globex.{signature}"), b"hello");
    assert_eq!(forged.status, 401);

    let other = Auth::signed(b"rotated").mint("acme").expect("mint");
    assert_eq!(cluster.post("echo", &other, b"hello").status, 401);
}

#[test]
fn deploys_are_authenticated_too() {
    let mut cluster = Cluster::authenticated(SECRET);

    let refused = cluster.put("echo", Some("acme"), None, "echo");
    assert_eq!(refused.status, 401);

    let token = Auth::signed(SECRET).mint("acme").expect("mint");
    let accepted = cluster.put("echo", Some(&token), None, "echo");
    assert_eq!(accepted.status, 201);
}

#[test]
fn a_malformed_tenant_id_is_refused_even_without_signing() {
    let mut cluster = Cluster::start();
    cluster.add_worker(2, 4);
    cluster.publish("echo", "echo");

    for bad in ["has a space", "has.a.dot", &"t".repeat(100)] {
        let response = cluster.post("echo", bad, b"x");
        assert_eq!(response.status, 401, "tenant {bad:?} was accepted");
    }
    assert_eq!(cluster.post("echo", "acme-prod_2", b"x").status, 200);
}

#[test]
fn a_deployed_function_is_already_compiled_before_its_first_request() {
    let mut cluster = Cluster::start();
    cluster.add_worker(2, 4);

    let deployed = cluster.put("sized", Some("acme"), None, "echo sized");
    assert_eq!(deployed.status, 201);

    let first = cluster.post_with("sized", "acme", &[("X-Nebula-Deadline-Ms", "5000")], b"x");
    assert_eq!(first.status, 200);
    assert_eq!(
        header(&first, "x-nebula-cold"),
        Some("false"),
        "the first request compiled the module, so precompilation did not happen"
    );
}

#[test]
fn a_module_that_cannot_compile_is_refused_at_deploy() {
    let mut cluster = Cluster::start();
    cluster.add_worker(2, 4);

    let response = cluster.put("broken", Some("acme"), None, "broken");
    assert_eq!(response.status, 400, "{}", text(&response));
    assert!(
        text(&response).contains("does not compile"),
        "{}",
        text(&response)
    );

    assert_eq!(cluster.post("broken", "acme", b"x").status, 404);
}

#[test]
fn a_deploy_still_succeeds_when_no_worker_can_precompile() {
    let mut cluster = Cluster::start();

    let response = cluster.put("echo", Some("acme"), None, "echo");
    assert_eq!(response.status, 201);
    assert_eq!(cluster.gateway.deployed(), 1);

    cluster.add_node("phantom", Health::Phantom, 1, 1);
    let response = cluster.put("echo-2", Some("acme"), None, "echo");
    assert_eq!(response.status, 201);
}

#[test]
fn deployments_survive_a_control_plane_restart() {
    let mut cluster = Cluster::start();
    cluster.put("echo", Some("acme"), Some(SCHEMA), "echo");
    cluster.put("plain", Some("acme"), None, "echo");

    // What is written to disk, read back.
    let rows = cluster.gateway.table().saved();
    let restored = Deployments::restore(DEPLOYMENTS_VERSION, rows)
        .ok()
        .unwrap();
    let hash = cluster.gateway.content_hash_of("echo");
    let reopened = Gateway::open(restored);
    assert_eq!(reopened.deployed(), 2);
    assert_eq!(reopened.content_hash_of("echo"), hash);
    assert_eq!(reopened.tools().len(), 1);
}

/// Sends `rounds` passes over `functions` distinct function ids.
fn drive(cluster: &mut Cluster, functions: usize, rounds: usize) {
    for round in 0..rounds {
        for n in 0..functions {
            let response = cluster.post(&format!("fn-{n}"), "acme", b"x");
            assert_eq!(response.status, 200, "round {round}, fn-{n}");
            assert_eq!(response.body, b"x");
        }
    }
}

fn compiles(cluster: &Cluster, addresses: &[String]) -> usize {
    addresses
        .iter()
        .map(|address| cluster.nodes[address].cache.cranelift_compiles() as usize)
        .sum()
}

fn lookups(cluster: &Cluster, addresses: &[String]) -> usize {
    addresses
        .iter()
        .map(|address| {
            let cache = &cluster.nodes[address].cache;
            (cache.cranelift_compiles() + cache.l1_hits()) as usize
        })
        .sum()
}

fn owners(cluster: &Cluster, functions: usize) -> Vec<String> {
    (0..functions)
        .map(|n| cluster.membership.route_plan(&format!("fn-{n}"))[0].0.clone())
        .collect()
}

#[test]
fn losing_a_worker_reshuffles_only_its_share_of_the_keyspace() {
    const FUNCTIONS: usize = 100;
    const ROUNDS: usize = 10;
    const LIVENESS: u64 = 300_000_000;

    let mut cluster = Cluster::with_limits(Limit::none(), Limit::none());
    cluster.membership = Membership::new(LIVENESS);
    let mut addresses = Vec::new();
    for n in 0..3 {
        addresses.push(cluster.add_worker(4, 16));
        cluster
            .membership
            .register_at(0, &format!("worker-{n}"), &addresses[n], 1);
    }
    for n in 0..FUNCTIONS {
        let distinct = format!("echo churn {n}");
        cluster
            .try_publish(&format!("fn-{n}"), distinct.as_bytes(), None)
            .ok()
            .expect("publish");
    }

    // Steady state across three workers.
    drive(&mut cluster, FUNCTIONS, ROUNDS);
    let victim = "worker-1".to_string();
    let survivors = [addresses[0].clone(), addresses[2].clone()];
    let compiles_before = compiles(&cluster, &survivors);
    let lookups_before = lookups(&cluster, &survivors);
    let owner_before = owners(&cluster, FUNCTIONS);
    assert_eq!(
        compiles(&cluster, &addresses),
        FUNCTIONS * PRECOMPILE_FANOUT,
        "steady state should compile each function once per ring candidate"
    );

    // One worker dies, and only the others are heard of.
    cluster.nodes.get_mut(&addresses[1]).unwrap().health = Health::Killed;
    let later = LIVENESS + 150_000_000;
    for n in [0, 2] {
        cluster
            .membership
            .heartbeat_at(later, &format!("worker-{n}"), 1, 0, 0, 0);
    }
    assert_eq!(cluster.membership.reconcile_at(later), vec![victim.clone()]);
    assert_eq!(cluster.membership.len(), 2);

    // The same traffic against two workers.
    drive(&mut cluster, FUNCTIONS, ROUNDS);
    let owner_after = owners(&cluster, FUNCTIONS);
    for n in 0..FUNCTIONS {
        if owner_before[n] != victim {
            assert_eq!(owner_after[n], owner_before[n], "fn-{n} moved from a live worker");
        }
    }
    let moved = (0..FUNCTIONS)
        .filter(|n| owner_after[*n] != owner_before[*n])
        .count();
    let recompiles = compiles(&cluster, &survivors) - compiles_before;
    let looked_up = lookups(&cluster, &survivors) - lookups_before;
    let hit_ratio = (looked_up - recompiles) as f64 / looked_up as f64;

    assert_eq!(recompiles, 0, "a moved function had to be recompiled");
    assert!(
        (15..=55).contains(&moved),
        "{moved} functions moved; consistent hashing should shift about a third"
    );
    assert!(hit_ratio >= 0.90, "hit ratio {hit_ratio}");
}

#[test]
fn fifty_functions_spread_across_three_workers_and_stay_put() {
    const FUNCTIONS: usize = 50;
    const ROUNDS: usize = 20;

    let mut cluster = Cluster::with_limits(Limit::none(), Limit::none());
    let mut addresses = Vec::new();
    for _ in 0..3 {
        addresses.push(cluster.add_worker(2, 8));
    }
    // Distinct artifacts: a module is cached by its content, so one shared by
    // all the names would be compiled once per worker wherever requests land.
    for n in 0..FUNCTIONS {
        let distinct = format!("echo unique {n}");
        cluster
            .try_publish(&format!("fn-{n}"), distinct.as_bytes(), None)
            .ok()
            .expect("publish");
    }
    let owner_before = owners(&cluster, FUNCTIONS);
    drive(&mut cluster, FUNCTIONS, ROUNDS);
    assert_eq!(owners(&cluster, FUNCTIONS), owner_before);

    let per_worker: Vec<usize> = addresses
        .iter()
        .map(|address| cluster.nodes[address].cache.l1_hits() as usize)
        .collect();
    let hits: usize = per_worker.iter().sum();
    let total = FUNCTIONS * ROUNDS;
    assert_eq!(
        compiles(&cluster, &addresses),
        FUNCTIONS * PRECOMPILE_FANOUT,
        "a function compiled more often than its ring candidates means it moved"
    );
    assert_eq!(hits, total);
    let hit_ratio = hits as f64 / total as f64;
    assert!(hit_ratio >= 0.95, "hit ratio {hit_ratio}");
    for (address, served) in addresses.iter().zip(&per_worker) {
        let share = *served as f64 / total as f64;
        assert!(share > 0.10, "{address} served only {share}");
        assert!(share < 0.60, "{address} served {share}");
    }
}

#[test]
fn deploying_a_guest_with_an_initializer_pre_initializes_it() {
    let (artifact, wizened) = prepared(b"raw".to_vec(), Ok(b"initialized".to_vec()))
        .ok()
        .unwrap();
    assert_eq!(artifact, b"initialized");
    assert!(wizened);

    let (artifact, wizened) = prepared(b"raw".to_vec(), Err(WizerError::Unavailable))
        .ok()
        .unwrap();
    assert_eq!(artifact, b"raw");
    assert!(!wizened);
}

#[test]
fn a_refused_deploy_names_its_cause() {
    let refused = |why| {
        let response = publish_answer(Err(why)).into_response();
        (
            response.status,
            header(&response, "x-nebula-fault").unwrap().to_string(),
            text(&response),
        )
    };
    let said = |status, kind: &str, detail: &str| (status, kind.to_string(), detail.to_string());
    assert_eq!(
        refused(PublishError::InvalidId),
        said(400, "invalid_function_id", "function id must be 1..=128 bytes")
    );
    assert_eq!(
        refused(PublishError::Wizer("boom".to_string())),
        said(400, "initializer_failed", "pre-initialization failed: boom")
    );
    assert_eq!(
        refused(PublishError::InvalidTool("no".to_string())),
        said(400, "invalid_tool", "x-nebula-tool-schema is unusable: no")
    );
    assert_eq!(
        refused(PublishError::NotCompiled("bad".to_string())),
        said(400, "not_compiled", "the module does not compile: bad")
    );
    assert_eq!(
        refused(PublishError::Io("disk full".to_string())),
        said(500, "deploy_failed", "deploy failed")
    );
    assert!(matches!(
        preparation(&"f".repeat(129), b""),
        Err(PublishError::InvalidId)
    ));
    assert!(matches!(preparation("", b""), Err(PublishError::InvalidId)));
    assert!(matches!(preparation(&"f".repeat(128), b""), Ok(false)));

    match prepared(b"raw".to_vec(), Err(WizerError::Failed("x".to_string()))) {
        Err(PublishError::Wizer(detail)) => assert_eq!(detail, "x"),
        _ => panic!("expected a refusal"),
    }
    match prepared(b"raw".to_vec(), Err(WizerError::Io("x".to_string()))) {
        Err(PublishError::Io(why)) => assert_eq!(why, "wizer could not be run: x"),
        _ => panic!("expected a refusal"),
    }
    match tool_schema_of(&Some(b"caf\xc3\xa9".to_vec())) {
        Err(PublishError::InvalidTool(why)) => assert_eq!(why, "not printable ASCII"),
        _ => panic!("expected a refusal"),
    }
}

#[test]
fn a_published_deploy_is_answered_as_json() {
    let response = publish_answer(Ok(Published {
        content_hash: "ab".to_string(),
        wizened: true,
        described: false,
    }))
    .into_response();
    assert_eq!(response.status, 201);
    assert_eq!(
        text(&response),
        r#"{"content_hash":"ab","wizened":true,"described":false}"#
    );
}

/// A binary module with no section but an export of `_initialize`.
fn initializable() -> Vec<u8> {
    let mut wasm = b"\0asm\x01\0\0\0".to_vec();
    wasm.extend_from_slice(&[7, 15, 1, 11]);
    wasm.extend_from_slice(b"_initialize");
    wasm.extend_from_slice(&[0, 0]);
    wasm
}

#[test]
fn a_deploy_goes_through_its_stages_in_order() {
    let cluster = Membership::new(30 * SECOND);
    let mut gateway = Gateway::open(Deployments::new());
    let (deploy, action) = Deploy::begin("heavy", initializable(), None);
    match action {
        Action::Wizen(wasm) => assert_eq!(wasm, initializable()),
        _ => panic!("a module with an initializer is pre-initialized first"),
    }
    let initialized = Event::Initialized(Ok(b"booted".to_vec()));
    let (deploy, action) = deploy.step(initialized, &cluster, &mut gateway);
    let stored = match action {
        Action::Store { hash, artifact } => {
            assert_eq!(artifact, b"booted");
            assert_eq!(hash, named(b"booted").ok().unwrap());
            hash
        }
        _ => panic!("what was pre-initialized is stored"),
    };
    assert_eq!(gateway.deployed(), 0);

    // With no worker to compile ahead, the table is written next.
    let (deploy, action) = deploy.step(Event::Stored(Ok(())), &cluster, &mut gateway);
    assert!(matches!(action, Action::Save));
    assert_eq!(gateway.content_hash_of("heavy"), Some(stored.clone()));

    let (_, action) = deploy.step(Event::Saved(Ok(())), &cluster, &mut gateway);
    match action {
        Action::Finish(Ok(published)) => {
            assert_eq!(published.content_hash, stored);
            assert!(published.wizened);
            assert!(!published.described);
        }
        _ => panic!("a saved deploy is acknowledged"),
    }
}

#[test]
fn a_deploy_that_fails_on_the_way_is_not_recorded() {
    let mut cluster = Membership::new(30 * SECOND);
    cluster.register("worker-0", "127.0.0.1:9000", 1);
    let why = |action: Action| match action {
        Action::Finish(Err(why)) => why.message(),
        _ => panic!("expected the deploy to end"),
    };
    let mut gateway = Gateway::open(Deployments::new());

    let (_, action) = Deploy::begin("", b"x".to_vec(), None);
    assert_eq!(why(action), "function id must be 1..=128 bytes");
    let (_, action) = Deploy::begin("f", vec![b'x'; (32 << 20) + 1], None);
    assert_eq!(why(action), "artifact exceeds the 32 MiB cap");

    let (deploy, _) = Deploy::begin("f", initializable(), None);
    let failed = Event::Initialized(Err(WizerError::Failed("boom".to_string())));
    let (_, action) = deploy.step(failed, &cluster, &mut gateway);
    assert_eq!(why(action), "pre-initialization failed: boom");

    let (deploy, _) = Deploy::begin("f", b"x".to_vec(), None);
    let full = Event::Stored(Err("disk full".to_string()));
    let (_, action) = deploy.step(full, &cluster, &mut gateway);
    assert_eq!(why(action), "disk full");

    let (deploy, _) = Deploy::begin("f", b"x".to_vec(), None);
    let (deploy, action) = deploy.step(Event::Stored(Ok(())), &cluster, &mut gateway);
    match action {
        Action::Precompile { address, .. } => assert_eq!(address, "127.0.0.1:9000"),
        _ => panic!("the worker compiles ahead"),
    }
    let bad = Event::Compiled(Verdict::Refused("no".to_string()));
    let (_, action) = deploy.step(bad, &cluster, &mut gateway);
    assert_eq!(why(action), "the module does not compile: no");
    assert_eq!(gateway.deployed(), 0);

    let (deploy, _) = Deploy::begin("f", b"x".to_vec(), None);
    let (_, action) = deploy.step(Event::Saved(Ok(())), &cluster, &mut gateway);
    assert_eq!(why(action), "the deploy was stepped out of turn");
    assert_eq!(gateway.deployed(), 0);
}

#[test]
fn a_deploy_that_cannot_be_saved_leaves_what_was_there() {
    let cluster = Membership::new(30 * SECOND);
    let mut gateway = Gateway::open(Deployments::new());
    gateway.deploy("old", "h1", None);
    for id in ["old", "new"] {
        let (deploy, _) = Deploy::begin(id, b"x".to_vec(), None);
        let (deploy, action) = deploy.step(Event::Stored(Ok(())), &cluster, &mut gateway);
        assert!(matches!(action, Action::Save));
        assert_eq!(gateway.content_hash_of(id), named(b"x").ok());
        let full = Event::Saved(Err("disk full".to_string()));
        let (_, action) = deploy.step(full, &cluster, &mut gateway);
        match action {
            Action::Finish(Err(why)) => assert_eq!(why.message(), "disk full"),
            _ => panic!("expected the deploy to fail"),
        }
    }
    assert_eq!(gateway.content_hash_of("old").as_deref(), Some("h1"));
    assert_eq!(gateway.content_hash_of("new"), None);
    assert_eq!(gateway.deployed(), 1);
}

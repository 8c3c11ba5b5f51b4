//! Deploying a function: what is refused, what is prepared, what is recorded.
use crate::answer::fault;
use crate::answer::faulted;
use crate::answer::Answer;
use crate::answer::AnswerView;
use crate::gateway::addresses_of;
use crate::gateway::Gateway;
use crate::gateway::GatewayView;
use crate::gateway::PRECOMPILE_FANOUT;
use crate::header::as_text;
use crate::header::header_text;
use crate::header::is_printable;
use crate::membership::Membership;
use crate::membership::MembershipView;
use crate::registry::content_hash_hex;
use crate::registry::deployed_of;
use crate::registry::hash_text;
use crate::registry::spec_is_content_hash;
use crate::registry::Deployed;
use crate::registry::RegistryError;
use crate::registry::Row;
use crate::registry::Tool;
use crate::registry::ToolView;
use crate::registry::MAX_ARTIFACT_BYTES;
use crate::text::texts;
use crate::text::trim;
use crate::text::trimmed;
use crate::wizer::is_binary;
use crate::wizer::module_parts;
use crate::wizer::parts_say;
use crate::wizer::should_wizen;
use crate::wizer::WizerError;
use vstd::prelude::*;
use vstd::slice::slice_to_vec;
use vstd::string::StringExecFns;
use vstd::utf8::encode_utf8;

verus! {

/// Bound on a caller-supplied function id. It is a map key and a ring key, not
/// a path, and still a bound.
pub const MAX_FUNCTION_ID_BYTES: usize = 128;

/// Describes a deployed function to an agent.
pub const TOOL_SCHEMA_HEADER: &'static str = "x-nebula-tool-schema";

/// Bound on a tool descriptor: 16 KiB.
pub const MAX_TOOL_SCHEMA_BYTES: usize = 0x4000;

/// The result of a successful deploy.
pub struct Published {
    pub content_hash: String,
    /// Whether the artifact was pre-initialized.
    pub wizened: bool,
    /// Whether a tool descriptor came with it.
    pub described: bool,
}

pub struct PublishedView {
    pub content_hash: Seq<char>,
    pub wizened: bool,
    pub described: bool,
}

impl View for Published {
    type V = PublishedView;

    open spec fn view(&self) -> PublishedView {
        PublishedView {
            content_hash: self.content_hash@,
            wizened: self.wizened,
            described: self.described,
        }
    }
}

pub enum PublishError {
    InvalidId,
    /// The caller's module failed its own initializer.
    Wizer(String),
    /// The tool descriptor was not usable.
    InvalidTool(String),
    /// A worker tried to compile the module and could not.
    NotCompiled(String),
    /// Something of the control plane's own failed.
    Io(String),
}

pub enum PublishErrorView {
    InvalidId,
    Wizer(Seq<char>),
    InvalidTool(Seq<char>),
    NotCompiled(Seq<char>),
    Io(Seq<char>),
}

impl View for PublishError {
    type V = PublishErrorView;

    open spec fn view(&self) -> PublishErrorView {
        match self {
            PublishError::InvalidId => PublishErrorView::InvalidId,
            PublishError::Wizer(detail) => PublishErrorView::Wizer(detail@),
            PublishError::InvalidTool(detail) => PublishErrorView::InvalidTool(detail@),
            PublishError::NotCompiled(detail) => PublishErrorView::NotCompiled(detail@),
            PublishError::Io(why) => PublishErrorView::Io(why@),
        }
    }
}

impl PublishError {
    pub open spec fn spec_message(self) -> Seq<char> {
        match self {
            PublishError::InvalidId => "function id must be 1..=128 bytes"@,
            PublishError::Wizer(detail) => "pre-initialization failed: "@ + detail@,
            PublishError::InvalidTool(detail) => "x-nebula-tool-schema is unusable: "@ + detail@,
            PublishError::NotCompiled(detail) => "the module does not compile: "@ + detail@,
            PublishError::Io(why) => why@,
        }
    }

    pub fn message(&self) -> (out: String)
        ensures
            out@ == self.spec_message(),
    {
        match self {
            PublishError::InvalidId => String::from_str("function id must be 1..=128 bytes"),
            PublishError::Wizer(detail) => {
                let mut out = String::from_str("pre-initialization failed: ");
                out.append(detail.as_str());
                out
            },
            PublishError::InvalidTool(detail) => {
                let mut out = String::from_str("x-nebula-tool-schema is unusable: ");
                out.append(detail.as_str());
                out
            },
            PublishError::NotCompiled(detail) => {
                let mut out = String::from_str("the module does not compile: ");
                out.append(detail.as_str());
                out
            },
            PublishError::Io(why) => why.clone(),
        }
    }
}

/// What a tool header holds: nothing if it is absent. One that is present and
/// unusable is an error, because quietly deploying the function undescribed
/// would look like success.
pub open spec fn schema_in(raw: Option<Seq<u8>>) -> Result<Option<Seq<char>>, Seq<char>> {
    match raw {
        None => Ok(None),
        Some(raw) => if !is_printable(raw) {
            Err("not printable ASCII"@)
        } else if raw.len() > MAX_TOOL_SCHEMA_BYTES {
            Err("longer than 16384 bytes"@)
        } else {
            Ok(Some(as_text(raw)))
        },
    }
}

/// Reads the text of a tool header.
pub fn tool_schema_of(raw: &Option<Vec<u8>>) -> (out: Result<Option<String>, PublishError>)
    ensures
        match (schema_in(crate::gateway::bytes_of(*raw)), out) {
            (Ok(want), Ok(got)) => crate::proto::text_of(got) == want,
            (Err(why), Err(PublishError::InvalidTool(said))) => said@ == why,
            _ => false,
        },
{
    let raw = match raw {
        Some(raw) => raw,
        None => {
            return Ok(None);
        },
    };
    let text = match header_text(raw) {
        Some(text) => text,
        None => {
            return Err(PublishError::InvalidTool(String::from_str("not printable ASCII")));
        },
    };
    if raw.len() > MAX_TOOL_SCHEMA_BYTES {
        return Err(PublishError::InvalidTool(String::from_str("longer than 16384 bytes")));
    }
    Ok(Some(text))
}

/// Takes a descriptor that parsed, or what was wrong with one that did not. The
/// description decides whether a model calls the tool correctly, or at all: a
/// blank one describes nothing.
pub fn tool_of(parsed: Result<Tool, String>) -> (out: Result<Tool, PublishError>)
    ensures
        match (parsed, out) {
            (Ok(tool), Ok(kept)) => trim(tool.description@).len() > 0 && kept@ == tool@,
            (Ok(tool), Err(PublishError::InvalidTool(said))) => trim(tool.description@).len() == 0
                && said@ == "`description` must not be empty"@,
            (Err(why), Err(PublishError::InvalidTool(said))) => said@ == why@,
            _ => false,
        },
{
    match parsed {
        Ok(tool) => {
            if trimmed(tool.description.as_str()).as_str().is_empty() {
                Err(
                    PublishError::InvalidTool(
                        String::from_str("`description` must not be empty"),
                    ),
                )
            } else {
                Ok(tool)
            }
        },
        Err(why) => Err(PublishError::InvalidTool(why)),
    }
}

pub open spec fn is_function_id(id: Seq<char>) -> bool {
    1 <= encode_utf8(id).len() <= MAX_FUNCTION_ID_BYTES
}

/// Whether a deploy of `wasm` needs pre-initialization, if its id is usable.
pub fn preparation(function_id: &str, wasm: &[u8]) -> (out: Result<bool, PublishError>)
    ensures
        match out {
            Ok(wizen) => is_function_id(function_id@) && wizen == (is_binary(wasm@) && parts_say(
                module_parts(wasm@),
            )),
            Err(why) => !is_function_id(function_id@) && why is InvalidId,
        },
{
    let size: usize = function_id.as_bytes().len();
    if size == 0 || size > MAX_FUNCTION_ID_BYTES {
        return Err(PublishError::InvalidId);
    }
    Ok(should_wizen(wasm))
}

/// The artifact to store, and whether it is pre-initialized, once running the
/// initializer came to `wizened`.
///
/// A missing tool is an operator's gap and no bad artifact: the module still
/// runs, and pays its boot on every request.
pub fn prepared(wasm: Vec<u8>, wizened: Result<Vec<u8>, WizerError>) -> (out: Result<
    (Vec<u8>, bool),
    PublishError,
>)
    ensures
        match (wizened, out) {
            (Ok(initialized), Ok(got)) => got.0@ == initialized@ && got.1,
            (Err(WizerError::Unavailable), Ok(got)) => got.0@ == wasm@ && !got.1,
            (Err(WizerError::Failed(detail)), Err(PublishError::Wizer(said))) => said@ == detail@,
            (Err(WizerError::Io(why)), Err(PublishError::Io(said))) => said@
                == "wizer could not be run: "@ + why@,
            _ => false,
        },
{
    match wizened {
        Ok(initialized) => Ok((initialized, true)),
        Err(WizerError::Unavailable) => Ok((wasm, false)),
        Err(WizerError::Failed(detail)) => Err(PublishError::Wizer(detail)),
        Err(WizerError::Io(why)) => {
            let other = WizerError::Io(why);
            Err(PublishError::Io(other.message()))
        },
    }
}

/// What became of compiling a module on one worker. Compiling ahead is an
/// optimisation, so a worker that could not be asked stops nothing; a module
/// that does not compile is refused where its owner is there to hear of it.
pub enum Verdict {
    Compiled,
    /// The compiler refused the module.
    Refused(String),
    /// The worker could not be asked.
    Unavailable,
}

/// The workers that compile a deploy ahead: those its requests will go to.
pub fn precompilers(cluster: &Membership, function_id: &str) -> (out: Vec<String>)
    requires
        cluster.wf(),
    ensures
        texts(out@) == addresses_of(cluster@.route_plan(function_id@)),
{
    let route = cluster.route_plan(function_id);
    let ghost plan = route@.map_values(|p: (String, String)| (p.0@, p.1@));
    let mut out: Vec<String> = Vec::new();
    let mut i: usize = 0;
    while i < route.len() && i < PRECOMPILE_FANOUT
        invariant
            i <= route@.len(),
            i <= PRECOMPILE_FANOUT,
            plan == route@.map_values(|p: (String, String)| (p.0@, p.1@)),
            out@.len() == i,
            forall|k: int| 0 <= k < i ==> (#[trigger] out@[k])@ == plan[k].1,
        decreases route@.len() - i,
    {
        out.push(route[i].1.clone());
        i += 1;
    }
    assert(texts(out@) =~= addresses_of(plan));
    out
}

/// The name an artifact will have, if it may be stored.
pub fn named(artifact: &[u8]) -> (out: Result<String, PublishError>)
    ensures
        match out {
            Ok(hash) => artifact@.len() <= MAX_ARTIFACT_BYTES && hash@ == hash_text(artifact@)
                && spec_is_content_hash(hash@),
            Err(PublishError::Io(why)) => artifact@.len() > MAX_ARTIFACT_BYTES && why@
                == RegistryError::TooLarge.spec_message(),
            Err(_) => false,
        },
{
    if artifact.len() > MAX_ARTIFACT_BYTES {
        Err(PublishError::Io(RegistryError::TooLarge.message().to_owned()))
    } else {
        Ok(content_hash_hex(artifact))
    }
}

/// The gateway once a function points at an artifact.
pub open spec fn recorded(
    gateway: GatewayView,
    id: Seq<char>,
    hash: Seq<char>,
    tool: Option<ToolView>,
) -> GatewayView {
    GatewayView { table: gateway.table.insert(id, Deployed { hash, tool }), ..gateway }
}

/// The gateway once a function is again what it was.
pub open spec fn undone(
    gateway: GatewayView,
    id: Seq<char>,
    previous: Option<Deployed>,
) -> GatewayView {
    GatewayView {
        table: match previous {
            Some(known) => gateway.table.insert(id, known),
            None => gateway.table.remove(id),
        },
        ..gateway
    }
}

pub open spec fn tool_view(tool: Option<Tool>) -> Option<ToolView> {
    match tool {
        Some(tool) => Some(tool@),
        None => None,
    }
}

/// Records a deploy whose artifact is stored.
pub fn publish_with_tool(
    gateway: &mut Gateway,
    function_id: &str,
    content_hash: String,
    wizened: bool,
    tool: Option<Tool>,
) -> (out: Published)
    requires
        old(gateway).wf(),
    ensures
        final(gateway).wf(),
        final(gateway)@ == recorded(old(gateway)@, function_id@, content_hash@, tool_view(tool)),
        out@ == (PublishedView {
            content_hash: content_hash@,
            wizened,
            described: tool is Some,
        }),
{
    let described = tool.is_some();
    gateway.deploy(function_id, content_hash.as_str(), tool);
    Published { content_hash, wizened, described }
}

/// What the outside answered.
pub enum Event {
    /// Running the initializer came to this.
    Initialized(Result<Vec<u8>, WizerError>),
    /// The artifact was written, or why not.
    Stored(Result<(), String>),
    Compiled(Verdict),
    /// The table was written, or why not.
    Saved(Result<(), String>),
}

/// What to do next.
pub enum Action {
    /// Run the initializer of this module.
    Wizen(Vec<u8>),
    /// Write this artifact under its name.
    Store { hash: String, artifact: Vec<u8> },
    /// Have the worker at this address compile the artifact.
    Precompile { address: String, hash: String },
    /// Write the table: it has the deploy, and nobody was told yet.
    Save,
    Finish(Result<Published, PublishError>),
}

pub enum ActionView {
    Wizen(Seq<u8>),
    Store { hash: Seq<char>, artifact: Seq<u8> },
    Precompile { address: Seq<char>, hash: Seq<char> },
    Save,
    Finish(Result<PublishedView, PublishErrorView>),
}

impl View for Action {
    type V = ActionView;

    open spec fn view(&self) -> ActionView {
        match self {
            Action::Wizen(wasm) => ActionView::Wizen(wasm@),
            Action::Store { hash, artifact } => ActionView::Store {
                hash: hash@,
                artifact: artifact@,
            },
            Action::Precompile { address, hash } => ActionView::Precompile {
                address: address@,
                hash: hash@,
            },
            Action::Save => ActionView::Save,
            Action::Finish(Ok(published)) => ActionView::Finish(Ok(published@)),
            Action::Finish(Err(why)) => ActionView::Finish(Err(why@)),
        }
    }
}

enum Stage {
    Wizening(Vec<u8>),
    Storing { hash: String, wizened: bool },
    Compiling { hash: String, wizened: bool, addresses: Vec<String>, at: usize },
    Saving { hash: String, wizened: bool, previous: Option<Row> },
    Ended,
}

pub enum StageView {
    Wizening(Seq<u8>),
    Storing { hash: Seq<char>, wizened: bool },
    /// `at` is the place of the worker that is being asked.
    Compiling { hash: Seq<char>, wizened: bool, addresses: Seq<Seq<char>>, at: nat },
    /// `previous` is what the function was before this deploy.
    Saving { hash: Seq<char>, wizened: bool, previous: Option<Deployed> },
    Ended,
}

impl View for Stage {
    type V = StageView;

    closed spec fn view(&self) -> StageView {
        match self {
            Stage::Wizening(wasm) => StageView::Wizening(wasm@),
            Stage::Storing { hash, wizened } => StageView::Storing { hash: hash@, wizened: *wizened },
            Stage::Compiling { hash, wizened, addresses, at } => StageView::Compiling {
                hash: hash@,
                wizened: *wizened,
                addresses: texts(addresses@),
                at: *at as nat,
            },
            Stage::Saving { hash, wizened, previous } => StageView::Saving {
                hash: hash@,
                wizened: *wizened,
                previous: match previous {
                    Some(row) => Some(deployed_of(*row)),
                    None => None,
                },
            },
            Stage::Ended => StageView::Ended,
        }
    }
}

/// A deploy in progress: pre-initialized if it asks to be, stored, compiled
/// ahead, recorded and saved, in this order, before its caller is told.
pub struct Deploy {
    function_id: String,
    tool: Option<Tool>,
    stage: Stage,
}

pub struct DeployView {
    pub id: Seq<char>,
    pub tool: Option<ToolView>,
    pub stage: StageView,
}

impl View for Deploy {
    type V = DeployView;

    closed spec fn view(&self) -> DeployView {
        DeployView { id: self.function_id@, tool: tool_view(self.tool), stage: self.stage@ }
    }
}

impl DeployView {
    pub open spec fn wf(self) -> bool {
        self.stage matches StageView::Compiling { addresses, at, .. } ==> at < addresses.len()
    }

    /// The same deploy, over.
    pub open spec fn ended(self) -> DeployView {
        DeployView { stage: StageView::Ended, ..self }
    }

    /// On to storing `artifact`, unless it is too large.
    pub open spec fn storing(self, artifact: Seq<u8>, wizened: bool) -> (DeployView, ActionView) {
        if artifact.len() > MAX_ARTIFACT_BYTES {
            (
                self.ended(),
                ActionView::Finish(
                    Err(PublishErrorView::Io(RegistryError::TooLarge.spec_message())),
                ),
            )
        } else {
            (
                DeployView {
                    stage: StageView::Storing { hash: hash_text(artifact), wizened },
                    ..self
                },
                ActionView::Store { hash: hash_text(artifact), artifact },
            )
        }
    }

    /// On to the worker at place `at`, or to recording once all were asked.
    pub open spec fn compiling(
        self,
        hash: Seq<char>,
        wizened: bool,
        addresses: Seq<Seq<char>>,
        at: nat,
        gateway: GatewayView,
    ) -> (DeployView, GatewayView, ActionView) {
        if at < addresses.len() {
            (
                DeployView {
                    stage: StageView::Compiling { hash, wizened, addresses, at },
                    ..self
                },
                gateway,
                ActionView::Precompile { address: addresses[at as int], hash },
            )
        } else {
            (
                DeployView {
                    stage: StageView::Saving {
                        hash,
                        wizened,
                        previous: if gateway.table.contains_key(self.id) {
                            Some(gateway.table[self.id])
                        } else {
                            None
                        },
                    },
                    ..self
                },
                recorded(gateway, self.id, hash, self.tool),
                ActionView::Save,
            )
        }
    }

    /// Where `event` leads, what it does to the gateway, and what to do next.
    pub open spec fn next(self, event: Event, cluster: MembershipView, gateway: GatewayView) -> (
        DeployView,
        GatewayView,
        ActionView,
    ) {
        let refused = |why: PublishErrorView|
            (self.ended(), gateway, ActionView::Finish(Err(why)));
        match (self.stage, event) {
            (StageView::Wizening(wasm), Event::Initialized(came)) => match came {
                Ok(initialized) => {
                    let (deploy, action) = self.storing(initialized@, true);
                    (deploy, gateway, action)
                },
                Err(WizerError::Unavailable) => {
                    let (deploy, action) = self.storing(wasm, false);
                    (deploy, gateway, action)
                },
                Err(WizerError::Failed(detail)) => refused(PublishErrorView::Wizer(detail@)),
                Err(WizerError::Io(why)) => refused(
                    PublishErrorView::Io("wizer could not be run: "@ + why@),
                ),
            },
            (StageView::Storing { hash, wizened }, Event::Stored(came)) => match came {
                Ok(_) => self.compiling(
                    hash,
                    wizened,
                    addresses_of(cluster.route_plan(self.id)),
                    0,
                    gateway,
                ),
                Err(why) => refused(PublishErrorView::Io(why@)),
            },
            (StageView::Compiling { hash, wizened, addresses, at }, Event::Compiled(verdict)) => {
                match verdict {
                    Verdict::Refused(detail) => refused(PublishErrorView::NotCompiled(detail@)),
                    _ => self.compiling(hash, wizened, addresses, at + 1, gateway),
                }
            },
            (StageView::Saving { hash, wizened, previous }, Event::Saved(came)) => match came {
                Ok(_) => (
                    self.ended(),
                    gateway,
                    ActionView::Finish(
                        Ok(
                            PublishedView {
                                content_hash: hash,
                                wizened,
                                described: self.tool is Some,
                            },
                        ),
                    ),
                ),
                Err(why) => (
                    self.ended(),
                    undone(gateway, self.id, previous),
                    ActionView::Finish(Err(PublishErrorView::Io(why@))),
                ),
            },
            _ => refused(PublishErrorView::Io("the deploy was stepped out of turn"@)),
        }
    }
}

/// How a deploy begins.
pub open spec fn begun(id: Seq<char>, wasm: Seq<u8>, tool: Option<ToolView>) -> (
    DeployView,
    ActionView,
) {
    let fresh = DeployView { id, tool, stage: StageView::Ended };
    if !is_function_id(id) {
        (fresh, ActionView::Finish(Err(PublishErrorView::InvalidId)))
    } else if is_binary(wasm) && parts_say(module_parts(wasm)) {
        (DeployView { stage: StageView::Wizening(wasm), ..fresh }, ActionView::Wizen(wasm))
    } else {
        fresh.storing(wasm, false)
    }
}

impl Deploy {
    fn storing(self, artifact: Vec<u8>, wizened: bool) -> (out: (Deploy, Action))
        ensures
            (out.0@, out.1@) == self@.storing(artifact@, wizened),
            out.0@.wf(),
    {
        match named(&artifact) {
            Ok(hash) => {
                let stage = Stage::Storing { hash: hash.clone(), wizened };
                (
                    Deploy { function_id: self.function_id, tool: self.tool, stage },
                    Action::Store { hash, artifact },
                )
            },
            Err(why) => self.refused(why),
        }
    }

    fn refused(self, why: PublishError) -> (out: (Deploy, Action))
        ensures
            out.0@ == self@.ended(),
            out.1@ == ActionView::Finish(Err(why@)),
    {
        (
            Deploy { function_id: self.function_id, tool: self.tool, stage: Stage::Ended },
            Action::Finish(Err(why)),
        )
    }

    fn compiling(
        self,
        hash: String,
        wizened: bool,
        addresses: Vec<String>,
        at: usize,
        gateway: &mut Gateway,
    ) -> (out: (Deploy, Action))
        requires
            old(gateway).wf(),
        ensures
            final(gateway).wf(),
            (out.0@, final(gateway)@, out.1@) == self@.compiling(
                hash@,
                wizened,
                texts(addresses@),
                at as nat,
                old(gateway)@,
            ),
            out.0@.wf(),
    {
        if at < addresses.len() {
            let address = addresses[at].clone();
            assert(texts(addresses@)[at as int] == address@);
            let stage = Stage::Compiling { hash: hash.clone(), wizened, addresses, at };
            (
                Deploy { function_id: self.function_id, tool: self.tool, stage },
                Action::Precompile { address, hash },
            )
        } else {
            let tool = match &self.tool {
                Some(tool) => Some(tool.clone()),
                None => None,
            };
            let previous = gateway.table().row_of(self.function_id.as_str());
            let published = publish_with_tool(
                gateway,
                self.function_id.as_str(),
                hash,
                wizened,
                tool,
            );
            let stage = Stage::Saving { hash: published.content_hash, wizened, previous };
            (
                Deploy { function_id: self.function_id, tool: self.tool, stage },
                Action::Save,
            )
        }
    }

    /// Begins the deploy of `wasm` under `function_id`.
    pub fn begin(function_id: &str, wasm: Vec<u8>, tool: Option<Tool>) -> (out: (Deploy, Action))
        ensures
            (out.0@, out.1@) == begun(function_id@, wasm@, tool_view(tool)),
            out.0@.wf(),
    {
        let fresh = Deploy { function_id: function_id.to_owned(), tool, stage: Stage::Ended };
        match preparation(function_id, &wasm) {
            Err(why) => fresh.refused(why),
            Ok(true) => {
                let stage = Stage::Wizening(slice_to_vec(&wasm));
                (
                    Deploy { function_id: fresh.function_id, tool: fresh.tool, stage },
                    Action::Wizen(wasm),
                )
            },
            Ok(false) => fresh.storing(wasm, false),
        }
    }

    /// Takes what the outside answered.
    pub fn step(self, event: Event, cluster: &Membership, gateway: &mut Gateway) -> (out: (
        Deploy,
        Action,
    ))
        requires
            self@.wf(),
            cluster.wf(),
            old(gateway).wf(),
        ensures
            final(gateway).wf(),
            (out.0@, final(gateway)@, out.1@) == self@.next(event, cluster@, old(gateway)@),
            out.0@.wf(),
    {
        let Deploy { function_id, tool, stage } = self;
        let rest = Deploy { function_id, tool, stage: Stage::Ended };
        match (stage, event) {
            (Stage::Wizening(wasm), Event::Initialized(came)) => match prepared(wasm, came) {
                Ok((artifact, wizened)) => rest.storing(artifact, wizened),
                Err(why) => rest.refused(why),
            },
            (Stage::Storing { hash, wizened }, Event::Stored(came)) => match came {
                Ok(()) => {
                    let addresses = precompilers(cluster, rest.function_id.as_str());
                    rest.compiling(hash, wizened, addresses, 0, gateway)
                },
                Err(why) => rest.refused(PublishError::Io(why)),
            },
            (Stage::Compiling { hash, wizened, addresses, at }, Event::Compiled(verdict)) => {
                let count: usize = addresses.len();
                assert(at < count);
                match verdict {
                    Verdict::Refused(detail) => rest.refused(PublishError::NotCompiled(detail)),
                    _ => rest.compiling(hash, wizened, addresses, at + 1, gateway),
                }
            },
            (Stage::Saving { hash, wizened, previous }, Event::Saved(came)) => match came {
                Ok(()) => {
                    let described = rest.tool.is_some();
                    (rest, Action::Finish(Ok(Published { content_hash: hash, wizened, described })))
                },
                Err(why) => {
                    match previous {
                        Some(row) => gateway.deploy(
                            rest.function_id.as_str(),
                            row.hash.as_str(),
                            row.tool,
                        ),
                        None => gateway.withdraw(rest.function_id.as_str()),
                    }
                    rest.refused(PublishError::Io(why))
                },
            },
            _ => rest.refused(
                PublishError::Io(String::from_str("the deploy was stepped out of turn")),
            ),
        }
    }
}

/// A truth value, in JSON.
pub open spec fn truth(value: bool) -> Seq<char> {
    if value {
        "true"@
    } else {
        "false"@
    }
}

fn truth_text(value: bool) -> (out: &'static str)
    ensures
        out@ == truth(value),
{
    if value {
        "true"
    } else {
        "false"
    }
}

/// What a deployer is told. The hash is hexadecimal and the flags are truth
/// values, so there is nothing to escape.
pub open spec fn published_text(published: Published) -> Seq<char> {
    "{\"content_hash\":\""@ + published.content_hash@ + "\",\"wizened\":"@ + truth(
        published.wizened,
    ) + ",\"described\":"@ + truth(published.described) + "}"@
}

/// The answer to a deploy. A bad artifact is the caller's to fix, and only the
/// caller can; the control plane's own failures stay opaque.
pub open spec fn publish_answered(result: Result<Published, PublishError>) -> AnswerView {
    match result {
        Ok(published) => AnswerView {
            status: 201,
            fault: None,
            body: encode_utf8(published_text(published)),
            cold: None,
            exec_micros: None,
            deadline_ms: None,
            replayed: false,
            trace_id: None,
            retry_after: None,
        },
        Err(why) => match why {
            PublishError::InvalidId => faulted(400, "invalid_function_id"@, why.spec_message()),
            PublishError::Wizer(_) => faulted(400, "initializer_failed"@, why.spec_message()),
            PublishError::InvalidTool(_) => faulted(400, "invalid_tool"@, why.spec_message()),
            PublishError::NotCompiled(_) => faulted(400, "not_compiled"@, why.spec_message()),
            PublishError::Io(_) => faulted(500, "deploy_failed"@, "deploy failed"@),
        },
    }
}

pub fn publish_answer(result: Result<Published, PublishError>) -> (out: Answer)
    ensures
        out@ == publish_answered(result),
{
    match result {
        Ok(published) => {
            let mut text = String::from_str("{\"content_hash\":\"");
            text.append(published.content_hash.as_str());
            text.append("\",\"wizened\":");
            text.append(truth_text(published.wizened));
            text.append(",\"described\":");
            text.append(truth_text(published.described));
            text.append("}");
            Answer {
                status: 201,
                fault: None,
                body: slice_to_vec(text.as_str().as_bytes()),
                cold: None,
                exec_micros: None,
                deadline_ms: None,
                replayed: false,
                trace_id: None,
                retry_after: None,
            }
        },
        Err(why) => {
            let message = why.message();
            match why {
                PublishError::InvalidId => fault(400, "invalid_function_id", message.as_str()),
                PublishError::Wizer(_) => fault(400, "initializer_failed", message.as_str()),
                PublishError::InvalidTool(_) => fault(400, "invalid_tool", message.as_str()),
                PublishError::NotCompiled(_) => fault(400, "not_compiled", message.as_str()),
                PublishError::Io(_) => fault(500, "deploy_failed", "deploy failed"),
            }
        },
    }
}

/// The table changes only where a deploy is recorded, and where one that could
/// not be saved is taken back; and it changes for this function alone. A deploy
/// that was refused before has changed nothing.
pub proof fn law_a_refused_deploy_changes_nothing(
    deploy: DeployView,
    event: Event,
    cluster: MembershipView,
    gateway: GatewayView,
)
    ensures
        ({
            let (after, changed, action) = deploy.next(event, cluster, gateway);
            &&& changed != gateway ==> action is Save || deploy.stage is Saving
            &&& action is Finish && !(deploy.stage is Saving) ==> changed == gateway
            &&& action is Finish ==> after == deploy.ended()
            &&& changed == (GatewayView { table: changed.table, ..gateway })
            &&& changed.table.remove(deploy.id) == gateway.table.remove(deploy.id)
        }),
{
    let (after, changed, action) = deploy.next(event, cluster, gateway);
    assert(changed.table.remove(deploy.id) =~= gateway.table.remove(deploy.id));
}

/// A deploy whose table could not be written leaves the gateway as it was before
/// the deploy was recorded, so that the file never disagrees with the table.
pub proof fn law_a_deploy_that_cannot_be_saved_is_taken_back(
    deploy: DeployView,
    event: Event,
    cluster: MembershipView,
    gateway: GatewayView,
    why: String,
)
    requires
        deploy.next(event, cluster, gateway).2 is Save,
    ensures
        ({
            let (saving, table, _) = deploy.next(event, cluster, gateway);
            let (after, changed, action) = saving.next(Event::Saved(Err(why)), cluster, table);
            &&& changed == gateway
            &&& action == ActionView::Finish(Err(PublishErrorView::Io(why@)))
            &&& after == deploy.ended()
        }),
{
    let (saving, table, _) = deploy.next(event, cluster, gateway);
    let (after, changed, action) = saving.next(Event::Saved(Err(why)), cluster, table);
    assert(changed.table =~= gateway.table);
}

/// A caller is told that a function is deployed only once the table that says
/// so has been written, and is told the hash that was stored.
pub proof fn law_a_deploy_is_saved_before_it_is_acknowledged(
    deploy: DeployView,
    event: Event,
    cluster: MembershipView,
    gateway: GatewayView,
)
    ensures
        deploy.next(event, cluster, gateway).2 matches ActionView::Finish(Ok(published)) ==> {
            &&& deploy.stage matches StageView::Saving { hash, .. } && published.content_hash == hash
            &&& event matches Event::Saved(Ok(_))
        },
        deploy.next(event, cluster, gateway).0.stage matches StageView::Saving { hash, .. } ==> {
            let table = deploy.next(event, cluster, gateway).1.table;
            table.contains_key(deploy.id) && table[deploy.id].hash == hash
        },
{
}

/// A module that a worker cannot compile is refused, with the compiler's words;
/// a worker that cannot be asked refuses nothing.
pub proof fn law_a_module_that_does_not_compile_is_refused(
    deploy: DeployView,
    verdict: Verdict,
    cluster: MembershipView,
    gateway: GatewayView,
)
    requires
        deploy.stage is Compiling,
    ensures
        ({
            let (after, changed, action) = deploy.next(Event::Compiled(verdict), cluster, gateway);
            match verdict {
                Verdict::Refused(detail) => action == ActionView::Finish(
                    Err(PublishErrorView::NotCompiled(detail@)),
                ) && changed == gateway,
                _ => action is Precompile || action is Save,
            }
        }),
{
}

/// A deploy that is refused names its cause, and whose fault it is.
pub proof fn law_a_refused_deploy_names_its_cause(result: Result<Published, PublishError>)
    ensures
        publish_answered(result).fault is None <==> result is Ok,
        publish_answered(result).status == 500 <==> (result matches Err(why) && why is Io),
{
}

/// A tool header is handed on whole, and one that is not text or is longer than
/// sixteen kibibytes is refused.
pub proof fn law_a_tool_header_is_whole_or_refused(raw: Seq<u8>)
    ensures
        schema_in(None) == Ok::<Option<Seq<char>>, Seq<char>>(None),
        schema_in(Some(raw)) is Ok <==> is_printable(raw) && raw.len() <= 16384,
        schema_in(Some(raw)) is Ok ==> schema_in(Some(raw))->Ok_0 == Some(as_text(raw)),
{
}

/// A function may be called anything of one to a hundred and twenty-eight bytes.
pub proof fn law_an_id_has_at_most_128_bytes(id: Seq<char>)
    ensures
        is_function_id(id) <==> encode_utf8(id).len() > 0 && encode_utf8(id).len() <= 128,
{
}

/// A deploy begins with its whole module: with running its initializer where a
/// binary module exports one, and else with storing the module as it came, under
/// the hash of all of it. One under a bad id does not begin, and one of more than
/// thirty-two mebibytes is not stored.
pub proof fn law_a_deploy_begins_with_the_whole_module(
    id: Seq<char>,
    wasm: Seq<u8>,
    tool: Option<ToolView>,
)
    ensures
        ({
            let (deploy, action) = begun(id, wasm, tool);
            let wizen = is_binary(wasm) && parts_say(module_parts(wasm));
            &&& deploy.id == id && deploy.tool == tool
            &&& !is_function_id(id) ==> action == ActionView::Finish(
                Err::<PublishedView, PublishErrorView>(PublishErrorView::InvalidId),
            )
            &&& is_function_id(id) && wizen ==> action == ActionView::Wizen(wasm) && deploy.stage
                == StageView::Wizening(wasm)
            &&& is_function_id(id) && !wizen && wasm.len() <= 33_554_432 ==> {
                &&& action == (ActionView::Store { hash: hash_text(wasm), artifact: wasm })
                &&& deploy.stage == (StageView::Storing { hash: hash_text(wasm), wizened: false })
            }
            &&& is_function_id(id) && !wizen && wasm.len() > 33_554_432 ==> action is Finish
                && action->Finish_0 is Err && deploy.stage is Ended
        }),
{
}

/// What the initializer made is stored in place of the module; without the tool
/// that runs it the module is stored as it came; and one whose initializer failed
/// is refused with all that was said of it.
pub proof fn law_what_was_initialized_is_stored(
    deploy: DeployView,
    wasm: Seq<u8>,
    came: Result<Vec<u8>, WizerError>,
    cluster: MembershipView,
    gateway: GatewayView,
)
    requires
        deploy.stage == StageView::Wizening(wasm),
    ensures
        ({
            let (after, changed, action) = deploy.next(
                Event::Initialized(came),
                cluster,
                gateway,
            );
            &&& changed == gateway
            &&& after.id == deploy.id && after.tool == deploy.tool
            &&& came matches Ok(made) ==> (made@.len() <= 33_554_432 ==> action
                == (ActionView::Store { hash: hash_text(made@), artifact: made@ }) && after.stage
                == (StageView::Storing { hash: hash_text(made@), wizened: true }))
            &&& came matches Err(WizerError::Unavailable) ==> (wasm.len() <= 33_554_432 ==> action
                == (ActionView::Store { hash: hash_text(wasm), artifact: wasm }) && after.stage
                == (StageView::Storing { hash: hash_text(wasm), wizened: false }))
            &&& came matches Err(WizerError::Failed(detail)) ==> action == ActionView::Finish(
                Err::<PublishedView, PublishErrorView>(PublishErrorView::Wizer(detail@)),
            )
            &&& came matches Err(WizerError::Io(_)) ==> action is Finish && action->Finish_0 is Err
                && action->Finish_0->Err_0 is Io
        }),
{
}

/// Once the artifact is stored, the first two workers of the function's plan are
/// asked to compile it, one after the other, and then the function points at it.
pub proof fn law_a_stored_deploy_is_compiled_and_recorded(
    deploy: DeployView,
    hash: Seq<char>,
    wizened: bool,
    cluster: MembershipView,
    gateway: GatewayView,
)
    requires
        deploy.stage == (StageView::Storing { hash, wizened }),
    ensures
        ({
            let (after, changed, action) = deploy.next(Event::Stored(Ok(())), cluster, gateway);
            let plan = cluster.route_plan(deploy.id);
            &&& after.id == deploy.id && after.tool == deploy.tool
            &&& plan.len() > 0 ==> {
                &&& action == (ActionView::Precompile { address: plan[0].1, hash })
                &&& changed == gateway
                &&& after.stage is Compiling
                &&& after.stage->Compiling_hash == hash && after.stage->Compiling_wizened == wizened
                &&& after.stage->at == 0
                &&& after.stage->addresses.len() == (if plan.len() == 1 {
                    1int
                } else {
                    2
                })
                &&& after.stage->addresses[0] == plan[0].1
                &&& plan.len() > 1 ==> after.stage->addresses[1] == plan[1].1
            }
            &&& plan.len() == 0 ==> action is Save && points_at(
                gateway,
                changed,
                deploy.id,
                hash,
                deploy.tool,
            )
        }),
{
    let (after, changed, action) = deploy.next(Event::Stored(Ok(())), cluster, gateway);
    if cluster.route_plan(deploy.id).len() == 0 {
        lemma_points_at(gateway, deploy.id, hash, deploy.tool);
    }
}

/// Whether `after` is `before` with one function pointed at an artifact, described
/// as given, and nothing else changed.
pub open spec fn points_at(
    before: GatewayView,
    after: GatewayView,
    id: Seq<char>,
    hash: Seq<char>,
    tool: Option<ToolView>,
) -> bool {
    &&& after.table.contains_key(id)
    &&& after.table[id].hash == hash
    &&& after.table[id].tool == tool
    &&& after.table.remove(id) == before.table.remove(id)
    &&& after.auth == before.auth && after.store == before.store
    &&& after.execute == before.execute && after.deploy == before.deploy
}

proof fn lemma_points_at(
    gateway: GatewayView,
    id: Seq<char>,
    hash: Seq<char>,
    tool: Option<ToolView>,
)
    ensures
        points_at(gateway, recorded(gateway, id, hash, tool), id, hash, tool),
{
    assert(recorded(gateway, id, hash, tool).table.remove(id) =~= gateway.table.remove(id));
}

/// A worker that compiled the module, or could not be asked, hands over to the next;
/// after the last of them the function points at what was stored, and nothing else
/// changes.
pub proof fn law_every_worker_is_asked_in_turn(
    deploy: DeployView,
    verdict: Verdict,
    cluster: MembershipView,
    gateway: GatewayView,
)
    requires
        deploy.stage is Compiling,
        !(verdict is Refused),
    ensures
        ({
            let (after, changed, action) = deploy.next(Event::Compiled(verdict), cluster, gateway);
            let hash = deploy.stage->Compiling_hash;
            let addresses = deploy.stage->addresses;
            let next = deploy.stage->at + 1;
            &&& after.id == deploy.id && after.tool == deploy.tool
            &&& next < addresses.len() ==> {
                &&& action == (ActionView::Precompile { address: addresses[next as int], hash })
                &&& changed == gateway
                &&& after.stage == (StageView::Compiling {
                    hash,
                    wizened: deploy.stage->Compiling_wizened,
                    addresses,
                    at: next,
                })
            }
            &&& next >= addresses.len() ==> {
                &&& action is Save
                &&& points_at(gateway, changed, deploy.id, hash, deploy.tool)
                &&& after.stage is Saving
                &&& after.stage->Saving_hash == hash
                &&& after.stage->Saving_wizened == deploy.stage->Compiling_wizened
            }
        }),
{
    let hash = deploy.stage->Compiling_hash;
    lemma_points_at(gateway, deploy.id, hash, deploy.tool);
}

/// A deploy that was saved is told as it was made: the hash that was stored, whether
/// it was pre-initialized, and whether it is described.
pub proof fn law_a_saved_deploy_is_told_as_made(
    deploy: DeployView,
    cluster: MembershipView,
    gateway: GatewayView,
)
    requires
        deploy.stage is Saving,
    ensures
        ({
            let (after, changed, action) = deploy.next(Event::Saved(Ok(())), cluster, gateway);
            &&& changed == gateway
            &&& after.stage is Ended
            &&& action == ActionView::Finish(
                Ok::<PublishedView, PublishErrorView>(
                    PublishedView {
                        content_hash: deploy.stage->Saving_hash,
                        wizened: deploy.stage->Saving_wizened,
                        described: deploy.tool is Some,
                    },
                ),
            )
        }),
{
}

/// A step of a deploy that failed outside is told with all that was said of it.
pub proof fn law_a_failed_step_is_told_in_full(
    deploy: DeployView,
    why: String,
    cluster: MembershipView,
    gateway: GatewayView,
)
    ensures
        ({
            let told = ActionView::Finish(
                Err::<PublishedView, PublishErrorView>(PublishErrorView::Io(why@)),
            );
            &&& deploy.stage is Storing ==> deploy.next(
                Event::Stored(Err(why)),
                cluster,
                gateway,
            ).2 == told
            &&& deploy.stage is Saving ==> deploy.next(Event::Saved(Err(why)), cluster, gateway).2
                == told
        }),
{
}

/// A deployer is answered with 201 and what was deployed; with 400 and the whole
/// reason where the deploy is theirs to mend; and with 500 and no reason where it
/// is not.
#[verifier::rlimit(40)]
pub proof fn law_a_deployer_is_answered_in_full(result: Result<Published, PublishError>)
    ensures
        ({
            let answer = publish_answered(result);
            let said = (answer.status, answer.fault);
            match result {
                Ok(made) => {
                    &&& said == (201u16, None::<Seq<char>>)
                    &&& answer.body == encode_utf8(
                        seq!['{'] + "\"content_hash\":\""@ + made.content_hash@ + seq!['"', ',']
                            + "\"wizened\":"@ + (if made.wizened {
                            "true"@
                        } else {
                            "false"@
                        }) + seq![','] + "\"described\":"@ + (if made.described {
                            "true"@
                        } else {
                            "false"@
                        }) + seq!['}'],
                    )
                },
                Err(PublishError::InvalidId) => said == (400u16, Some("invalid_function_id"@)),
                Err(PublishError::Wizer(detail)) => said == (400u16, Some("initializer_failed"@))
                    && answer.body == encode_utf8("pre-initialization failed: "@ + detail@),
                Err(PublishError::InvalidTool(detail)) => said == (400u16, Some("invalid_tool"@))
                    && answer.body == encode_utf8("x-nebula-tool-schema is unusable: "@ + detail@),
                Err(PublishError::NotCompiled(detail)) => said == (400u16, Some("not_compiled"@))
                    && answer.body == encode_utf8("the module does not compile: "@ + detail@),
                Err(PublishError::Io(_)) => said == (500u16, Some("deploy_failed"@)) && answer.body
                    == encode_utf8("deploy failed"@),
            }
        }),
{
    if let Ok(made) = result {
        reveal_strlit("{\"content_hash\":\"");
        reveal_strlit("\"content_hash\":\"");
        reveal_strlit("\",\"wizened\":");
        reveal_strlit("\"wizened\":");
        reveal_strlit(",\"described\":");
        reveal_strlit("\"described\":");
        reveal_strlit("}");
        let wizened = truth(made.wizened);
        let described = truth(made.described);
        assert("{\"content_hash\":\""@ =~= seq!['{'] + "\"content_hash\":\""@);
        assert("\",\"wizened\":"@ =~= seq!['"', ','] + "\"wizened\":"@);
        assert(",\"described\":"@ =~= seq![','] + "\"described\":"@);
        assert("}"@ =~= seq!['}']);
        assert(published_text(made) =~= seq!['{'] + "\"content_hash\":\""@ + made.content_hash@
            + seq!['"', ','] + "\"wizened\":"@ + wizened + seq![','] + "\"described\":"@ + described
            + seq!['}']);
    }
}

/// What was deployed is seen whole.
pub proof fn law_what_was_deployed_is_seen_whole(published: Published, tool: Option<Tool>)
    ensures
        published@.content_hash == published.content_hash@,
        published@.wizened == published.wizened && published@.described == published.described,
        tool is Some <==> tool_view(tool) is Some,
        tool is Some ==> tool_view(tool)->0 == tool->0@,
{
}

} // verus!

//! The control service: registration, heartbeats, and handing out artifacts.
use crate::membership::Membership;
use crate::membership::HEARTBEAT_INTERVAL;
use crate::proto::ChunkView;
use crate::proto::Code;
use crate::proto::HeartbeatRequest;
use crate::proto::HeartbeatResponse;
use crate::proto::ModuleChunk;
use crate::proto::RegisterRequest;
use crate::proto::RegisterResponse;
use crate::proto::Status;
use crate::registry::file_name;
use crate::registry::joined;
use crate::registry::spec_is_content_hash;
use crate::registry::Registry;
use crate::registry::CHUNK_BYTES;
use vstd::prelude::*;
use vstd::slice::slice_subrange;
use vstd::slice::slice_to_vec;

verus! {

pub struct ControlService {
    pub membership: Membership,
    pub registry: Registry,
}

/// Chunks as the values they are.
pub open spec fn chunk_views(list: Seq<ModuleChunk>) -> Seq<ChunkView> {
    list.map_values(|chunk: ModuleChunk| chunk@)
}

/// The pieces of an artifact from `at` on. There is always a last one, empty if
/// need be, because a receiver waits for it.
pub open spec fn chunks_from(artifact: Seq<u8>, at: nat) -> Seq<ChunkView>
    decreases artifact.len() - at,
{
    if artifact.len() <= at + CHUNK_BYTES {
        seq![ChunkView { data: artifact.skip(at as int), offset: at as u64, last: true }]
    } else {
        seq![
            ChunkView {
                data: artifact.subrange(at as int, at + CHUNK_BYTES),
                offset: at as u64,
                last: false,
            },
        ] + chunks_from(artifact, at + CHUNK_BYTES as nat)
    }
}

/// Cuts an artifact into the pieces it travels in.
pub fn module_chunks(artifact: &[u8]) -> (out: Vec<ModuleChunk>)
    ensures
        chunk_views(out@) == chunks_from(artifact@, 0),
{
    let mut out: Vec<ModuleChunk> = Vec::new();
    let mut at: usize = 0;
    let size: usize = artifact.len();
    assert(chunk_views(out@) + chunks_from(artifact@, 0) =~= chunks_from(artifact@, 0));
    while size - at > CHUNK_BYTES
        invariant
            size == artifact@.len(),
            at <= size,
            chunk_views(out@) + chunks_from(artifact@, at as nat) == chunks_from(artifact@, 0),
        decreases size - at,
    {
        let ghost done = chunk_views(out@);
        let data = slice_to_vec(slice_subrange(artifact, at, at + CHUNK_BYTES));
        let chunk = ModuleChunk { data, offset: at as u64, last: false };
        out.push(chunk);
        assert(chunk_views(out@) =~= done.push(chunk@));
        assert(chunk_views(out@) + chunks_from(artifact@, at as nat + CHUNK_BYTES as nat) =~= done
            + chunks_from(artifact@, at as nat));
        at += CHUNK_BYTES;
    }
    let ghost done = chunk_views(out@);
    let data = slice_to_vec(slice_subrange(artifact, at, size));
    assert(data@ =~= artifact@.skip(at as int));
    let chunk = ModuleChunk { data, offset: at as u64, last: true };
    out.push(chunk);
    assert(chunk_views(out@) =~= done.push(chunk@));
    assert(chunk_views(out@) =~= done + chunks_from(artifact@, at as nat));
    out
}

impl ControlService {
    pub open spec fn wf(&self) -> bool {
        self.membership.wf()
    }

    pub fn new(membership: Membership, registry: Registry) -> (out: Self)
        ensures
            out.membership == membership,
            out.registry == registry,
    {
        ControlService { membership, registry }
    }

    /// Puts a worker on the ring, if it says who and where it is.
    pub fn register(&mut self, request: &RegisterRequest) -> (out: Result<RegisterResponse, Status>)
        requires
            old(self).wf(),
        ensures
            final(self).wf(),
            final(self).registry == old(self).registry,
            match out {
                Ok(response) => {
                    &&& request.node_id@.len() > 0 && request.address@.len() > 0
                    &&& response.heartbeat_interval_ms == 500
                    &&& exists|now: u64|
                        final(self).membership@ == #[trigger] old(self).membership@.registered(
                            now,
                            request.node_id@,
                            request.address@,
                            request.generation,
                        )
                },
                Err(status) => {
                    &&& request.node_id@.len() == 0 || request.address@.len() == 0
                    &&& status.is(Code::InvalidArgument, "node_id and address are required"@)
                    &&& final(self).membership == old(self).membership
                },
            },
    {
        if request.node_id.as_str().is_empty() || request.address.as_str().is_empty() {
            return Err(Status::new(Code::InvalidArgument, "node_id and address are required"));
        }
        self.membership.register(
            request.node_id.as_str(),
            request.address.as_str(),
            request.generation,
        );
        Ok(RegisterResponse { heartbeat_interval_ms: (HEARTBEAT_INTERVAL / 1_000_000) as u32 })
    }

    /// Takes a beat. A worker that is not known is told to register again,
    /// which is what follows a restart here and no error.
    pub fn heartbeat(&mut self, request: &HeartbeatRequest) -> (out: HeartbeatResponse)
        requires
            old(self).wf(),
        ensures
            final(self).wf(),
            final(self).registry == old(self).registry,
            out.re_register == !old(self).membership@.recognises(
                request.node_id@,
                request.generation,
            ),
            exists|now: u64|
                final(self).membership@ == #[trigger] old(self).membership@.beaten(
                    now,
                    request.node_id@,
                    request.generation,
                    request.in_flight,
                    request.queue_depth,
                    request.cache_bytes,
                ),
    {
        let known = self.membership.heartbeat(
            request.node_id.as_str(),
            request.generation,
            request.in_flight,
            request.queue_depth,
            request.cache_bytes,
        );
        HeartbeatResponse { re_register: !known }
    }

    /// Where the artifact of `hash` would be. What is no hash is looked for
    /// nowhere: an attempt to leave the directory is an artifact not found.
    pub fn locate(&self, hash: &str) -> (out: Result<String, Status>)
        ensures
            match out {
                Ok(path) => spec_is_content_hash(hash@) && path@ == joined(
                    self.registry.spec_dir(),
                    file_name(hash@),
                ),
                Err(status) => !spec_is_content_hash(hash@) && status.is(
                    Code::NotFound,
                    "unknown content_hash"@,
                ),
            },
    {
        match self.registry.path(hash) {
            Ok(path) => Ok(path),
            Err(_) => Err(Status::new(Code::NotFound, "unknown content_hash")),
        }
    }

    /// Hands out an artifact in pieces. `artifact` is what was read where
    /// [`ControlService::locate`] said, if anything was there.
    pub fn fetch_module(&self, artifact: Option<Vec<u8>>) -> (out: Result<Vec<ModuleChunk>, Status>)
        ensures
            match (artifact, out) {
                (Some(bytes), Ok(list)) => chunk_views(list@) == chunks_from(bytes@, 0),
                (None, Err(status)) => status.is(Code::NotFound, "unknown content_hash"@),
                _ => false,
            },
    {
        match artifact {
            Some(bytes) => Ok(module_chunks(&bytes)),
            None => Err(Status::new(Code::NotFound, "unknown content_hash")),
        }
    }
}

/// The pieces are in order, without gap or overlap, no larger than a chunk, and
/// exactly the final one is marked as the last.
pub proof fn law_chunks_follow_on_from_each_other(artifact: Seq<u8>, at: nat)
    requires
        at <= artifact.len() <= u64::MAX,
    ensures
        ({
            let list = chunks_from(artifact, at);
            &&& list.len() > 0
            &&& list[0].offset == at
            &&& forall|i: int|
                0 <= i < list.len() ==> (#[trigger] list[i]).last == (i == list.len() - 1)
                    && list[i].data.len() <= CHUNK_BYTES
            &&& forall|i: int, j: int|
                #![trigger list[i], list[j]]
                0 <= i < list.len() && j == i + 1 && j < list.len() ==> list[j].offset
                    == list[i].offset + list[i].data.len()
            &&& list.last().offset + list.last().data.len() == artifact.len()
        }),
    decreases artifact.len() - at,
{
    if artifact.len() > at + CHUNK_BYTES {
        let next = at + CHUNK_BYTES as nat;
        law_chunks_follow_on_from_each_other(artifact, next);
        let list = chunks_from(artifact, at);
        let rest = chunks_from(artifact, next);
        assert forall|i: int| 0 < i < list.len() implies #[trigger] list[i] == rest[i - 1] by {}
        assert forall|i: int|
            0 <= i < list.len() implies (#[trigger] list[i]).last == (i == list.len() - 1)
            && list[i].data.len() <= CHUNK_BYTES by {
            if i > 0 {
                assert(list[i] == rest[i - 1]);
            }
        }
        assert forall|i: int, j: int|
            #![trigger list[i], list[j]]
            0 <= i < list.len() && j == i + 1 && j < list.len() implies list[j].offset
            == list[i].offset + list[i].data.len() by {
            assert(list[j] == rest[j - 1]);
            if i > 0 {
                assert(list[i] == rest[i - 1]);
            }
        }
        assert(list.last() == rest.last());
    }
}

/// Each piece is the part of the artifact that begins at its offset, and all but the
/// last are 256 KiB long.
pub proof fn law_each_chunk_is_its_part_of_the_artifact(artifact: Seq<u8>, at: nat, i: int)
    requires
        at <= artifact.len() <= u64::MAX,
        0 <= i < chunks_from(artifact, at).len(),
    ensures
        ({
            let chunk = chunks_from(artifact, at)[i];
            &&& at <= chunk.offset && chunk.offset + chunk.data.len() <= artifact.len()
            &&& chunk.data == artifact.subrange(
                chunk.offset as int,
                chunk.offset + chunk.data.len(),
            )
            &&& !chunk.last ==> chunk.data.len() == 262_144
            &&& chunk.last ==> chunk.offset + chunk.data.len() == artifact.len()
        }),
    decreases artifact.len() - at,
{
    let list = chunks_from(artifact, at);
    if artifact.len() <= at + CHUNK_BYTES {
        assert(list[0].data =~= artifact.subrange(at as int, artifact.len() as int));
    } else if i > 0 {
        let next = at + CHUNK_BYTES as nat;
        law_each_chunk_is_its_part_of_the_artifact(artifact, next, i - 1);
        assert(list[i] == chunks_from(artifact, next)[i - 1]);
    }
}

/// Pieces are seen whole, each in its place.
pub proof fn law_pieces_are_seen_whole(list: Seq<ModuleChunk>, i: int)
    requires
        0 <= i < list.len(),
    ensures
        chunk_views(list).len() == list.len(),
        chunk_views(list)[i].data == list[i].data@,
        chunk_views(list)[i].offset == list[i].offset,
        chunk_views(list)[i].last == list[i].last,
{
}

} // verus!

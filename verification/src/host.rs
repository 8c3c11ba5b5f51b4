//! Host functions, and the single path from a guest pointer to bytes.
//!
//! A guest reaches nothing but what is here. Integer results follow one
//! convention: a count on success, `-1` on refusal. Refusals are conditions a
//! guest can handle; a trap is for a guest that hands over an invalid pointer.
use crate::egress::opened;
use crate::egress::Fetch;
use crate::egress::Policy;
use crate::egress::Refusal;
use crate::kv::expiry;
use crate::kv::law_a_read_gives_back_the_write;
use crate::kv::Kv;
use crate::kv::KvView;
use crate::kv::MAX_KEY_BYTES;
use crate::kv::MAX_VALUE_BYTES;
use crate::text::lossy;
use crate::text::lossy_text;
use std::ops::Range;
use vstd::prelude::*;
use vstd::slice::slice_subrange;
use vstd::slice::slice_to_vec;
use vstd::string::StringExecFns;

verus! {

/// Cap on one log payload. An unbounded copy out of guest memory would let one
/// guest make the host allocate until it dies.
pub const MAX_LOG_BYTES: u32 = 4096;

/// Cap on the response a guest may accumulate: 1 MiB.
pub const MAX_RESPONSE_BYTES: usize = 0x10_0000;

/// Cap on captured stdout and stderr per request: 64 KiB.
pub const MAX_STDIO_BYTES: usize = 0x1_0000;

/// What a guest is told when the host will not do what it asked.
pub const REFUSED: i32 = -1;

/// The level at which the host logs a refused fetch.
pub const REFUSAL_LEVEL: i32 = 3;

/// Why a guest is stopped.
#[derive(Clone, Copy, PartialEq, Eq, Structural, Debug)]
pub enum Trap {
    MemoryOutOfBounds,
}

/// Per-request host state: one per request, never shared or reused.
pub struct HostCtx {
    /// `(level, message)` pairs, in the order they were logged.
    pub logs: Vec<(i32, String)>,
    pub request: Vec<u8>,
    pub response: Vec<u8>,
    /// Whose store, allowlist and logs these are.
    pub tenant: String,
    /// The session the request belongs to; empty for none.
    pub session: String,
    /// What the guest printed.
    pub stdout: Vec<u8>,
}

#[verifier::ext_equal]
pub struct HostView {
    pub logs: Seq<(i32, Seq<char>)>,
    pub request: Seq<u8>,
    pub response: Seq<u8>,
    pub tenant: Seq<char>,
    pub session: Seq<char>,
    pub stdout: Seq<u8>,
}

impl View for HostCtx {
    type V = HostView;

    open spec fn view(&self) -> HostView {
        HostView {
            logs: self.logs@.map_values(|entry: (i32, String)| (entry.0, entry.1@)),
            request: self.request@,
            response: self.response@,
            tenant: self.tenant@,
            session: self.session@,
            stdout: self.stdout@,
        }
    }
}

impl HostView {
    /// The start of a request.
    pub open spec fn fresh(tenant: Seq<char>, session: Seq<char>, request: Seq<u8>) -> HostView {
        HostView {
            logs: Seq::empty(),
            request,
            response: Seq::empty(),
            tenant,
            session,
            stdout: Seq::empty(),
        }
    }

    pub open spec fn logged(self, level: i32, message: Seq<char>) -> HostView {
        HostView { logs: self.logs.push((level, message)), ..self }
    }

    /// The response body: what was written explicitly, else what was printed.
    /// Merging the two would interleave by flush order, which is no contract a
    /// caller can rely on.
    pub open spec fn output(self) -> Seq<u8> {
        if self.response.len() > 0 {
            self.response
        } else {
            self.stdout
        }
    }
}

/// Where a guest's `(ptr, len)` lies, if it lies in the memory. The end has to
/// be a number that a guest can express.
pub open spec fn spec_range(mem_len: nat, ptr: u32, len: u32) -> Option<(int, int)> {
    if ptr + len <= u32::MAX && ptr + len <= mem_len {
        Some((ptr as int, ptr + len))
    } else {
        None
    }
}

/// The bytes at a guest's `(ptr, len)`. A guest that exports no memory has
/// none.
pub open spec fn spec_slice(exported: bool, memory: Seq<u8>, ptr: u32, len: u32) -> Option<Seq<u8>> {
    if exported && spec_range(memory.len(), ptr, len) is Some {
        Some(memory.subrange(ptr as int, ptr + len))
    } else {
        None
    }
}

/// `memory` with `bytes` written at `at`.
pub open spec fn overlay(memory: Seq<u8>, at: int, bytes: Seq<u8>) -> Seq<u8> {
    memory.take(at) + bytes + memory.skip(at + bytes.len())
}

/// As many of `bytes` as fit in `room`.
pub open spec fn fitting(bytes: Seq<u8>, room: int) -> Seq<u8> {
    if bytes.len() <= room {
        bytes
    } else {
        bytes.take(room)
    }
}

/// Bounds check for a guest `(ptr, len)` pair: the only place a guest pointer
/// is validated.
///
/// The addition is checked in `u32`, the width a guest can express.
pub fn checked_range(mem_len: usize, ptr: u32, len: u32) -> (out: Result<Range<usize>, Trap>)
    ensures
        match out {
            Ok(range) => spec_range(mem_len as nat, ptr, len) == Some(
                (range.start as int, range.end as int),
            ),
            Err(_) => spec_range(mem_len as nat, ptr, len) is None,
        },
{
    let end: u32 = match ptr.checked_add(len) {
        Some(end) => end,
        None => {
            return Err(Trap::MemoryOutOfBounds);
        },
    };
    if end as usize > mem_len {
        return Err(Trap::MemoryOutOfBounds);
    }
    Ok(ptr as usize..end as usize)
}

/// Copies the bytes that a guest pointer names. `exported` says whether the
/// guest has a memory at all.
pub fn guest_slice(memory: &[u8], exported: bool, ptr: u32, len: u32) -> (out: Result<Vec<u8>, Trap>)
    ensures
        match out {
            Ok(bytes) => spec_slice(exported, memory@, ptr, len) == Some(bytes@),
            Err(_) => spec_slice(exported, memory@, ptr, len) is None,
        },
{
    if !exported {
        return Err(Trap::MemoryOutOfBounds);
    }
    match checked_range(memory.len(), ptr, len) {
        Ok(range) => Ok(slice_to_vec(slice_subrange(memory, range.start, range.end))),
        Err(trap) => Err(trap),
    }
}

/// Writes as many of `bytes` as fit into the `len` bytes at `ptr`.
fn fill_slice(memory: &mut [u8], ptr: u32, len: u32, bytes: &[u8]) -> (n: usize)
    requires
        spec_range(old(memory)@.len(), ptr, len) is Some,
    ensures
        n == fitting(bytes@, len as int).len(),
        final(memory)@ == overlay(old(memory)@, ptr as int, fitting(bytes@, len as int)),
{
    let ghost before = memory@;
    let size: usize = memory.len();
    let at: usize = ptr as usize;
    let n: usize = if bytes.len() <= len as usize {
        bytes.len()
    } else {
        len as usize
    };
    let ghost kept = fitting(bytes@, len as int);
    let mut i: usize = 0;
    while i < n
        invariant
            i <= n <= bytes@.len(),
            n == kept.len(),
            kept == bytes@.take(n as int),
            at + n <= before.len(),
            size == before.len(),
            memory@ == overlay(before, at as int, kept.take(i as int)),
        decreases n - i,
    {
        memory[at + i] = bytes[i];
        i += 1;
        assert(memory@ =~= overlay(before, at as int, kept.take(i as int)));
    }
    assert(kept.take(n as int) =~= kept);
    n
}

impl HostCtx {
    pub fn new(tenant: &str, session: &str, request: Vec<u8>) -> (out: Self)
        ensures
            out@ == HostView::fresh(tenant@, session@, request@),
    {
        let out = HostCtx {
            logs: Vec::new(),
            request,
            response: Vec::new(),
            tenant: tenant.to_owned(),
            session: session.to_owned(),
            stdout: Vec::new(),
        };
        assert(out@ =~= HostView::fresh(tenant@, session@, request@));
        out
    }

    fn note(&mut self, level: i32, message: String)
        ensures
            final(self)@ == old(self)@.logged(level, message@),
    {
        self.logs.push((level, message));
        assert(self@ =~= old(self)@.logged(level, message@));
    }

    /// The body of the response.
    pub fn output(&self) -> (out: Vec<u8>)
        ensures
            out@ == self@.output(),
    {
        if self.response.len() > 0 {
            slice_to_vec(&self.response)
        } else {
            slice_to_vec(&self.stdout)
        }
    }

    /// `nebula.log`. The range the guest claimed is checked first and what is
    /// copied is shortened after: the other way round an out-of-bounds request
    /// would slip through as a short read.
    pub fn log(&mut self, memory: &[u8], exported: bool, level: i32, ptr: u32, len: u32) -> (out:
        Result<(), Trap>)
        ensures
            (final(self)@, out) == logged_from(old(self)@, exported, memory@, level, ptr, len),
            match spec_slice(exported, memory@, ptr, len) {
                Some(bytes) => out is Ok && final(self)@ == old(self)@.logged(
                    level,
                    lossy_text(fitting(bytes, MAX_LOG_BYTES as int)),
                ),
                None => out is Err && final(self)@ == old(self)@,
            },
    {
        let bytes = match guest_slice(memory, exported, ptr, len) {
            Ok(bytes) => bytes,
            Err(trap) => {
                return Err(trap);
            },
        };
        let message = if bytes.len() <= MAX_LOG_BYTES as usize {
            lossy(&bytes)
        } else {
            let kept = slice_subrange(&bytes, 0, MAX_LOG_BYTES as usize);
            assert(kept@ =~= bytes@.take(MAX_LOG_BYTES as int));
            lossy(kept)
        };
        self.note(level, message);
        Ok(())
    }

    /// `nebula.request_len`.
    pub fn request_len(&self) -> (out: i32)
        ensures
            out == self@.request.len() as i32,
    {
        self.request.len() as i32
    }

    /// `nebula.request_read`: a one-shot copy from the start of the body, not a
    /// cursor. Returns how many bytes were written.
    pub fn request_read(&self, memory: &mut [u8], exported: bool, ptr: u32, len: u32) -> (out:
        Result<i32, Trap>)
        ensures
            (final(memory)@, out) == read_into(self@.request, exported, old(memory)@, ptr, len),
    {
        if !exported {
            return Err(Trap::MemoryOutOfBounds);
        }
        if let Err(trap) = checked_range(memory.len(), ptr, len) {
            return Err(trap);
        }
        let n: usize = fill_slice(memory, ptr, len, &self.request);
        Ok(n as i32)
    }

    /// `nebula.response_write`: appends, and returns how many bytes were
    /// accepted. A short return means that the cap was reached, which a guest
    /// could not tell from silent truncation.
    pub fn response_write(&mut self, memory: &[u8], exported: bool, ptr: u32, len: u32) -> (out:
        Result<i32, Trap>)
        ensures
            (final(self)@, out) == written_from(old(self)@, exported, memory@, ptr, len),
    {
        let bytes = match guest_slice(memory, exported, ptr, len) {
            Ok(bytes) => bytes,
            Err(trap) => {
                return Err(trap);
            },
        };
        let room: usize = MAX_RESPONSE_BYTES.saturating_sub(self.response.len());
        let n: usize = if bytes.len() <= room {
            bytes.len()
        } else {
            room
        };
        let mut kept = slice_to_vec(slice_subrange(&bytes, 0, n));
        assert(kept@ =~= fitting(bytes@, room as int));
        self.response.append(&mut kept);
        assert(self@ =~= written_from(old(self)@, exported, memory@, ptr, len).0);
        Ok(n as i32)
    }

    /// `nebula.kv_get`: the value's full length, so that a guest can tell when
    /// its buffer was too short, or `-1` if the key is absent.
    pub fn kv_get(
        &self,
        kv: &Kv,
        memory: &mut [u8],
        exported: bool,
        key: (u32, u32),
        value: (u32, u32),
    ) -> (out: Result<i32, Trap>)
        requires
            kv.wf(),
        ensures
            exists|now: u64|
                (final(memory)@, out) == #[trigger] fetched_into(
                    self@,
                    kv@,
                    now,
                    exported,
                    old(memory)@,
                    key,
                    value,
                ),
    {
        let now: u64 = kv.now();
        self.kv_get_at(kv, now, memory, exported, key, value)
    }

    /// As [`HostCtx::kv_get`], at `now`.
    pub fn kv_get_at(
        &self,
        kv: &Kv,
        now: u64,
        memory: &mut [u8],
        exported: bool,
        key: (u32, u32),
        value: (u32, u32),
    ) -> (out: Result<i32, Trap>)
        requires
            kv.wf(),
        ensures
            (final(memory)@, out) == fetched_into(
                self@,
                kv@,
                now,
                exported,
                old(memory)@,
                key,
                value,
            ),
    {
        if key.1 as usize > MAX_KEY_BYTES {
            return Ok(REFUSED);
        }
        let name = match guest_slice(memory, exported, key.0, key.1) {
            Ok(bytes) => bytes,
            Err(trap) => {
                return Err(trap);
            },
        };
        let found = match kv.get_at(now, self.tenant.as_str(), self.session.as_str(), &name) {
            Some(found) => found,
            None => {
                return Ok(REFUSED);
            },
        };
        if let Err(trap) = checked_range(memory.len(), value.0, value.1) {
            return Err(trap);
        }
        fill_slice(memory, value.0, value.1, &found);
        Ok(found.len() as i32)
    }

    /// `nebula.kv_set`: `0` on success, `-1` if the item is oversized or the
    /// node is at capacity. The sizes are checked before anything is copied.
    pub fn kv_set(
        &self,
        kv: &mut Kv,
        memory: &[u8],
        exported: bool,
        key: (u32, u32),
        value: (u32, u32),
    ) -> (out: Result<i32, Trap>)
        requires
            old(kv).wf(),
        ensures
            final(kv).wf(),
            exists|now: u64|
                (final(kv)@, out) == #[trigger] stored_from(
                    self@,
                    old(kv)@,
                    now,
                    exported,
                    memory@,
                    key,
                    value,
                ),
    {
        let now: u64 = kv.now();
        self.kv_set_at(kv, now, memory, exported, key, value)
    }

    /// As [`HostCtx::kv_set`], at `now`.
    pub fn kv_set_at(
        &self,
        kv: &mut Kv,
        now: u64,
        memory: &[u8],
        exported: bool,
        key: (u32, u32),
        value: (u32, u32),
    ) -> (out: Result<i32, Trap>)
        requires
            old(kv).wf(),
        ensures
            final(kv).wf(),
            (final(kv)@, out) == stored_from(
                self@,
                old(kv)@,
                now,
                exported,
                memory@,
                key,
                value,
            ),
    {
        if key.1 as usize > MAX_KEY_BYTES || value.1 as usize > MAX_VALUE_BYTES {
            return Ok(REFUSED);
        }
        let name = match guest_slice(memory, exported, key.0, key.1) {
            Ok(bytes) => bytes,
            Err(trap) => {
                return Err(trap);
            },
        };
        let held = match guest_slice(memory, exported, value.0, value.1) {
            Ok(bytes) => bytes,
            Err(trap) => {
                return Err(trap);
            },
        };
        match kv.set_at(now, self.tenant.as_str(), self.session.as_str(), &name, &held) {
            Ok(()) => Ok(0),
            Err(_) => Ok(REFUSED),
        }
    }

    /// `nebula.http_get`, up to the socket: reads the url and opens the fetch.
    /// `Ok(Err(-1))` answers the guest at once.
    ///
    /// The reason for a refusal goes to the host's logs. Telling a guest why a
    /// host is blocked would let it enumerate the allowlist.
    pub fn http_get(
        &mut self,
        memory: &[u8],
        exported: bool,
        url: (u32, u32),
        policy: &Policy,
        budget: u64,
        version: &str,
    ) -> (out: Result<Result<Fetch, i32>, Trap>)
        requires
            policy.wf(),
        ensures
            match spec_slice(exported, memory@, url.0, url.1) {
                None => out is Err && final(self)@ == old(self)@,
                Some(bytes) => match (
                    opened(policy@, old(self)@.tenant, lossy_text(bytes), budget, version@),
                    out,
                ) {
                    (Ok(fetch), Ok(Ok(got))) => got@ == fetch && got@.wf() && final(self)@ == old(
                        self,
                    )@,
                    (Err(why), Ok(Err(code))) => code == REFUSED && final(self)@ == refused(
                        old(self)@,
                        why,
                    ),
                    _ => false,
                },
            },
    {
        let bytes = match guest_slice(memory, exported, url.0, url.1) {
            Ok(bytes) => bytes,
            Err(trap) => {
                return Err(trap);
            },
        };
        let url = lossy(&bytes);
        match Fetch::open(policy, self.tenant.as_str(), url.as_str(), budget, version) {
            Ok(fetch) => Ok(Ok(fetch)),
            Err(why) => Ok(Err(self.http_refused(why))),
        }
    }

    /// Answers a guest whose fetch was refused.
    pub fn http_refused(&mut self, why: Refusal) -> (out: i32)
        ensures
            out == REFUSED,
            final(self)@ == refused(old(self)@, why),
    {
        let mut message = String::from_str("http_get refused: ");
        message.append(why.message());
        self.note(REFUSAL_LEVEL, message);
        REFUSED
    }

    /// Hands a guest its response: as much as fits, and the full length.
    pub fn http_answer(
        &self,
        memory: &mut [u8],
        exported: bool,
        ptr: u32,
        len: u32,
        response: &[u8],
    ) -> (out: Result<i32, Trap>)
        ensures
            (final(memory)@, out) == answered_into(response@, exported, old(memory)@, ptr, len),
            match spec_slice(exported, old(memory)@, ptr, len) {
                Some(_) => out == Ok::<i32, Trap>(response@.len() as i32) && final(memory)@
                    == overlay(old(memory)@, ptr as int, fitting(response@, len as int)),
                None => out is Err && final(memory)@ == old(memory)@,
            },
    {
        if !exported {
            return Err(Trap::MemoryOutOfBounds);
        }
        if let Err(trap) = checked_range(memory.len(), ptr, len) {
            return Err(trap);
        }
        fill_slice(memory, ptr, len, response);
        Ok(response.len() as i32)
    }
}

/// What a log call does, and what it returns.
pub open spec fn logged_from(
    ctx: HostView,
    exported: bool,
    memory: Seq<u8>,
    level: i32,
    ptr: u32,
    len: u32,
) -> (HostView, Result<(), Trap>) {
    match spec_slice(exported, memory, ptr, len) {
        Some(bytes) => (
            ctx.logged(level, lossy_text(fitting(bytes, MAX_LOG_BYTES as int))),
            Ok(()),
        ),
        None => (ctx, Err(Trap::MemoryOutOfBounds)),
    }
}

/// What an answer to a fetch does to guest memory, and what it returns.
pub open spec fn answered_into(
    response: Seq<u8>,
    exported: bool,
    memory: Seq<u8>,
    ptr: u32,
    len: u32,
) -> (Seq<u8>, Result<i32, Trap>) {
    if spec_slice(exported, memory, ptr, len) is Some {
        (overlay(memory, ptr as int, fitting(response, len as int)), Ok(response.len() as i32))
    } else {
        (memory, Err(Trap::MemoryOutOfBounds))
    }
}

/// What a request read does to guest memory, and what it returns.
pub open spec fn read_into(request: Seq<u8>, exported: bool, memory: Seq<u8>, ptr: u32, len: u32) -> (
    Seq<u8>,
    Result<i32, Trap>,
) {
    if spec_slice(exported, memory, ptr, len) is Some {
        let bytes = fitting(request, len as int);
        (overlay(memory, ptr as int, bytes), Ok(bytes.len() as i32))
    } else {
        (memory, Err(Trap::MemoryOutOfBounds))
    }
}

/// What a response write does, and what it returns.
pub open spec fn written_from(
    ctx: HostView,
    exported: bool,
    memory: Seq<u8>,
    ptr: u32,
    len: u32,
) -> (HostView, Result<i32, Trap>) {
    match spec_slice(exported, memory, ptr, len) {
        Some(bytes) => {
            let room = if ctx.response.len() <= MAX_RESPONSE_BYTES {
                MAX_RESPONSE_BYTES - ctx.response.len()
            } else {
                0
            };
            let kept = fitting(bytes, room);
            (HostView { response: ctx.response + kept, ..ctx }, Ok(kept.len() as i32))
        },
        None => (ctx, Err(Trap::MemoryOutOfBounds)),
    }
}

/// What a store read does to guest memory, and what it returns.
pub open spec fn fetched_into(
    ctx: HostView,
    kv: KvView,
    now: u64,
    exported: bool,
    memory: Seq<u8>,
    key: (u32, u32),
    value: (u32, u32),
) -> (Seq<u8>, Result<i32, Trap>) {
    if key.1 > MAX_KEY_BYTES {
        (memory, Ok(REFUSED))
    } else {
        match spec_slice(exported, memory, key.0, key.1) {
            None => (memory, Err(Trap::MemoryOutOfBounds)),
            Some(name) => match kv.read(now, (ctx.tenant, ctx.session, name)) {
                None => (memory, Ok(REFUSED)),
                Some(found) => if spec_slice(exported, memory, value.0, value.1) is Some {
                    (
                        overlay(memory, value.0 as int, fitting(found, value.1 as int)),
                        Ok(found.len() as i32),
                    )
                } else {
                    (memory, Err(Trap::MemoryOutOfBounds))
                },
            },
        }
    }
}

/// What a store write does to the store, and what it returns.
pub open spec fn stored_from(
    ctx: HostView,
    kv: KvView,
    now: u64,
    exported: bool,
    memory: Seq<u8>,
    key: (u32, u32),
    value: (u32, u32),
) -> (KvView, Result<i32, Trap>) {
    if key.1 > MAX_KEY_BYTES || value.1 > MAX_VALUE_BYTES {
        (kv, Ok(REFUSED))
    } else {
        match (
            spec_slice(exported, memory, key.0, key.1),
            spec_slice(exported, memory, value.0, value.1),
        ) {
            (Some(name), Some(held)) => {
                let place = (ctx.tenant, ctx.session, name);
                (
                    kv.after_write(now, place, held),
                    Ok(
                        if kv.takes(now, place, held) {
                            0
                        } else {
                            REFUSED
                        },
                    ),
                )
            },
            _ => (kv, Err(Trap::MemoryOutOfBounds)),
        }
    }
}

/// The log line that a refused fetch leaves.
pub open spec fn refused(ctx: HostView, why: Refusal) -> HostView {
    ctx.logged(REFUSAL_LEVEL, "http_get refused: "@ + why.spec_message())
}

/// What is left of a request's budget: nothing once it is spent.
pub fn remaining_budget(budget: u64, spent: u64) -> (out: u64)
    ensures
        out == if spent < budget {
            budget - spent
        } else {
            0
        },
{
    budget.saturating_sub(spent)
}

/// A body that a guest reads and writes back arrives unchanged.
pub proof fn law_a_body_round_trips(ctx: HostView, memory: Seq<u8>, ptr: u32)
    requires
        ctx.response.len() == 0,
        ctx.request.len() <= MAX_RESPONSE_BYTES,
        ptr + ctx.request.len() <= memory.len(),
        ptr + ctx.request.len() <= u32::MAX,
    ensures
        ({
            let len = ctx.request.len() as u32;
            let (read, _) = read_into(ctx.request, true, memory, ptr, len);
            let (after, n) = written_from(ctx, true, read, ptr, len);
            &&& after.response == ctx.request
            &&& n == Ok::<i32, Trap>(ctx.request.len() as i32)
            &&& ctx.request.len() > 0 ==> after.output() == ctx.request
        }),
{
    let len = ctx.request.len() as u32;
    let read = read_into(ctx.request, true, memory, ptr, len).0;
    assert(read.subrange(ptr as int, ptr + len) =~= ctx.request);
    assert(ctx.response + ctx.request =~= ctx.request);
}

/// A response never grows past its cap, and what was accepted stays.
pub proof fn law_a_response_is_capped(
    ctx: HostView,
    exported: bool,
    memory: Seq<u8>,
    ptr: u32,
    len: u32,
)
    requires
        ctx.response.len() <= MAX_RESPONSE_BYTES,
    ensures
        written_from(ctx, exported, memory, ptr, len).0.response.len() <= MAX_RESPONSE_BYTES,
        ctx.response.is_prefix_of(written_from(ctx, exported, memory, ptr, len).0.response),
{
    let after = written_from(ctx, exported, memory, ptr, len).0.response;
    assert(ctx.response =~= after.take(ctx.response.len() as int));
}

/// A guest reads back what it stored, in the session it stored it in, until it
/// expires.
pub proof fn law_a_stored_value_is_read_back(
    ctx: HostView,
    kv: KvView,
    at: u64,
    later: u64,
    memory: Seq<u8>,
    key: (u32, u32),
    value: (u32, u32),
    buffer: u32,
)
    requires
        stored_from(ctx, kv, at, true, memory, key, value).1 == Ok::<i32, Trap>(0),
        later < expiry(at),
        spec_slice(true, memory, buffer, value.1) is Some,
    ensures
        ({
            let after = stored_from(ctx, kv, at, true, memory, key, value).0;
            let (out, n) = fetched_into(ctx, after, later, true, memory, key, (buffer, value.1));
            &&& n == Ok::<i32, Trap>(value.1 as i32)
            &&& spec_slice(true, out, buffer, value.1) == spec_slice(true, memory, value.0, value.1)
        }),
{
    let name = spec_slice(true, memory, key.0, key.1)->0;
    let held = spec_slice(true, memory, value.0, value.1)->0;
    law_a_read_gives_back_the_write(kv, (ctx.tenant, ctx.session, name), held, at, later);
    assert(fitting(held, value.1 as int) == held);
    let out = overlay(memory, buffer as int, held);
    assert(out.subrange(buffer as int, buffer + value.1) =~= held);
}

/// A guest's pointer and length name bytes exactly when the guest has a memory and
/// all of them lie in it, at places that a guest can express; and then those bytes.
pub proof fn law_a_pointer_names_bytes_inside_the_memory(
    exported: bool,
    memory: Seq<u8>,
    ptr: u32,
    len: u32,
)
    ensures
        ({
            let inside = ptr + len <= memory.len() && ptr + len <= 0xffff_ffff;
            let slice = spec_slice(exported, memory, ptr, len);
            &&& spec_range(memory.len(), ptr, len) == (if inside {
                Some((ptr as int, ptr + len))
            } else {
                None
            })
            &&& slice is Some <==> exported && inside
            &&& slice is Some ==> slice->0.len() == len && forall|i: int|
                0 <= i < len ==> #[trigger] slice->0[i] == memory[ptr + i]
        }),
{
}

/// What is written into a memory lies where it was written, and no other byte
/// changes; of bytes that do not fit the first are kept.
pub proof fn law_a_write_changes_only_its_place(
    memory: Seq<u8>,
    at: int,
    bytes: Seq<u8>,
    room: int,
    i: int,
)
    requires
        0 <= at,
        at + bytes.len() <= memory.len(),
        0 <= i < memory.len(),
        0 <= room,
    ensures
        overlay(memory, at, bytes).len() == memory.len(),
        overlay(memory, at, bytes)[i] == (if at <= i < at + bytes.len() {
            bytes[i - at]
        } else {
            memory[i]
        }),
        fitting(bytes, room).len() == (if bytes.len() <= room {
            bytes.len() as int
        } else {
            room
        }),
        i < fitting(bytes, room).len() ==> fitting(bytes, room)[i] == bytes[i],
{
}

/// A guest that reads its request is given the beginning of it, as much as it made
/// room for, and is told how much; nothing else in its memory changes.
pub proof fn law_a_request_is_read_from_its_start(
    request: Seq<u8>,
    exported: bool,
    memory: Seq<u8>,
    ptr: u32,
    len: u32,
    i: int,
)
    requires
        0 <= i < memory.len(),
        request.len() <= 0x7fff_ffff || len <= 0x7fff_ffff,
    ensures
        ({
            let (after, told) = read_into(request, exported, memory, ptr, len);
            let n = if request.len() <= len {
                request.len() as int
            } else {
                len as int
            };
            let inside = exported && ptr + len <= memory.len() && ptr + len <= 0xffff_ffff;
            &&& inside ==> told == Ok::<i32, Trap>(n as i32)
            &&& inside ==> after.len() == memory.len() && after[i] == (if ptr <= i < ptr + n {
                request[i - ptr]
            } else {
                memory[i]
            })
            &&& !inside ==> told is Err && after == memory
        }),
{
}

/// What a guest writes is added behind what it wrote before, up to a mebibyte in all,
/// and it is told how much was taken; nothing else of its request changes.
pub proof fn law_a_response_grows_by_what_is_written(
    ctx: HostView,
    exported: bool,
    memory: Seq<u8>,
    ptr: u32,
    len: u32,
)
    requires
        ctx.response.len() <= 1_048_576,
    ensures
        ({
            let (after, told) = written_from(ctx, exported, memory, ptr, len);
            let room = 1_048_576 - ctx.response.len();
            let n = if len <= room {
                len as int
            } else {
                room
            };
            let inside = exported && ptr + len <= memory.len() && ptr + len <= 0xffff_ffff;
            &&& inside ==> told == Ok::<i32, Trap>(n as i32) && after.response == ctx.response
                + memory.subrange(ptr as int, ptr + n)
            &&& !inside ==> told is Err && after == ctx
            &&& after.logs == ctx.logs && after.request == ctx.request
            &&& after.tenant == ctx.tenant && after.session == ctx.session
            &&& after.stdout == ctx.stdout
        }),
{
    let (after, told) = written_from(ctx, exported, memory, ptr, len);
    if let Some(bytes) = spec_slice(exported, memory, ptr, len) {
        let room = 1_048_576 - ctx.response.len();
        assert(after.response =~= ctx.response + memory.subrange(
            ptr as int,
            ptr + if len <= room {
                len as int
            } else {
                room
            },
        ));
    }
}

/// The response to a request is what the guest wrote, all of it, and what it printed
/// where it wrote nothing.
pub proof fn law_the_output_is_what_was_written(ctx: HostView)
    ensures
        ctx.response.len() > 0 ==> ctx.output() == ctx.response,
        ctx.response.len() == 0 ==> ctx.output() == ctx.stdout,
{
}

/// A request starts with its own body, for its own tenant and session, and with
/// nothing else.
pub proof fn law_a_request_starts_clean(
    tenant: Seq<char>,
    session: Seq<char>,
    request: Seq<u8>,
)
    ensures
        ({
            let ctx = HostView::fresh(tenant, session, request);
            &&& ctx.request == request && ctx.tenant == tenant && ctx.session == session
            &&& ctx.logs.len() == 0 && ctx.response.len() == 0 && ctx.stdout.len() == 0
        }),
{
}

/// A log line is added whole behind the others, and nothing else changes; a refused
/// fetch leaves its reason there.
pub proof fn law_log_lines_are_kept_in_order(
    ctx: HostView,
    level: i32,
    message: Seq<char>,
    why: Refusal,
)
    ensures
        ctx.logged(level, message).logs == ctx.logs.push((level, message)),
        ctx.logged(level, message).request == ctx.request && ctx.logged(level, message).response
            == ctx.response && ctx.logged(level, message).stdout == ctx.stdout && ctx.logged(
            level,
            message,
        ).tenant == ctx.tenant && ctx.logged(level, message).session == ctx.session,
        refused(ctx, why).logs == ctx.logs.push((3i32, "http_get refused: "@ + why.spec_message())),
        refused(ctx, why).response == ctx.response && refused(ctx, why).request == ctx.request,
        MAX_LOG_BYTES == 4096,
        REFUSED == -1,
{
}

/// A guest that reads the store is given the value of its own tenant and session
/// under its key, as much as it made room for, and is told how long the value is.
#[verifier::rlimit(40)]
pub proof fn law_a_guest_reads_its_own_values(
    ctx: HostView,
    kv: KvView,
    now: u64,
    memory: Seq<u8>,
    key: (u32, u32),
    value: (u32, u32),
)
    requires
        key.0 + key.1 <= memory.len() && key.0 + key.1 <= 0xffff_ffff,
        value.0 + value.1 <= memory.len() && value.0 + value.1 <= 0xffff_ffff,
    ensures
        ({
            let (after, told) = fetched_into(ctx, kv, now, true, memory, key, value);
            let name = memory.subrange(key.0 as int, key.0 + key.1);
            let found = kv.read(now, (ctx.tenant, ctx.session, name));
            let n = if found->0.len() <= value.1 {
                found->0.len() as int
            } else {
                value.1 as int
            };
            &&& key.1 > 1024 || found is None ==> told == Ok::<i32, Trap>(-1i32) && after == memory
            &&& key.1 <= 1024 && found is Some ==> {
                &&& told == Ok::<i32, Trap>(found->0.len() as i32)
                &&& after.len() == memory.len()
                &&& after.subrange(value.0 as int, value.0 + n) == found->0.take(n)
                &&& forall|i: int|
                    0 <= i < memory.len() && !(value.0 <= i < value.0 + n) ==> #[trigger] after[i]
                        == memory[i]
            }
        }),
{
    let (after, told) = fetched_into(ctx, kv, now, true, memory, key, value);
    let name = memory.subrange(key.0 as int, key.0 + key.1);
    if key.1 <= 1024 {
        if let Some(found) = kv.read(now, (ctx.tenant, ctx.session, name)) {
            let n = if found.len() <= value.1 {
                found.len() as int
            } else {
                value.1 as int
            };
            assert(after.subrange(value.0 as int, value.0 + n) =~= found.take(n));
        }
    }
}

/// A guest that writes to the store puts the whole value under its own tenant and
/// session, and is told whether it was taken; what is too large is not.
pub proof fn law_a_guest_writes_its_own_values(
    ctx: HostView,
    kv: KvView,
    now: u64,
    memory: Seq<u8>,
    key: (u32, u32),
    value: (u32, u32),
)
    requires
        key.0 + key.1 <= memory.len() && key.0 + key.1 <= 0xffff_ffff,
        value.0 + value.1 <= memory.len() && value.0 + value.1 <= 0xffff_ffff,
    ensures
        ({
            let (after, told) = stored_from(ctx, kv, now, true, memory, key, value);
            let place = (ctx.tenant, ctx.session, memory.subrange(key.0 as int, key.0 + key.1));
            let held = memory.subrange(value.0 as int, value.0 + value.1);
            let sized = key.1 <= 1024 && value.1 <= 65_536;
            &&& !sized ==> told == Ok::<i32, Trap>(-1i32) && after == kv
            &&& sized ==> after == kv.after_write(now, place, held)
            &&& sized && kv.takes(now, place, held) ==> told == Ok::<i32, Trap>(0)
            &&& sized && !kv.takes(now, place, held) ==> told == Ok::<i32, Trap>(-1i32)
        }),
{
}

/// A guest that names bytes outside its memory is stopped, and nothing changes.
pub proof fn law_a_bad_pointer_changes_nothing(
    ctx: HostView,
    kv: KvView,
    now: u64,
    exported: bool,
    memory: Seq<u8>,
    key: (u32, u32),
    value: (u32, u32),
)
    requires
        key.1 <= 1024,
        value.1 <= 65_536,
        !exported || key.0 + key.1 > memory.len() || key.0 + key.1 > 0xffff_ffff,
    ensures
        fetched_into(ctx, kv, now, exported, memory, key, value) == (
            memory,
            Err::<i32, Trap>(Trap::MemoryOutOfBounds),
        ),
        stored_from(ctx, kv, now, exported, memory, key, value) == (
            kv,
            Err::<i32, Trap>(Trap::MemoryOutOfBounds),
        ),
{
}

/// The state of a request is seen whole.
pub proof fn law_a_context_is_seen_whole(ctx: HostCtx, i: int)
    requires
        0 <= i < ctx.logs@.len(),
    ensures
        ctx@.request == ctx.request@ && ctx@.response == ctx.response@ && ctx@.stdout
            == ctx.stdout@,
        ctx@.tenant == ctx.tenant@ && ctx@.session == ctx.session@,
        ctx@.logs.len() == ctx.logs@.len(),
        ctx@.logs[i] == (ctx.logs@[i].0, ctx.logs@[i].1@),
{
}

/// What a guest logs is kept from its start, up to four kibibytes, at the level it was
/// logged at.
pub proof fn law_a_log_line_is_kept_from_its_start(
    ctx: HostView,
    exported: bool,
    memory: Seq<u8>,
    level: i32,
    ptr: u32,
    len: u32,
)
    ensures
        ({
            let (after, out) = logged_from(ctx, exported, memory, level, ptr, len);
            let inside = exported && ptr + len <= memory.len() && ptr + len <= 0xffff_ffff;
            let n = if len <= 4096 {
                len as int
            } else {
                4096
            };
            let line = (level, lossy_text(memory.subrange(ptr as int, ptr + n)));
            &&& inside ==> out is Ok && after.logs == ctx.logs.push(line)
            &&& !inside ==> out is Err && after == ctx
            &&& after.request == ctx.request && after.response == ctx.response
        }),
{
    if let Some(bytes) = spec_slice(exported, memory, ptr, len) {
        let n = if len <= 4096 {
            len as int
        } else {
            4096
        };
        assert(fitting(bytes, MAX_LOG_BYTES as int) =~= memory.subrange(ptr as int, ptr + n));
    }
}

/// A guest is handed its response from the start, as much as it made room for, and is
/// told how long it is in all; nothing else in its memory changes.
pub proof fn law_a_fetched_response_is_handed_over(
    response: Seq<u8>,
    exported: bool,
    memory: Seq<u8>,
    ptr: u32,
    len: u32,
    i: int,
)
    requires
        0 <= i < memory.len(),
        response.len() <= 0x7fff_ffff,
    ensures
        ({
            let (after, told) = answered_into(response, exported, memory, ptr, len);
            let inside = exported && ptr + len <= memory.len() && ptr + len <= 0xffff_ffff;
            &&& inside ==> told == Ok::<i32, Trap>(response.len() as i32) && after.len()
                == memory.len()
            &&& inside && ptr <= i < ptr + len && i - ptr < response.len() ==> after[i]
                == response[i - ptr]
            &&& inside && !(ptr <= i < ptr + len && i - ptr < response.len()) ==> after[i]
                == memory[i]
            &&& !inside ==> told is Err && after == memory
        }),
{
}

} // verus!
